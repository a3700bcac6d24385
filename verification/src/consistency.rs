//! What holds of the allocator's records: the chain, the free lists, the
//! bitmaps and the counts, and the lemmas that read them.

use vstd::prelude::*;
use crate::allocator::SpeedAllocator;
use crate::bits::bit32;
use crate::bits::bit64;
use crate::bits::lemma_zero32;
use crate::block::BlockState;
use crate::mapping::BIN_COUNT;
use crate::mapping::CLASS_COUNT;
use crate::mapping::class_index;
use crate::mapping::lemma_binmap_down_range;
use crate::mapping::MAX_POOL_SIZE;
use crate::mapping::MIN_ALLOC_SIZE;
use crate::model::PoolModel;
use crate::model::Region;

verus! {

/// A set of indices below `n` is finite and has at most `n` elements.
pub(crate) proof fn lemma_bounded_set(s: Set<usize>, n: usize)
    requires
        forall|i: usize| s.contains(i) ==> i < n,
    ensures
        s.finite(),
        s.len() <= n,
    decreases n,
{
    if n == 0 {
        assert(s =~= Set::<usize>::empty());
    } else {
        let m = (n - 1) as usize;
        lemma_bounded_set(s.remove(m), m);
        if s.contains(m) {
            assert(s =~= s.remove(m).insert(m));
        } else {
            assert(s =~= s.remove(m));
        }
    }
}

impl SpeedAllocator {
    /// The record in slot `i` stands for a block.
    pub(crate) open spec fn live(&self, i: usize) -> bool {
        i < self.blocks@.len() && self.blocks@[i as int].state != BlockState::Vacant
    }

    /// The record in slot `i` stands for a free block.
    pub(crate) open spec fn free_at(&self, i: usize) -> bool {
        i < self.blocks@.len() && self.blocks@[i as int].state == BlockState::Free
    }

    /// The block of slot `h` as the model sees it.
    pub(crate) open spec fn region_of(&self, h: usize) -> Region {
        let b = self.blocks@[h as int];
        Region {
            handle: h,
            start: (b.offset - b.adjustment) as u64,
            offset: b.offset,
            size: b.size,
            end: (b.offset + b.size + b.slack) as u64,
            free: b.state == BlockState::Free,
        }
    }

    /// The model of the allocator: the regions of the blocks of the chain,
    /// in address order, and the free lists.
    pub(crate) open spec fn model(&self) -> PoolModel {
        PoolModel {
            pool_base: self.pool_base,
            pool_size: self.pool_size,
            chain: Seq::new(self.chain@.len(), |k: int| self.region_of(self.chain@[k])),
            lists: self.lists@,
        }
    }

    /// What holds of the record of every block by itself.
    pub(crate) open spec fn block_ok(&self, h: usize) -> bool {
        let b = self.blocks@[h as int];
        &&& self.live(h)
        &&& b.size >= MIN_ALLOC_SIZE
        &&& b.adjustment <= b.offset
        &&& b.offset + b.size + b.slack <= self.pool_size
        &&& b.state == BlockState::Free ==> b.adjustment == 0 && b.slack == 0
        &&& b.state == BlockState::Used ==> b.prev_free.is_none() && b.next_free.is_none()
    }

    /// Block `b` follows block `a` in address order, and their records say so.
    pub(crate) open spec fn linked(&self, a: usize, b: usize) -> bool {
        &&& self.blocks@[a as int].next_physical == Some(b)
        &&& self.blocks@[b as int].prev_physical == Some(a)
        &&& self.blocks@[a as int].end() == self.blocks@[b as int].start()
    }

    /// Sizes of the tables and of the pool.
    pub(crate) open spec fn inv_shape(&self) -> bool {
        &&& self.bins@.len() == CLASS_COUNT
        &&& self.sub_bin_bitmap@.len() == BIN_COUNT
        &&& self.lists@.len() == CLASS_COUNT
        &&& MIN_ALLOC_SIZE <= self.pool_size <= MAX_POOL_SIZE
        &&& self.pool_base + self.pool_size <= u64::MAX
    }

    /// The physical chain holds every block once, in address order, and
    /// covers the pool.
    #[verifier::opaque]
    pub(crate) open spec fn inv_chain(&self) -> bool {
        let chain = self.chain@;
        &&& chain.len() >= 1
        &&& forall|k: int| 0 <= k < chain.len() ==> self.block_ok(#[trigger] chain[k])
        &&& forall|k1: int, k2: int|
            0 <= k1 < k2 < chain.len() ==> #[trigger] chain[k1] != #[trigger] chain[k2]
        &&& forall|i: usize| #[trigger] self.live(i) ==> chain.contains(i)
        &&& self.blocks@[chain[0] as int].prev_physical.is_none()
        &&& self.blocks@[chain[0] as int].start() == 0
        &&& self.blocks@[chain.last() as int].next_physical.is_none()
        &&& self.blocks@[chain.last() as int].end() == self.pool_size
        &&& forall|k: int, k2: int|
            0 <= k && k2 == k + 1 && k2 < chain.len() ==> self.linked(
                #[trigger] chain[k],
                #[trigger] chain[k2],
            )
    }

    /// The vacant slots are listed once each.
    #[verifier::opaque]
    pub(crate) open spec fn inv_vacant(&self) -> bool {
        &&& forall|j: int|
            0 <= j < self.vacant@.len() ==> (#[trigger] self.vacant@[j]) < self.blocks@.len()
                && self.blocks@[self.vacant@[j] as int].state == BlockState::Vacant
        &&& forall|j1: int, j2: int|
            0 <= j1 < j2 < self.vacant@.len() ==> #[trigger] self.vacant@[j1]
                != #[trigger] self.vacant@[j2]
    }

    /// Block `h` is rightly in the free list of class `c`.
    pub(crate) open spec fn listed_ok(&self, c: int, h: usize, floating: Set<usize>) -> bool {
        &&& self.free_at(h)
        &&& class_index(self.blocks@[h as int].size) == c
        &&& !floating.contains(h)
    }

    /// Block `b` follows block `a` in a free list, and their records say so.
    pub(crate) open spec fn free_linked(&self, a: usize, b: usize) -> bool {
        &&& self.blocks@[a as int].next_free == Some(b)
        &&& self.blocks@[b as int].prev_free == Some(a)
    }

    /// The head of the free list of class `c` and the ends of its links.
    pub(crate) open spec fn head_ok(&self, c: int) -> bool {
        let list = self.lists@[c];
        if list.len() == 0 {
            self.bins@[c].is_none()
        } else {
            &&& self.bins@[c] == Some(list[0])
            &&& self.blocks@[list[0] as int].prev_free.is_none()
            &&& self.blocks@[list.last() as int].next_free.is_none()
        }
    }

    /// The free lists hold the free blocks that do not float, each in the
    /// list of its class and once, linked in list order.
    #[verifier::opaque]
    pub(crate) open spec fn inv_lists(&self, floating: Set<usize>) -> bool {
        let lists = self.lists@;
        &&& forall|c: int, j: int|
            0 <= c < CLASS_COUNT && 0 <= j < lists[c].len() ==> self.listed_ok(
                c,
                #[trigger] lists[c][j],
                floating,
            )
        &&& forall|c: int, j1: int, j2: int|
            0 <= c < CLASS_COUNT && 0 <= j1 < j2 < lists[c].len() ==> #[trigger] lists[c][j1]
                != #[trigger] lists[c][j2]
        &&& forall|c: int| 0 <= c < CLASS_COUNT ==> #[trigger] self.head_ok(c)
        &&& forall|c: int, j: int, j2: int|
            0 <= c < CLASS_COUNT && 0 <= j && j2 == j + 1 && j2 < lists[c].len()
                ==> self.free_linked(#[trigger] lists[c][j], #[trigger] lists[c][j2])
        &&& forall|i: usize|
            #[trigger] self.free_at(i) && !floating.contains(i) ==> lists[class_index(
                self.blocks@[i as int].size,
            )].contains(i)
        &&& forall|i: usize| floating.contains(i) ==> #[trigger] self.free_at(i)
    }

    /// The bitmaps say which free lists are not empty.
    #[verifier::opaque]
    pub(crate) open spec fn inv_bitmaps(&self) -> bool {
        &&& forall|i: int|
            0 <= i < BIN_COUNT ==> (#[trigger] bit64(self.bin_bitmap, i) <==> self.sub_bin_bitmap@[i]
                != 0)
        &&& forall|i: int| BIN_COUNT <= i < 64 ==> !#[trigger] bit64(self.bin_bitmap, i)
        &&& forall|i: int, j: int|
            0 <= i < BIN_COUNT && 0 <= j < 32 ==> (#[trigger] bit32(self.sub_bin_bitmap@[i], j)
                <==> self.lists@[i * 32 + j].len() > 0)
    }

    /// No two neighbours in the chain are both free, unless one floats.
    #[verifier::opaque]
    pub(crate) open spec fn inv_coalesced(&self, floating: Set<usize>) -> bool {
        forall|k: int, k2: int|
            0 <= k && k2 == k + 1 && k2 < self.chain@.len() ==> !(self.free_at(
                #[trigger] self.chain@[k],
            ) && self.free_at(#[trigger] self.chain@[k2]) && !floating.contains(self.chain@[k])
                && !floating.contains(self.chain@[k2]))
    }

    /// The slots of the free blocks that do not float.
    pub(crate) open spec fn listed_ids(&self, floating: Set<usize>) -> Set<usize> {
        Set::new(|i: usize| self.free_at(i) && !floating.contains(i))
    }

    /// The slots of the used blocks.
    pub(crate) open spec fn used_ids(&self) -> Set<usize> {
        Set::new(|i: usize| i < self.blocks@.len() && self.blocks@[i as int].state == BlockState::Used)
    }

    /// The state between the steps of an operation: all is in order, but
    /// the free blocks in `floating` are in no free list yet.
    pub(crate) open spec fn inv(&self, floating: Set<usize>) -> bool {
        &&& self.inv_shape()
        &&& self.inv_chain()
        &&& self.inv_vacant()
        &&& self.inv_lists(floating)
        &&& self.inv_bitmaps()
        &&& self.inv_coalesced(floating)
        &&& self.num_free_block == self.listed_ids(floating).len()
    }

    /// Block `h` has no free neighbour in the chain, floating ones aside.
    #[verifier::opaque]
    pub(crate) open spec fn lonely(&self, h: usize, floating: Set<usize>) -> bool {
        forall|k: int, k2: int|
            0 <= k && k2 == k + 1 && k2 < self.chain@.len() ==> {
                &&& (#[trigger] self.chain@[k]) == h ==> !(self.free_at(#[trigger] self.chain@[k2])
                    && !floating.contains(self.chain@[k2]))
                &&& self.chain@[k2] == h ==> !(self.free_at(self.chain@[k]) && !floating.contains(
                    self.chain@[k],
                ))
            }
    }

    /// The two states have the same blocks in the same places; only links
    /// within free lists may differ.
    #[verifier::opaque]
    pub(crate) open spec fn same_layout(&self, other: &Self) -> bool {
        &&& self.pool_base == other.pool_base
        &&& self.pool_size == other.pool_size
        &&& self.chain@ == other.chain@
        &&& self.vacant@ == other.vacant@
        &&& self.num_allocation == other.num_allocation
        &&& self.blocks@.len() == other.blocks@.len()
        &&& forall|i: int|
            0 <= i < self.blocks@.len() ==> {
                let a = #[trigger] self.blocks@[i];
                let b = other.blocks@[i];
                &&& a.size == b.size
                &&& a.offset == b.offset
                &&& a.adjustment == b.adjustment
                &&& a.slack == b.slack
                &&& a.state == b.state
                &&& a.prev_physical == b.prev_physical
                &&& a.next_physical == b.next_physical
                &&& (a.state == BlockState::Used ==> a.prev_free == b.prev_free && a.next_free
                    == b.next_free)
            }
    }

    /// What does not depend on links within free lists carries over.
    #[verifier::rlimit(40)]
    pub(crate) proof fn lemma_same_layout(pre: &Self, post: &Self, floating: Set<usize>)
        requires
            post.same_layout(pre),
            pre.inv_shape(),
            pre.inv_chain(),
            pre.inv_vacant(),
            pre.inv_coalesced(floating),
        ensures
            post.inv_chain(),
            post.inv_vacant(),
            post.inv_coalesced(floating),
            forall|i: usize| post.live(i) == pre.live(i),
            forall|i: usize| post.free_at(i) == pre.free_at(i),
            forall|i: usize| i < post.blocks@.len() ==> post.region_of(i) == pre.region_of(i),
            forall|g: Set<usize>| #[trigger] post.listed_ids(g) == pre.listed_ids(g),
            post.used_ids() == pre.used_ids(),
            post.num_allocation == pre.num_allocation,
            post.pool_base == pre.pool_base,
            post.pool_size == pre.pool_size,
            post.chain@ == pre.chain@,
            post.blocks@.len() == pre.blocks@.len(),
    {
        reveal(SpeedAllocator::inv_chain);
        reveal(SpeedAllocator::inv_vacant);
        reveal(SpeedAllocator::inv_coalesced);
        reveal(SpeedAllocator::same_layout);
        assert forall|i: usize| post.live(i) == pre.live(i) by {
            if i < post.blocks@.len() {
                let b = post.blocks@[i as int];
            }
        }
        assert forall|i: usize| post.free_at(i) == pre.free_at(i) by {
            if i < post.blocks@.len() {
                let b = post.blocks@[i as int];
            }
        }
        assert forall|i: usize| i < post.blocks@.len() implies post.region_of(i) == pre.region_of(
            i,
        ) by {
            let b = post.blocks@[i as int];
        }
        assert forall|k: int| 0 <= k < post.chain@.len() implies post.block_ok(
            #[trigger] post.chain@[k],
        ) by {
            assert(pre.block_ok(pre.chain@[k]));
            let b = post.blocks@[post.chain@[k] as int];
        }
        assert forall|i: usize| #[trigger] post.live(i) implies post.chain@.contains(i) by {
            assert(pre.live(i));
        }
        assert forall|k: int, k2: int|
            0 <= k && k2 == k + 1 && k2 < post.chain@.len() implies post.linked(
            #[trigger] post.chain@[k],
            #[trigger] post.chain@[k2],
        ) by {
            assert(pre.linked(pre.chain@[k], pre.chain@[k2]));
            assert(pre.block_ok(pre.chain@[k]));
            assert(pre.block_ok(pre.chain@[k2]));
            let a = post.blocks@[post.chain@[k] as int];
            let b = post.blocks@[post.chain@[k2] as int];
        }
        assert(pre.block_ok(pre.chain@[0]));
        assert(pre.block_ok(pre.chain@.last()));
        let first = post.blocks@[post.chain@[0] as int];
        let last = post.blocks@[post.chain@.last() as int];
        assert(post.inv_chain());
        assert forall|j: int| 0 <= j < post.vacant@.len() implies (#[trigger] post.vacant@[j])
            < post.blocks@.len() && post.blocks@[post.vacant@[j] as int].state
            == BlockState::Vacant by {
            assert(pre.vacant@[j] < pre.blocks@.len());
            let b = post.blocks@[post.vacant@[j] as int];
        }
        assert forall|g: Set<usize>| #[trigger] post.listed_ids(g) == pre.listed_ids(g) by {
            assert(post.listed_ids(g) =~= pre.listed_ids(g));
        }
        assert(post.used_ids() =~= pre.used_ids()) by {
            assert forall|i: usize| post.used_ids().contains(i) == pre.used_ids().contains(i) by {
                if i < post.blocks@.len() {
                    let b = post.blocks@[i as int];
                }
            }
        }
    }

    /// A block in the chain has a record that is in order, and a size that
    /// the mapper files in the table.
    pub(crate) proof fn lemma_live_block(&self, h: usize)
        requires
            self.inv_shape(),
            self.inv_chain(),
            self.live(h),
        ensures
            self.block_ok(h),
            self.chain@.contains(h),
            MIN_ALLOC_SIZE <= self.blocks@[h as int].size <= MAX_POOL_SIZE,
            0 <= class_index(self.blocks@[h as int].size) < CLASS_COUNT,
    {
        reveal(SpeedAllocator::inv_chain);
        assert(self.chain@.contains(h));
        let k = choose|k: int| 0 <= k < self.chain@.len() && self.chain@[k] == h;
        assert(self.block_ok(self.chain@[k]));
        lemma_binmap_down_range(self.blocks@[h as int].size);
    }

    /// No floating block is in a free list.
    pub(crate) proof fn lemma_floating_unlisted(&self, floating: Set<usize>, block: usize)
        requires
            self.inv_lists(floating),
            floating.contains(block),
        ensures
            forall|d: int, j: int|
                0 <= d < CLASS_COUNT && 0 <= j < self.lists@[d].len() ==> #[trigger] self.lists@[d][j]
                    != block,
    {
        reveal(SpeedAllocator::inv_lists);
        assert forall|d: int, j: int|
            0 <= d < CLASS_COUNT && 0 <= j < self.lists@[d].len() implies #[trigger] self.lists@[d][j]
            != block by {
            assert(self.listed_ok(d, self.lists@[d][j], floating));
        }
    }

    /// A clear sub-bin bit means an empty free list.
    pub(crate) proof fn lemma_clear_bit(&self, i: int, j: int)
        requires
            self.inv_bitmaps(),
            0 <= i < BIN_COUNT,
            0 <= j < 32,
        ensures
            bit32(self.sub_bin_bitmap@[i], j) <==> self.lists@[i * 32 + j].len() > 0,
            self.sub_bin_bitmap@[i] == 0 ==> self.lists@[i * 32 + j].len() == 0,
            !bit64(self.bin_bitmap, i) ==> self.lists@[i * 32 + j].len() == 0,
    {
        reveal(SpeedAllocator::inv_bitmaps);
        lemma_zero32(self.sub_bin_bitmap@[i]);
        assert(bit64(self.bin_bitmap, i) <==> self.sub_bin_bitmap@[i] != 0);
    }

    /// Where a listed block stands in its list, and what its links are.
    pub(crate) proof fn lemma_listed(&self, block: usize, floating: Set<usize>) -> (j: int)
        requires
            self.inv_shape(),
            self.inv_chain(),
            self.inv_lists(floating),
            self.free_at(block),
            !floating.contains(block),
        ensures
            ({
                let c = class_index(self.blocks@[block as int].size);
                let list = self.lists@[c];
                &&& 0 <= c < CLASS_COUNT
                &&& 0 <= j < list.len()
                &&& list[j] == block
                &&& j == list.index_of(block)
                &&& self.blocks@[block as int].prev_free == (if j == 0 {
                    None
                } else {
                    Some(list[j - 1])
                })
                &&& self.blocks@[block as int].next_free == (if j == list.len() - 1 {
                    None
                } else {
                    Some(list[j + 1])
                })
                &&& (self.bins@[c] == Some(block)) == (j == 0)
                &&& j > 0 ==> list[j - 1] < self.blocks@.len() && list[j - 1] != block
                &&& j < list.len() - 1 ==> list[j + 1] < self.blocks@.len() && list[j + 1] != block
                &&& j > 0 && j < list.len() - 1 ==> list[j - 1] != list[j + 1]
            }),
    {
        reveal(SpeedAllocator::inv_lists);
        self.lemma_live_block(block);
        let c = class_index(self.blocks@[block as int].size);
        let list = self.lists@[c];
        assert(list.contains(block));
        let j = list.index_of(block);
        assert(self.head_ok(c));
        if j > 0 {
            assert(self.free_linked(list[j - 1], list[j]));
            assert(self.listed_ok(c, list[j - 1], floating));
            assert(list[0] != list[j]);
        }
        if j < list.len() - 1 {
            assert(self.free_linked(list[j], list[j + 1]));
            assert(self.listed_ok(c, list[j + 1], floating));
        }
        if j > 0 && j < list.len() - 1 {
            assert(list[j - 1] != list[j + 1]);
        }
        j
    }

    /// Where a block stands in the chain, and what its neighbours are.
    pub(crate) proof fn lemma_neighbours(&self, h: usize) -> (k: int)
        requires
            self.inv_shape(),
            self.inv_chain(),
            self.live(h),
        ensures
            ({
                let chain = self.chain@;
                let b = self.blocks@[h as int];
                &&& 0 <= k < chain.len()
                &&& chain[k] == h
                &&& k == chain.index_of(h)
                &&& self.block_ok(h)
                &&& b.prev_physical == (if k == 0 {
                    None
                } else {
                    Some(chain[k - 1])
                })
                &&& b.next_physical == (if k == chain.len() - 1 {
                    None
                } else {
                    Some(chain[k + 1])
                })
                &&& k == 0 ==> b.start() == 0
                &&& k == chain.len() - 1 ==> b.end() == self.pool_size
                &&& k > 0 ==> self.block_ok(chain[k - 1]) && chain[k - 1] != h && self.linked(
                    chain[k - 1],
                    h,
                )
                &&& k < chain.len() - 1 ==> self.block_ok(chain[k + 1]) && chain[k + 1] != h
                    && self.linked(h, chain[k + 1])
                &&& 0 < k < chain.len() - 1 ==> chain[k - 1] != chain[k + 1]
            }),
    {
        reveal(SpeedAllocator::inv_chain);
        reveal(SpeedAllocator::used_whole);
        reveal(SpeedAllocator::split_off);
        let chain = self.chain@;
        assert(chain.contains(h));
        let k = chain.index_of(h);
        assert(self.block_ok(chain[k]));
        if k > 0 {
            assert(self.linked(chain[k - 1], chain[k]));
            assert(self.block_ok(chain[k - 1]));
            assert(chain[k - 1] != chain[k]);
        }
        if k < chain.len() - 1 {
            assert(self.linked(chain[k], chain[k + 1]));
            assert(self.block_ok(chain[k + 1]));
            assert(chain[k] != chain[k + 1]);
        }
        if 0 < k < chain.len() - 1 {
            assert(chain[k - 1] != chain[k + 1]);
        }
        k
    }

    /// The counter of allocations has no part in the state between steps.
    #[verifier::rlimit(40)]
    pub(crate) proof fn lemma_count_frame(pre: &Self, post: &Self, floating: Set<usize>)
        requires
            pre.inv(floating),
            post.pool_base == pre.pool_base,
            post.pool_size == pre.pool_size,
            post.blocks@ == pre.blocks@,
            post.vacant@ == pre.vacant@,
            post.bins@ == pre.bins@,
            post.bin_bitmap == pre.bin_bitmap,
            post.sub_bin_bitmap@ == pre.sub_bin_bitmap@,
            post.num_free_block == pre.num_free_block,
            post.chain@ == pre.chain@,
            post.lists@ == pre.lists@,
        ensures
            post.inv(floating),
            post.used_ids() == pre.used_ids(),
            post.model() == pre.model(),
    {
        reveal(SpeedAllocator::inv_chain);
        reveal(SpeedAllocator::inv_vacant);
        reveal(SpeedAllocator::inv_lists);
        reveal(SpeedAllocator::inv_bitmaps);
        reveal(SpeedAllocator::inv_coalesced);
        assert forall|k: int| 0 <= k < post.chain@.len() implies post.block_ok(
            #[trigger] post.chain@[k],
        ) by {
            assert(pre.block_ok(pre.chain@[k]));
        }
        assert forall|i: usize| #[trigger] post.live(i) implies post.chain@.contains(i) by {
            assert(pre.live(i));
        }
        assert forall|k: int, k2: int|
            0 <= k && k2 == k + 1 && k2 < post.chain@.len() implies post.linked(
            #[trigger] post.chain@[k],
            #[trigger] post.chain@[k2],
        ) by {
            assert(pre.linked(pre.chain@[k], pre.chain@[k2]));
        }
        assert(post.inv_chain());
        assert(post.inv_vacant());
        assert forall|d: int, j: int|
            0 <= d < CLASS_COUNT && 0 <= j < post.lists@[d].len() implies post.listed_ok(
            d,
            #[trigger] post.lists@[d][j],
            floating,
        ) by {
            assert(pre.listed_ok(d, pre.lists@[d][j], floating));
        }
        assert forall|d: int| 0 <= d < CLASS_COUNT implies #[trigger] post.head_ok(d) by {
            assert(pre.head_ok(d));
        }
        assert forall|d: int, j: int, j2: int|
            0 <= d < CLASS_COUNT && 0 <= j && j2 == j + 1 && j2 < post.lists@[d].len()
            implies post.free_linked(#[trigger] post.lists@[d][j], #[trigger] post.lists@[d][j2]) by {
            assert(pre.free_linked(pre.lists@[d][j], pre.lists@[d][j2]));
        }
        assert forall|i: usize| #[trigger] post.free_at(i) && !floating.contains(i) implies post.lists@[class_index(
            post.blocks@[i as int].size,
        )].contains(i) by {
            assert(pre.free_at(i));
        }
        assert forall|i: usize| floating.contains(i) implies #[trigger] post.free_at(i) by {
            assert(pre.free_at(i));
        }
        assert(post.inv_lists(floating));
        assert(post.inv_bitmaps());
        assert forall|k: int, k2: int|
            0 <= k && k2 == k + 1 && k2 < post.chain@.len() implies !(post.free_at(
            #[trigger] post.chain@[k],
        ) && post.free_at(#[trigger] post.chain@[k2]) && !floating.contains(post.chain@[k])
            && !floating.contains(post.chain@[k2])) by {
            assert(!(pre.free_at(pre.chain@[k]) && pre.free_at(pre.chain@[k2])
                && !floating.contains(pre.chain@[k]) && !floating.contains(pre.chain@[k2])));
        }
        assert(post.listed_ids(floating) =~= pre.listed_ids(floating));
        assert(post.used_ids() =~= pre.used_ids());
        assert(post.model().chain =~= pre.model().chain);
    }

    /// Where a block of the chain stands in the model.
    pub(crate) proof fn lemma_locate(&self, h: usize) -> (k: int)
        requires
            self.inv_shape(),
            self.inv_chain(),
            self.live(h),
        ensures
            0 <= k < self.chain@.len(),
            self.chain@[k] == h,
            k == self.chain@.index_of(h),
            self.model().chain.len() == self.chain@.len(),
            self.model().distinct(),
            self.model().has(h),
            self.model().position(h) == k,
            self.model().chain[k] == self.region_of(h),
            self.model().region(h) == self.region_of(h),
            self.block_ok(h),
    {
        reveal(SpeedAllocator::inv_chain);
        let k = self.lemma_neighbours(h);
        let m = self.model();
        assert forall|k1: int, k2: int| 0 <= k1 < k2 < m.chain.len() implies (#[trigger] m.chain[k1]).handle
            != (#[trigger] m.chain[k2]).handle by {
            assert(self.chain@[k1] != self.chain@[k2]);
        }
        m.lemma_position(h, k);
        k
    }

    /// States with the same layout have the same chain in the model.
    pub(crate) proof fn lemma_layout_view(pre: &Self, post: &Self)
        requires
            post.same_layout(pre),
            pre.inv_shape(),
            pre.inv_chain(),
        ensures
            post.model().chain == pre.model().chain,
            post.model().pool_base == pre.model().pool_base,
            post.model().pool_size == pre.model().pool_size,
            post.model().lists == post.lists@,
            post.chain@ == pre.chain@,
            post.blocks@.len() == pre.blocks@.len(),
            forall|i: usize| i < post.blocks@.len() ==> post.region_of(i) == pre.region_of(i),
    {
        reveal(SpeedAllocator::inv_chain);
        reveal(SpeedAllocator::same_layout);
        assert forall|i: usize| i < post.blocks@.len() implies post.region_of(i) == pre.region_of(
            i,
        ) by {
            let b = post.blocks@[i as int];
        }
        assert forall|k: int| 0 <= k < pre.chain@.len() implies post.model().chain[k] == pre.model().chain[k] by {
            assert(pre.block_ok(pre.chain@[k]));
        }
        assert(post.model().chain =~= pre.model().chain);
    }

    /// The head of a free list that is not empty.
    pub(crate) proof fn lemma_head(&self, c: int, floating: Set<usize>)
        requires
            self.inv(floating),
            0 <= c < CLASS_COUNT,
            self.lists@[c].len() > 0,
        ensures
            self.bins@.len() == CLASS_COUNT,
            self.bins@[c] == Some(self.lists@[c][0]),
            self.lists@[c].index_of(self.lists@[c][0]) == 0,
            self.free_at(self.lists@[c][0]),
            self.live(self.lists@[c][0]),
            !floating.contains(self.lists@[c][0]),
            class_index(self.blocks@[self.lists@[c][0] as int].size) == c,
    {
        reveal(SpeedAllocator::inv_lists);
        assert(self.head_ok(c));
        let h = self.lists@[c][0];
        assert(self.listed_ok(c, h, floating));
        let j = self.lemma_listed(h, floating);
        if j > 0 {
            assert(self.lists@[c][0] != self.lists@[c][j]);
        }
    }

    /// A listed free block has no free neighbour in the chain, floating
    /// ones aside, and links within free lists have no part in that.
    pub(crate) proof fn lemma_listed_is_lonely(pre: &Self, post: &Self, block: usize, floating: Set<usize>)
        requires
            pre.inv(floating),
            pre.free_at(block),
            !floating.contains(block),
            post.same_layout(pre),
        ensures
            post.lonely(block, floating),
    {
        reveal(SpeedAllocator::inv_coalesced);
        reveal(SpeedAllocator::lonely);
        reveal(SpeedAllocator::same_layout);
        assert forall|i: usize| post.free_at(i) == pre.free_at(i) by {
            if i < post.blocks@.len() {
                let b = post.blocks@[i as int];
            }
        }
        assert forall|x: int, x2: int| 0 <= x && x2 == x + 1 && x2 < post.chain@.len() implies {
            &&& (#[trigger] post.chain@[x]) == block ==> !(post.free_at(#[trigger] post.chain@[x2])
                && !floating.contains(post.chain@[x2]))
            &&& post.chain@[x2] == block ==> !(post.free_at(post.chain@[x])
                && !floating.contains(post.chain@[x]))
        } by {
            assert(!(pre.free_at(pre.chain@[x]) && pre.free_at(pre.chain@[x2])
                && !floating.contains(pre.chain@[x]) && !floating.contains(pre.chain@[x2])));
        }
    }

    /// Block `h` has no free block before it in the chain, floating ones aside.
    #[verifier::opaque]
    pub(crate) open spec fn lonely_before(&self, h: usize, floating: Set<usize>) -> bool {
        forall|k: int, k2: int|
            0 <= k && k2 == k + 1 && k2 < self.chain@.len() && #[trigger] self.chain@[k2] == h ==> !(
            self.free_at(#[trigger] self.chain@[k]) && !floating.contains(self.chain@[k]))
    }

    /// Block `h` has no free block after it in the chain, floating ones aside.
    #[verifier::opaque]
    pub(crate) open spec fn lonely_after(&self, h: usize, floating: Set<usize>) -> bool {
        forall|k: int, k2: int|
            0 <= k && k2 == k + 1 && k2 < self.chain@.len() && #[trigger] self.chain@[k] == h ==> !(
            self.free_at(#[trigger] self.chain@[k2]) && !floating.contains(self.chain@[k2]))
    }

    /// A block has no free neighbour exactly when it has none before it and
    /// none after it.
    pub(crate) proof fn lemma_lonely(&self, h: usize, floating: Set<usize>)
        ensures
            self.lonely(h, floating) <==> self.lonely_before(h, floating) && self.lonely_after(
                h,
                floating,
            ),
    {
        reveal(SpeedAllocator::lonely);
        reveal(SpeedAllocator::lonely_before);
        reveal(SpeedAllocator::lonely_after);
    }

    /// A block with no free block before it.
    pub(crate) proof fn lemma_lonely_before(&self, block: usize, floating: Set<usize>)
        requires
            self.inv_shape(),
            self.inv_chain(),
            self.live(block),
            match self.blocks@[block as int].prev_physical {
                Some(prev) => !self.free_at(prev),
                None => true,
            },
        ensures
            self.lonely_before(block, floating),
    {
        reveal(SpeedAllocator::inv_chain);
        reveal(SpeedAllocator::lonely_before);
        assert forall|x: int, x2: int|
            0 <= x && x2 == x + 1 && x2 < self.chain@.len() && #[trigger] self.chain@[x2]
                == block implies !(self.free_at(#[trigger] self.chain@[x]) && !floating.contains(
            self.chain@[x],
        )) by {
            assert(self.linked(self.chain@[x], self.chain@[x2]));
        }
    }

    /// A block with no free block after it.
    pub(crate) proof fn lemma_lonely_after(&self, block: usize, floating: Set<usize>)
        requires
            self.inv_shape(),
            self.inv_chain(),
            self.live(block),
            match self.blocks@[block as int].next_physical {
                Some(next) => !self.free_at(next),
                None => true,
            },
        ensures
            self.lonely_after(block, floating),
    {
        reveal(SpeedAllocator::inv_chain);
        reveal(SpeedAllocator::lonely_after);
        assert forall|x: int, x2: int|
            0 <= x && x2 == x + 1 && x2 < self.chain@.len() && #[trigger] self.chain@[x]
                == block implies !(self.free_at(#[trigger] self.chain@[x2]) && !floating.contains(
            self.chain@[x2],
        )) by {
            assert(self.linked(self.chain@[x], self.chain@[x2]));
        }
    }

    /// The model of the block that precedes and of the one that follows.
    pub(crate) proof fn lemma_locate_around(&self, h: usize) -> (k: int)
        requires
            self.inv_shape(),
            self.inv_chain(),
            self.live(h),
        ensures
            0 <= k < self.chain@.len(),
            k == self.model().position(h),
            k == self.chain@.index_of(h),
            self.chain@[k] == h,
            self.model().chain.len() == self.chain@.len(),
            self.model().chain[k] == self.region_of(h),
            self.model().region(h) == self.region_of(h),
            self.block_ok(h),
            h < self.blocks@.len(),
            match self.blocks@[h as int].prev_physical {
                Some(prev) => {
                    &&& k > 0
                    &&& self.chain@[k - 1] == prev
                    &&& prev != h
                    &&& self.block_ok(prev)
                    &&& self.linked(prev, h)
                    &&& self.model().chain[k - 1] == self.region_of(prev)
                    &&& self.model().merges_back(h) == self.free_at(prev)
                },
                None => k == 0 && !self.model().merges_back(h),
            },
            match self.blocks@[h as int].next_physical {
                Some(next) => {
                    &&& k < self.chain@.len() - 1
                    &&& self.chain@[k + 1] == next
                    &&& next != h
                    &&& self.block_ok(next)
                    &&& self.linked(h, next)
                    &&& self.model().chain[k + 1] == self.region_of(next)
                    &&& self.model().merges_forward(h) == self.free_at(next)
                },
                None => k == self.chain@.len() - 1 && !self.model().merges_forward(h),
            },
    {
        let k = self.lemma_locate(h);
        self.lemma_neighbours(h);
        k
    }

    /// Links within free lists have no part in whether a block has free
    /// neighbours.
    pub(crate) proof fn lemma_lonely_frame(pre: &Self, post: &Self, block: usize, floating: Set<usize>)
        requires
            post.same_layout(pre),
        ensures
            pre.lonely_before(block, floating) ==> post.lonely_before(block, floating),
            pre.lonely_after(block, floating) ==> post.lonely_after(block, floating),
    {
        reveal(SpeedAllocator::same_layout);
        reveal(SpeedAllocator::lonely_before);
        reveal(SpeedAllocator::lonely_after);
        assert forall|i: usize| post.free_at(i) == pre.free_at(i) by {
            if i < post.blocks@.len() {
                let b = post.blocks@[i as int];
            }
        }
    }
}

} // verus!
