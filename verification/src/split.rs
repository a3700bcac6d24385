//! Making a free block used: aligning its region and cutting off the rest.

use vstd::prelude::*;
use crate::allocator::AllocError;
use crate::allocator::SpeedAllocator;
use crate::bits::align_forward;
use crate::bits::align_up;
use crate::bits::is_power_of_two;
use crate::bits::lemma_power_of_two_range;
use crate::block::BlockHeader;
use crate::block::BlockState;
use crate::mapping::CLASS_COUNT;
use crate::mapping::class_index;
use crate::mapping::MIN_ALLOC_SIZE;
use crate::model::Region;

verus! {

impl SpeedAllocator {
    /// `post` is `pre` with the floating free block `block` made used as it
    /// stands: its region begins at `aligned` and is `size` bytes long, and
    /// what is left behind the region is its slack.
    #[verifier::opaque]
    pub(crate) open spec fn used_whole(pre: &Self, post: &Self, block: usize, size: u64, aligned: int) -> bool {
        let b = pre.blocks@[block as int];
        let a = post.blocks@[block as int];
        &&& post.pool_base == pre.pool_base
        &&& post.pool_size == pre.pool_size
        &&& post.vacant@ == pre.vacant@
        &&& post.bins@ == pre.bins@
        &&& post.bin_bitmap == pre.bin_bitmap
        &&& post.sub_bin_bitmap@ == pre.sub_bin_bitmap@
        &&& post.num_allocation == pre.num_allocation
        &&& post.num_free_block == pre.num_free_block
        &&& post.chain@ == pre.chain@
        &&& post.lists@ == pre.lists@
        &&& post.blocks@.len() == pre.blocks@.len()
        &&& forall|i: int|
            0 <= i < pre.blocks@.len() && i != block ==> #[trigger] post.blocks@[i] == pre.blocks@[i]
        &&& a.offset == aligned
        &&& a.size == size
        &&& a.adjustment == aligned - b.offset
        &&& a.slack == b.size - size - (aligned - b.offset)
        &&& a.state == BlockState::Used
        &&& a.prev_free.is_none()
        &&& a.next_free.is_none()
        &&& a.prev_physical == b.prev_physical
        &&& a.next_physical == b.next_physical
    }

    /// `post` is `pre` with the floating free block `block`, at place `k` of
    /// the chain, made used and cut: its region begins at `aligned` and is
    /// `size` bytes long, and what is left behind the region is the new
    /// floating free block `tail`.
    #[verifier::opaque]
    pub(crate) open spec fn split_off(
        pre: &Self,
        post: &Self,
        block: usize,
        tail: usize,
        k: int,
        size: u64,
        aligned: int,
    ) -> bool {
        let b = pre.blocks@[block as int];
        let a = post.blocks@[block as int];
        let t = post.blocks@[tail as int];
        &&& post.pool_base == pre.pool_base
        &&& post.pool_size == pre.pool_size
        &&& post.bins@ == pre.bins@
        &&& post.bin_bitmap == pre.bin_bitmap
        &&& post.sub_bin_bitmap@ == pre.sub_bin_bitmap@
        &&& post.num_allocation == pre.num_allocation
        &&& post.num_free_block == pre.num_free_block
        &&& post.lists@ == pre.lists@
        &&& 0 <= k < pre.chain@.len()
        &&& pre.chain@[k] == block
        &&& post.chain@ == pre.chain@.insert(k + 1, tail)
        &&& !pre.live(tail)
        &&& tail != block
        &&& tail < post.blocks@.len()
        &&& pre.blocks@.len() <= post.blocks@.len()
        &&& forall|i: usize|
            i < pre.blocks@.len() && i != block && i != tail ==> {
                let x = #[trigger] post.blocks@[i as int];
                let y = pre.blocks@[i as int];
                &&& x.size == y.size
                &&& x.offset == y.offset
                &&& x.adjustment == y.adjustment
                &&& x.slack == y.slack
                &&& x.state == y.state
                &&& x.next_physical == y.next_physical
                &&& x.prev_free == y.prev_free
                &&& x.next_free == y.next_free
                &&& x.prev_physical == (if b.next_physical == Some(i) {
                    Some(tail)
                } else {
                    y.prev_physical
                })
            }
        &&& post.blocks@.len() <= pre.blocks@.len() + 1
        &&& post.blocks@.len() > pre.blocks@.len() ==> tail == pre.blocks@.len()
        &&& forall|j: int|
            0 <= j < post.vacant@.len() ==> (#[trigger] post.vacant@[j]) != tail && exists|j0: int|
                0 <= j0 < pre.vacant@.len() && pre.vacant@[j0] == post.vacant@[j]
        &&& forall|j1: int, j2: int|
            0 <= j1 < j2 < post.vacant@.len() ==> #[trigger] post.vacant@[j1]
                != #[trigger] post.vacant@[j2]
        &&& a.offset == aligned
        &&& a.size == size
        &&& a.adjustment == aligned - b.offset
        &&& a.slack == 0
        &&& a.state == BlockState::Used
        &&& a.prev_free.is_none()
        &&& a.next_free.is_none()
        &&& a.prev_physical == b.prev_physical
        &&& a.next_physical == Some(tail)
        &&& t.offset == aligned + size
        &&& t.size == b.offset + b.size - aligned - size
        &&& t.adjustment == 0
        &&& t.slack == 0
        &&& t.state == BlockState::Free
        &&& t.prev_free.is_none()
        &&& t.next_free.is_none()
        &&& t.prev_physical == Some(block)
        &&& t.next_physical == b.next_physical
    }

    /// All is in order after a floating free block has become used as it
    /// stands.
    #[verifier::rlimit(40)]
    pub(crate) proof fn lemma_used_whole(
        pre: &Self,
        post: &Self,
        block: usize,
        size: u64,
        aligned: int,
        floating: Set<usize>,
    )
        requires
            pre.inv(floating),
            floating.contains(block),
            Self::used_whole(pre, post, block, size, aligned),
            size >= MIN_ALLOC_SIZE,
            pre.blocks@[block as int].offset <= aligned,
            size + (aligned - pre.blocks@[block as int].offset) <= pre.blocks@[block as int].size,
        ensures
            post.inv(floating.remove(block)),
            post.used_ids() == pre.used_ids().insert(block),
            !pre.used_ids().contains(block),
    {
        reveal(SpeedAllocator::inv_chain);
        reveal(SpeedAllocator::inv_vacant);
        reveal(SpeedAllocator::inv_lists);
        reveal(SpeedAllocator::inv_bitmaps);
        reveal(SpeedAllocator::inv_coalesced);
        reveal(SpeedAllocator::used_whole);
        let f2 = floating.remove(block);
        assert(pre.free_at(block));
        pre.lemma_neighbours(block);
        pre.lemma_floating_unlisted(floating, block);
        assert forall|x: int| 0 <= x < post.chain@.len() implies post.block_ok(
            #[trigger] post.chain@[x],
        ) by {
            assert(pre.block_ok(pre.chain@[x]));
        }
        assert forall|i: usize| #[trigger] post.live(i) implies post.chain@.contains(i) by {
            assert(pre.live(i));
        }
        assert forall|x: int, x2: int|
            0 <= x && x2 == x + 1 && x2 < post.chain@.len() implies post.linked(
            #[trigger] post.chain@[x],
            #[trigger] post.chain@[x2],
        ) by {
            assert(pre.linked(pre.chain@[x], pre.chain@[x2]));
            assert(pre.block_ok(pre.chain@[x]));
            assert(pre.block_ok(pre.chain@[x2]));
        }
        assert(pre.block_ok(pre.chain@[0]));
        assert(pre.block_ok(pre.chain@.last()));
        assert(post.inv_chain());
        assert(post.inv_vacant()) by {
            assert forall|j: int| 0 <= j < post.vacant@.len() implies (#[trigger] post.vacant@[j])
                < post.blocks@.len() && post.blocks@[post.vacant@[j] as int].state
                == BlockState::Vacant by {
                assert(pre.vacant@[j] < pre.blocks@.len());
            }
        }
        assert forall|d: int, j: int|
            0 <= d < CLASS_COUNT && 0 <= j < post.lists@[d].len() implies post.listed_ok(
            d,
            #[trigger] post.lists@[d][j],
            f2,
        ) by {
            assert(pre.listed_ok(d, pre.lists@[d][j], floating));
        }
        assert forall|d: int| 0 <= d < CLASS_COUNT implies #[trigger] post.head_ok(d) by {
            assert(pre.head_ok(d));
            let list = pre.lists@[d];
            if list.len() > 0 {
                assert(pre.listed_ok(d, list[0], floating));
                assert(pre.listed_ok(d, list[list.len() - 1], floating));
            }
        }
        assert forall|d: int, j: int, j2: int|
            0 <= d < CLASS_COUNT && 0 <= j && j2 == j + 1 && j2 < post.lists@[d].len()
            implies post.free_linked(#[trigger] post.lists@[d][j], #[trigger] post.lists@[d][j2]) by {
            assert(pre.free_linked(pre.lists@[d][j], pre.lists@[d][j2]));
            assert(pre.listed_ok(d, pre.lists@[d][j], floating));
            assert(pre.listed_ok(d, pre.lists@[d][j2], floating));
        }
        assert forall|i: usize| #[trigger] post.free_at(i) && !f2.contains(i) implies post.lists@[class_index(
            post.blocks@[i as int].size,
        )].contains(i) by {
            assert(pre.free_at(i));
        }
        assert forall|i: usize| f2.contains(i) implies #[trigger] post.free_at(i) by {
            assert(pre.free_at(i));
        }
        assert(post.inv_lists(f2));
        assert(post.inv_bitmaps());
        assert forall|x: int, x2: int|
            0 <= x && x2 == x + 1 && x2 < post.chain@.len() implies !(post.free_at(
            #[trigger] post.chain@[x],
        ) && post.free_at(#[trigger] post.chain@[x2]) && !f2.contains(post.chain@[x])
            && !f2.contains(post.chain@[x2])) by {
            assert(pre.chain@[x] == post.chain@[x] && pre.chain@[x2] == post.chain@[x2]);
            assert(pre.block_ok(pre.chain@[x]));
            assert(pre.block_ok(pre.chain@[x2]));
        }
        assert(post.listed_ids(f2) =~= pre.listed_ids(floating));
        assert(post.used_ids() =~= pre.used_ids().insert(block));
    }

    /// The chain is in order after a block has been cut.
    #[verifier::rlimit(40)]
    pub(crate) proof fn lemma_split_chain(
        pre: &Self,
        post: &Self,
        block: usize,
        tail: usize,
        k: int,
        size: u64,
        aligned: int,
        floating: Set<usize>,
    )
        requires
            pre.inv(floating),
            floating.contains(block),
            pre.lonely(block, floating.remove(block)),
            Self::split_off(pre, post, block, tail, k, size, aligned),
            size >= MIN_ALLOC_SIZE,
            pre.blocks@[block as int].offset <= aligned,
            size + (aligned - pre.blocks@[block as int].offset) + MIN_ALLOC_SIZE
                <= pre.blocks@[block as int].size,
        ensures
            post.inv_chain(),
            post.inv_vacant(),
    {
        reveal(SpeedAllocator::inv_chain);
        reveal(SpeedAllocator::inv_vacant);
        reveal(SpeedAllocator::inv_lists);
        reveal(SpeedAllocator::split_off);
        let f2 = floating.remove(block).insert(tail);
        let old_chain = pre.chain@;
        let chain = post.chain@;
        let n = old_chain.len() as int;
        let b = pre.blocks@[block as int];
        assert(pre.free_at(block));
        let kk = pre.lemma_neighbours(block);
        assert(kk == k) by {
            if kk < k {
                assert(old_chain[kk] != old_chain[k]);
            }
            if k < kk {
                assert(old_chain[k] != old_chain[kk]);
            }
        }
        pre.lemma_floating_unlisted(floating, block);
        if floating.contains(tail) {
            assert(pre.free_at(tail));
        }
        assert forall|x: int| 0 <= x < n implies (#[trigger] old_chain[x]) != tail && pre.block_ok(
            old_chain[x],
        ) by {
            assert(pre.block_ok(old_chain[x]));
        }
        assert forall|x: int| 0 <= x < chain.len() implies #[trigger] chain[x] == (if x <= k {
            old_chain[x]
        } else if x == k + 1 {
            tail
        } else {
            old_chain[x - 1]
        }) by {}
        assert forall|x: int| 0 <= x < chain.len() implies post.block_ok(#[trigger] chain[x]) by {
            if x <= k {
                assert(pre.block_ok(old_chain[x]));
                let r = post.blocks@[old_chain[x] as int];
            } else if x > k + 1 {
                assert(pre.block_ok(old_chain[x - 1]));
                let r = post.blocks@[old_chain[x - 1] as int];
            }
        }
        assert forall|x1: int, x2: int| 0 <= x1 < x2 < chain.len() implies #[trigger] chain[x1]
            != #[trigger] chain[x2] by {
            let y1 = if x1 <= k {
                x1
            } else {
                x1 - 1
            };
            let y2 = if x2 <= k {
                x2
            } else {
                x2 - 1
            };
            if x1 != k + 1 && x2 != k + 1 {
                assert(old_chain[y1] != old_chain[y2]);
            } else if x1 == k + 1 {
                assert(old_chain[y2] != tail);
            } else {
                assert(old_chain[y1] != tail);
            }
        }
        assert forall|i: usize| #[trigger] post.live(i) implies chain.contains(i) by {
            if i == tail {
                assert(chain[k + 1] == tail);
            } else {
                let r = post.blocks@[i as int];
                assert(pre.live(i));
                assert(old_chain.contains(i));
                let y = choose|y: int| 0 <= y < n && old_chain[y] == i;
                if y <= k {
                    assert(chain[y] == i);
                } else {
                    assert(chain[y + 1] == i);
                }
            }
        }
        assert forall|x: int, x2: int| 0 <= x && x2 == x + 1 && x2 < chain.len() implies post.linked(
            #[trigger] chain[x],
            #[trigger] chain[x2],
        ) by {
            if x2 <= k {
                assert(pre.linked(old_chain[x], old_chain[x2]));
                assert(old_chain[x] != old_chain[k]);
                let r = post.blocks@[old_chain[x] as int];
                let r2 = post.blocks@[old_chain[x2] as int];
                if k + 1 < n {
                    assert(old_chain[x] != old_chain[k + 1]);
                    if x2 < k {
                        assert(old_chain[x2] != old_chain[k + 1]);
                    }
                }
                if x2 < k {
                    assert(old_chain[x2] != old_chain[k]);
                }
            } else if x == k {
            } else if x == k + 1 {
                assert(chain[x2] == old_chain[k + 1]);
                assert(pre.linked(old_chain[k], old_chain[k + 1]));
                let r2 = post.blocks@[old_chain[k + 1] as int];
            } else {
                assert(pre.linked(old_chain[x - 1], old_chain[x2 - 1]));
                assert(old_chain[k] != old_chain[x - 1]);
                assert(old_chain[k] != old_chain[x2 - 1]);
                assert(old_chain[k + 1] != old_chain[x2 - 1]);
                let r = post.blocks@[old_chain[x - 1] as int];
                let r2 = post.blocks@[old_chain[x2 - 1] as int];
            }
        }
        assert(post.blocks@[chain[0] as int].prev_physical.is_none() && post.blocks@[chain[0] as int].start()
            == 0) by {
            assert(chain[0] == old_chain[0]);
            let r = post.blocks@[old_chain[0] as int];
            if k > 0 {
                assert(old_chain[0] != old_chain[k]);
                if k + 1 < n {
                    assert(old_chain[0] != old_chain[k + 1]);
                }
            }
        }
        assert(post.blocks@[chain.last() as int].next_physical.is_none()
            && post.blocks@[chain.last() as int].end() == post.pool_size) by {
            assert(chain.last() == chain[n]);
            if k < n - 1 {
                assert(chain[n] == old_chain[n - 1]);
                assert(old_chain.last() == old_chain[n - 1]);
                assert(old_chain[k] != old_chain[n - 1]);
                let r = post.blocks@[old_chain[n - 1] as int];
            }
        }
        assert(post.inv_chain());
        assert(post.inv_vacant()) by {
            assert forall|j: int| 0 <= j < post.vacant@.len() implies (#[trigger] post.vacant@[j])
                < post.blocks@.len() && post.blocks@[post.vacant@[j] as int].state
                == BlockState::Vacant by {
                let v = post.vacant@[j];
                let j0 = choose|j0: int| 0 <= j0 < pre.vacant@.len() && pre.vacant@[j0] == v;
                assert(pre.vacant@[j0] < pre.blocks@.len());
                let r = post.blocks@[v as int];
            }
        }
    }

    /// The free lists and the bitmaps are in order after a block has been cut.
    #[verifier::rlimit(40)]
    pub(crate) proof fn lemma_split_lists(
        pre: &Self,
        post: &Self,
        block: usize,
        tail: usize,
        k: int,
        size: u64,
        aligned: int,
        floating: Set<usize>,
    )
        requires
            pre.inv(floating),
            floating.contains(block),
            pre.lonely(block, floating.remove(block)),
            Self::split_off(pre, post, block, tail, k, size, aligned),
            size >= MIN_ALLOC_SIZE,
            pre.blocks@[block as int].offset <= aligned,
            size + (aligned - pre.blocks@[block as int].offset) + MIN_ALLOC_SIZE
                <= pre.blocks@[block as int].size,
        ensures
            post.inv_lists(floating.remove(block).insert(tail)),
            post.inv_bitmaps(),
    {
        reveal(SpeedAllocator::inv_lists);
        reveal(SpeedAllocator::inv_bitmaps);
        reveal(SpeedAllocator::split_off);
        let f2 = floating.remove(block).insert(tail);
        assert(pre.free_at(block));
        pre.lemma_floating_unlisted(floating, block);
        if floating.contains(tail) {
            assert(pre.free_at(tail));
        }
        assert forall|d: int, j: int|
            0 <= d < CLASS_COUNT && 0 <= j < post.lists@[d].len() implies post.listed_ok(
            d,
            #[trigger] post.lists@[d][j],
            f2,
        ) && post.blocks@[post.lists@[d][j] as int].prev_free == pre.blocks@[post.lists@[d][j] as int].prev_free
            && post.blocks@[post.lists@[d][j] as int].next_free
            == pre.blocks@[post.lists@[d][j] as int].next_free by {
            assert(pre.listed_ok(d, pre.lists@[d][j], floating));
            let r = post.blocks@[pre.lists@[d][j] as int];
        }
        assert forall|d: int| 0 <= d < CLASS_COUNT implies #[trigger] post.head_ok(d) by {
            assert(pre.head_ok(d));
            let list = pre.lists@[d];
            if list.len() > 0 {
                assert(post.listed_ok(d, post.lists@[d][0], f2));
                assert(post.listed_ok(d, post.lists@[d][list.len() - 1], f2));
            }
        }
        assert forall|d: int, j: int, j2: int|
            0 <= d < CLASS_COUNT && 0 <= j && j2 == j + 1 && j2 < post.lists@[d].len()
            implies post.free_linked(#[trigger] post.lists@[d][j], #[trigger] post.lists@[d][j2]) by {
            assert(pre.free_linked(pre.lists@[d][j], pre.lists@[d][j2]));
            assert(post.listed_ok(d, post.lists@[d][j], f2));
            assert(post.listed_ok(d, post.lists@[d][j2], f2));
        }
        assert forall|i: usize| #[trigger] post.free_at(i) && !f2.contains(i) implies post.lists@[class_index(
            post.blocks@[i as int].size,
        )].contains(i) by {
            let r = post.blocks@[i as int];
            assert(pre.free_at(i));
        }
        assert forall|i: usize| f2.contains(i) implies #[trigger] post.free_at(i) by {
            if i != tail {
                assert(pre.free_at(i));
                let r = post.blocks@[i as int];
            }
        }
        assert(post.inv_lists(f2));
        assert(post.inv_bitmaps());
    }

    /// No two neighbours are both free and listed after a block has been cut,
    /// and the counts stand.
    #[verifier::rlimit(40)]
    pub(crate) proof fn lemma_split_free(
        pre: &Self,
        post: &Self,
        block: usize,
        tail: usize,
        k: int,
        size: u64,
        aligned: int,
        floating: Set<usize>,
    )
        requires
            pre.inv(floating),
            floating.contains(block),
            pre.lonely(block, floating.remove(block)),
            Self::split_off(pre, post, block, tail, k, size, aligned),
            size >= MIN_ALLOC_SIZE,
            pre.blocks@[block as int].offset <= aligned,
            size + (aligned - pre.blocks@[block as int].offset) + MIN_ALLOC_SIZE
                <= pre.blocks@[block as int].size,
        ensures
            post.inv_coalesced(floating.remove(block).insert(tail)),
            post.lonely(tail, floating.remove(block)),
            !floating.contains(tail),
            post.listed_ids(floating.remove(block).insert(tail)) == pre.listed_ids(floating),
            post.used_ids() == pre.used_ids().insert(block),
            !pre.used_ids().contains(block),
    {
        reveal(SpeedAllocator::inv_chain);
        reveal(SpeedAllocator::inv_lists);
        reveal(SpeedAllocator::inv_coalesced);
        reveal(SpeedAllocator::lonely);
        reveal(SpeedAllocator::split_off);
        let f2 = floating.remove(block).insert(tail);
        let old_chain = pre.chain@;
        let chain = post.chain@;
        let n = old_chain.len() as int;
        let b = pre.blocks@[block as int];
        assert(pre.free_at(block));
        let kk = pre.lemma_neighbours(block);
        assert(kk == k) by {
            if kk < k {
                assert(old_chain[kk] != old_chain[k]);
            }
            if k < kk {
                assert(old_chain[k] != old_chain[kk]);
            }
        }
        pre.lemma_floating_unlisted(floating, block);
        if floating.contains(tail) {
            assert(pre.free_at(tail));
        }
        assert forall|x: int| 0 <= x < n implies (#[trigger] old_chain[x]) != tail && pre.block_ok(
            old_chain[x],
        ) by {
            assert(pre.block_ok(old_chain[x]));
        }
        assert forall|x: int| 0 <= x < chain.len() implies #[trigger] chain[x] == (if x <= k {
            old_chain[x]
        } else if x == k + 1 {
            tail
        } else {
            old_chain[x - 1]
        }) by {}
        assert forall|i: usize| i != block && i != tail implies post.free_at(i) == pre.free_at(i) by {
            if i < pre.blocks@.len() {
                let r = post.blocks@[i as int];
            }
        }
        assert forall|x: int, x2: int| 0 <= x && x2 == x + 1 && x2 < chain.len() implies !(
        post.free_at(#[trigger] chain[x]) && post.free_at(#[trigger] chain[x2]) && !f2.contains(
            chain[x],
        ) && !f2.contains(chain[x2])) by {
            if x2 <= k {
                assert(!(pre.free_at(old_chain[x]) && pre.free_at(old_chain[x2])
                    && !floating.contains(old_chain[x]) && !floating.contains(old_chain[x2])));
            } else if x > k + 1 {
                assert(!(pre.free_at(old_chain[x - 1]) && pre.free_at(old_chain[x2 - 1])
                    && !floating.contains(old_chain[x - 1]) && !floating.contains(
                    old_chain[x2 - 1],
                )));
            }
        }
        assert forall|x: int, x2: int| 0 <= x && x2 == x + 1 && x2 < chain.len() implies {
            &&& (#[trigger] chain[x]) == tail ==> !(post.free_at(#[trigger] chain[x2])
                && !floating.remove(block).contains(chain[x2]))
            &&& chain[x2] == tail ==> !(post.free_at(chain[x]) && !floating.remove(block).contains(
                chain[x],
            ))
        } by {
            if chain[x] == tail {
                assert(x == k + 1) by {
                    if x <= k {
                        assert(old_chain[x] != tail);
                    } else if x > k + 1 {
                        assert(old_chain[x - 1] != tail);
                    }
                }
                assert(chain[x2] == old_chain[k + 1]);
                assert(old_chain[k] == block);
                assert(!(pre.free_at(old_chain[k + 1]) && !floating.remove(block).contains(
                    old_chain[k + 1],
                )));
            }
            if chain[x2] == tail {
                assert(x2 == k + 1) by {
                    if x2 <= k {
                        assert(old_chain[x2] != tail);
                    } else if x2 > k + 1 {
                        assert(old_chain[x2 - 1] != tail);
                    }
                }
            }
        }
        assert(post.listed_ids(f2) =~= pre.listed_ids(floating)) by {
            assert forall|i: usize| post.listed_ids(f2).contains(i) == pre.listed_ids(
                floating,
            ).contains(i) by {
                if i != block && i != tail {
                    assert(post.free_at(i) == pre.free_at(i));
                }
            }
        }
        assert(post.used_ids() =~= pre.used_ids().insert(block)) by {
            assert forall|i: usize| post.used_ids().contains(i) == pre.used_ids().insert(
                block,
            ).contains(i) by {
                if i < pre.blocks@.len() && i != block && i != tail {
                    let r = post.blocks@[i as int];
                }
            }
        }
    }

    /// All is in order after a floating free block has become used and been
    /// cut, but for the rest, which floats.
    pub(crate) proof fn lemma_split_off(
        pre: &Self,
        post: &Self,
        block: usize,
        tail: usize,
        k: int,
        size: u64,
        aligned: int,
        floating: Set<usize>,
    )
        requires
            pre.inv(floating),
            floating.contains(block),
            pre.lonely(block, floating.remove(block)),
            Self::split_off(pre, post, block, tail, k, size, aligned),
            size >= MIN_ALLOC_SIZE,
            pre.blocks@[block as int].offset <= aligned,
            size + (aligned - pre.blocks@[block as int].offset) + MIN_ALLOC_SIZE
                <= pre.blocks@[block as int].size,
        ensures
            post.inv(floating.remove(block).insert(tail)),
            post.lonely(tail, floating.remove(block)),
            !floating.contains(tail),
            post.used_ids() == pre.used_ids().insert(block),
            !pre.used_ids().contains(block),
    {
        reveal(SpeedAllocator::split_off);
        Self::lemma_split_chain(pre, post, block, tail, k, size, aligned, floating);
        Self::lemma_split_lists(pre, post, block, tail, k, size, aligned, floating);
        Self::lemma_split_free(pre, post, block, tail, k, size, aligned, floating);
    }

    /// Makes the floating free block `block` used for a request of `size`
    /// bytes at `alignment`. Where the block is too small once its region
    /// is aligned, nothing changes. Where enough is left behind the region,
    /// the rest becomes a new floating free block, which is returned.
    #[verifier::rlimit(40)]
    pub(crate) fn use_free_block(
        &mut self,
        block: usize,
        size: u64,
        alignment: u64,
        Ghost(floating): Ghost<Set<usize>>,
    ) -> (r: Result<Option<usize>, AllocError>)
        requires
            old(self).inv(floating),
            floating.contains(block),
            old(self).lonely(block, floating.remove(block)),
            is_power_of_two(alignment),
            MIN_ALLOC_SIZE <= size <= old(self).pool_size,
        ensures
            ({
                let b = old(self).blocks@[block as int];
                let aligned = align_up(b.offset as int, alignment as int);
                let required = size + aligned - b.offset;
                &&& final(self).num_allocation == old(self).num_allocation
                &&& match r {
                    Err(e) => {
                        &&& e == AllocError::BlockInsufficient
                        &&& required > b.size
                        &&& *final(self) == *old(self)
                    },
                    Ok(None) => {
                        &&& b.size - MIN_ALLOC_SIZE < required <= b.size
                        &&& Self::used_whole(old(self), final(self), block, size, aligned)
                        &&& final(self).inv(floating.remove(block))
                        &&& final(self).used_ids() == old(self).used_ids().insert(block)
                        &&& !old(self).used_ids().contains(block)
                    },
                    Ok(Some(tail)) => {
                        &&& required + MIN_ALLOC_SIZE <= b.size
                        &&& Self::split_off(
                            old(self),
                            final(self),
                            block,
                            tail,
                            old(self).chain@.index_of(block),
                            size,
                            aligned,
                        )
                        &&& final(self).inv(floating.remove(block).insert(tail))
                        &&& final(self).lonely(tail, floating.remove(block))
                        &&& !floating.contains(tail)
                        &&& final(self).used_ids() == old(self).used_ids().insert(block)
                        &&& !old(self).used_ids().contains(block)
                    },
                }
            }),
    {
        proof {
            reveal(SpeedAllocator::inv_vacant);
            reveal(SpeedAllocator::inv_lists);
            reveal(SpeedAllocator::used_whole);
            reveal(SpeedAllocator::split_off);
        }
        let ghost pre = *self;
        proof {
            assert(self.free_at(block));
            lemma_power_of_two_range(alignment);
        }
        let ghost k = self.lemma_neighbours(block);
        let record = self.blocks[block];
        let aligned_offset = align_forward(record.offset, alignment);
        let adjustment = aligned_offset - record.offset;
        let size_with_adjustment = size + adjustment;
        if size_with_adjustment > record.size {
            return Err(AllocError::BlockInsufficient);
        }
        let mut used = record;
        used.offset = aligned_offset;
        used.size = size;
        if record.size >= size_with_adjustment + MIN_ALLOC_SIZE {
            let rest = BlockHeader {
                size: record.size - size_with_adjustment,
                offset: record.offset + size_with_adjustment,
                adjustment: 0,
                slack: 0,
                state: BlockState::Free,
                prev_physical: Some(block),
                next_physical: record.next_physical,
                prev_free: None,
                next_free: None,
            };
            let tail: usize;
            if self.vacant.len() > 0 {
                proof {
                    assert(self.vacant@[self.vacant@.len() - 1] < self.blocks@.len());
                }
                tail = self.vacant.pop().unwrap();
                self.blocks.set(tail, rest);
            } else {
                tail = self.blocks.len();
                self.blocks.push(rest);
            }
            if let Some(next_physical) = record.next_physical {
                let mut after = self.blocks[next_physical];
                after.prev_physical = Some(tail);
                self.blocks.set(next_physical, after);
            }
            used.next_physical = Some(tail);
            used.mark_used(adjustment, 0);
            self.blocks.set(block, used);
            self.chain = Ghost(self.chain@.insert(k + 1, tail));
            proof {
                assert forall|j: int| 0 <= j < self.vacant@.len() implies (#[trigger] self.vacant@[j])
                    != tail && exists|j0: int|
                    0 <= j0 < pre.vacant@.len() && pre.vacant@[j0] == self.vacant@[j] by {
                    assert(pre.vacant@[j] == self.vacant@[j]);
                    if pre.vacant@.len() > 0 {
                        assert(pre.vacant@[j] != pre.vacant@[pre.vacant@.len() - 1]);
                    }
                }
                assert(Self::split_off(&pre, self, block, tail, k, size, aligned_offset as int));
                Self::lemma_split_off(
                    &pre,
                    self,
                    block,
                    tail,
                    k,
                    size,
                    aligned_offset as int,
                    floating,
                );
            }
            Ok(Some(tail))
        } else {
            used.mark_used(adjustment, record.size - size_with_adjustment);
            self.blocks.set(block, used);
            proof {
                assert(Self::used_whole(&pre, self, block, size, aligned_offset as int));
                Self::lemma_used_whole(&pre, self, block, size, aligned_offset as int, floating);
            }
            Ok(None)
        }
    }

    /// The region that the used part of a block becomes.
    pub(crate) open spec fn used_region(r: Region, size: u64, aligned: int, split: bool) -> Region {
        Region {
            handle: r.handle,
            start: r.start,
            offset: aligned as u64,
            size,
            end: if split {
                (aligned + size) as u64
            } else {
                r.end
            },
            free: false,
        }
    }

    /// The region that the rest of a block becomes when it is cut.
    pub(crate) open spec fn rest_region(r: Region, tail: usize, size: u64, aligned: int) -> Region {
        Region {
            handle: tail,
            start: (aligned + size) as u64,
            offset: (aligned + size) as u64,
            size: (r.offset + r.size - aligned - size) as u64,
            end: r.end,
            free: true,
        }
    }

    /// The model after a block has become used as it stands.
    #[verifier::rlimit(40)]
    pub(crate) proof fn lemma_whole_view(pre: &Self, post: &Self, block: usize, size: u64, aligned: int)
        requires
            pre.inv_shape(),
            pre.inv_chain(),
            pre.free_at(block),
            Self::used_whole(pre, post, block, size, aligned),
            pre.blocks@[block as int].offset <= aligned,
            size + (aligned - pre.blocks@[block as int].offset) <= pre.blocks@[block as int].size,
        ensures
            post.model().chain == pre.model().chain.update(
                pre.chain@.index_of(block),
                Self::used_region(pre.region_of(block), size, aligned, false),
            ),
            post.model().pool_base == pre.model().pool_base,
            post.model().pool_size == pre.model().pool_size,
            post.model().lists == pre.model().lists,
    {
        reveal(SpeedAllocator::inv_chain);
        reveal(SpeedAllocator::used_whole);
        let k = pre.lemma_neighbours(block);
        let target = pre.model().chain.update(
            k,
            Self::used_region(pre.region_of(block), size, aligned, false),
        );
        assert forall|x: int| 0 <= x < pre.chain@.len() implies post.model().chain[x] == target[x] by {
            assert(pre.block_ok(pre.chain@[x]));
            if x != k {
                if x < k {
                    assert(pre.chain@[x] != pre.chain@[k]);
                } else {
                    assert(pre.chain@[k] != pre.chain@[x]);
                }
            }
        }
        assert(post.model().chain =~= target);
    }

    /// The model after a block has become used and been cut.
    #[verifier::rlimit(40)]
    pub(crate) proof fn lemma_split_view(
        pre: &Self,
        post: &Self,
        block: usize,
        tail: usize,
        k: int,
        size: u64,
        aligned: int,
    )
        requires
            pre.inv_shape(),
            pre.inv_chain(),
            pre.free_at(block),
            Self::split_off(pre, post, block, tail, k, size, aligned),
            pre.blocks@[block as int].offset <= aligned,
            size + (aligned - pre.blocks@[block as int].offset) + MIN_ALLOC_SIZE
                <= pre.blocks@[block as int].size,
        ensures
            post.model().chain == pre.model().chain.update(
                k,
                Self::used_region(pre.region_of(block), size, aligned, true),
            ).insert(k + 1, Self::rest_region(pre.region_of(block), tail, size, aligned)),
            post.model().pool_base == pre.model().pool_base,
            post.model().pool_size == pre.model().pool_size,
            post.model().lists == pre.model().lists,
            post.region_of(tail) == Self::rest_region(pre.region_of(block), tail, size, aligned),
            !pre.model().has(tail),
    {
        reveal(SpeedAllocator::inv_chain);
        reveal(SpeedAllocator::split_off);
        let kk = pre.lemma_neighbours(block);
        let old_chain = pre.chain@;
        assert(kk == k) by {
            if kk < k {
                assert(old_chain[kk] != old_chain[k]);
            }
            if k < kk {
                assert(old_chain[k] != old_chain[kk]);
            }
        }
        let target = pre.model().chain.update(
            k,
            Self::used_region(pre.region_of(block), size, aligned, true),
        ).insert(k + 1, Self::rest_region(pre.region_of(block), tail, size, aligned));
        assert forall|x: int| 0 <= x < old_chain.len() implies (#[trigger] old_chain[x]) != tail
            && pre.block_ok(old_chain[x]) by {
            assert(pre.block_ok(old_chain[x]));
        }
        assert(post.model().chain.len() == target.len());
        assert forall|x: int| 0 <= x < post.model().chain.len() implies post.model().chain[x] == target[x] by {
            if x < k {
                assert(old_chain[x] != old_chain[k]);
                assert(old_chain[x] != tail);
                let r = post.blocks@[old_chain[x] as int];
            } else if x > k + 1 {
                assert(old_chain[k] != old_chain[x - 1]);
                assert(old_chain[x - 1] != tail);
                let r = post.blocks@[old_chain[x - 1] as int];
            }
        }
        assert(post.model().chain =~= target);
        if pre.model().has(tail) {
            let x = choose|x: int| 0 <= x < pre.model().chain.len() && (#[trigger] pre.model().chain[x]).handle
                == tail;
            assert(old_chain[x] != tail);
        }
    }
}

} // verus!
