//! The mathematical model of a pool: the address-ordered chain of regions
//! and the free lists, one per size class.

use vstd::prelude::*;
use crate::bits::align_up;
use crate::bits::is_power_of_two;
use crate::mapping::class_index;
use crate::mapping::spec_binmap_up;
use crate::mapping::CLASS_COUNT;
use crate::mapping::MIN_ALLOC_SIZE;

verus! {

/// One block as the model sees it. The block covers `[start, end)`; the
/// bytes `[offset, offset + size)` inside are the ones that count: the whole
/// block when it is free, the part handed out when it is used.
pub struct Region {
    pub handle: usize,
    pub start: u64,
    pub offset: u64,
    pub size: u64,
    pub end: u64,
    pub free: bool,
}

/// The state of a pool.
pub struct PoolModel {
    /// Address of the first byte of the pool.
    pub pool_base: u64,
    /// Number of bytes in the pool.
    pub pool_size: u64,
    /// All blocks, in address order.
    pub chain: Seq<Region>,
    /// For each size class, the handles of its free blocks, head first.
    pub lists: Seq<Seq<usize>>,
}

impl PoolModel {
    /// The chain covers the pool without gap or overlap, and every block is
    /// at least `MIN_ALLOC_SIZE` long; a free block is all region.
    pub open spec fn tiles(self) -> bool {
        &&& self.chain.len() >= 1
        &&& self.chain[0].start == 0
        &&& self.chain.last().end == self.pool_size
        &&& forall|k: int|
            0 <= k < self.chain.len() ==> {
                let r = #[trigger] self.chain[k];
                &&& r.start <= r.offset
                &&& r.offset + r.size <= r.end
                &&& r.size >= MIN_ALLOC_SIZE
                &&& r.free ==> r.start == r.offset && r.offset + r.size == r.end
            }
        &&& forall|k: int, k2: int|
            0 <= k && k2 == k + 1 && k2 < self.chain.len() ==> (#[trigger] self.chain[k]).end == (
            #[trigger] self.chain[k2]).start
    }

    /// No two neighbours in the chain are both free.
    pub open spec fn coalesced(self) -> bool {
        forall|k: int, k2: int|
            0 <= k && k2 == k + 1 && k2 < self.chain.len() ==> !((#[trigger] self.chain[k]).free && (
            #[trigger] self.chain[k2]).free)
    }

    /// No handle stands for two blocks.
    pub open spec fn distinct(self) -> bool {
        forall|k1: int, k2: int|
            0 <= k1 < k2 < self.chain.len() ==> (#[trigger] self.chain[k1]).handle != (
            #[trigger] self.chain[k2]).handle
    }

    /// Every free block is in the free list of its size class, and the free
    /// lists hold nothing else and nothing twice.
    pub open spec fn filed(self) -> bool {
        &&& self.lists.len() == CLASS_COUNT
        &&& forall|k: int|
            0 <= k < self.chain.len() && (#[trigger] self.chain[k]).free ==> self.lists[class_index(
                self.chain[k].size,
            )].contains(self.chain[k].handle)
        &&& forall|c: int, j: int|
            0 <= c < CLASS_COUNT && 0 <= j < self.lists[c].len() ==> self.is_free_in_class(
                #[trigger] self.lists[c][j],
                c,
            )
        &&& forall|c: int, j1: int, j2: int|
            0 <= c < CLASS_COUNT && 0 <= j1 < j2 < self.lists[c].len() ==> #[trigger] self.lists[c][j1]
                != #[trigger] self.lists[c][j2]
    }

    /// `handle` stands for a free block whose size is filed under class `c`.
    pub open spec fn is_free_in_class(self, handle: usize, c: int) -> bool {
        exists|k: int|
            0 <= k < self.chain.len() && (#[trigger] self.chain[k]).handle == handle
                && self.chain[k].free && class_index(self.chain[k].size) == c
    }

    /// The model is consistent.
    pub open spec fn wf(self) -> bool {
        &&& self.tiles()
        &&& self.coalesced()
        &&& self.distinct()
        &&& self.filed()
    }

    /// `handle` stands for a block of the chain.
    pub open spec fn has(self, handle: usize) -> bool {
        exists|k: int| 0 <= k < self.chain.len() && (#[trigger] self.chain[k]).handle == handle
    }

    /// Where in the chain the block of `handle` stands.
    pub open spec fn position(self, handle: usize) -> int {
        choose|k: int| 0 <= k < self.chain.len() && (#[trigger] self.chain[k]).handle == handle
    }

    /// The block of `handle`.
    pub open spec fn region(self, handle: usize) -> Region {
        self.chain[self.position(handle)]
    }

    /// The handle of the block that follows the block of `handle` in the
    /// chain; `handle` itself where none follows.
    pub open spec fn successor(self, handle: usize) -> usize {
        let k = self.position(handle);
        if 0 <= k + 1 < self.chain.len() {
            self.chain[k + 1].handle
        } else {
            handle
        }
    }

    /// `handle` stands for a block that is handed out.
    pub open spec fn is_allocated(self, handle: usize) -> bool {
        self.has(handle) && !self.region(handle).free
    }

    /// The handles that are handed out.
    pub open spec fn allocated(self) -> Set<usize> {
        Set::new(|h: usize| self.is_allocated(h))
    }

    /// The handles of the free blocks.
    pub open spec fn free_handles(self) -> Set<usize> {
        Set::new(|h: usize| self.has(h) && self.region(h).free)
    }

    /// A pool with a single free block, under the given handle.
    pub open spec fn fresh(pool_base: u64, pool_size: u64, handle: usize) -> PoolModel {
        PoolModel {
            pool_base,
            pool_size,
            chain: seq![
                Region { handle, start: 0, offset: 0, size: pool_size, end: pool_size, free: true },
            ],
            lists: Seq::new(
                CLASS_COUNT as nat,
                |c: int|
                    if c == class_index(pool_size) {
                        seq![handle]
                    } else {
                        Seq::<usize>::empty()
                    },
            ),
        }
    }

    /// The request is one that the pool serves at all.
    pub open spec fn valid_request(self, size: u64, alignment: u64) -> bool {
        is_power_of_two(alignment) && MIN_ALLOC_SIZE <= size <= self.pool_size
    }

    /// `c` is the first class with a free block, from the class that the
    /// size rounds up to.
    pub open spec fn is_fit(self, size: u64, c: int) -> bool {
        &&& spec_binmap_up(size).flat_idx <= c < CLASS_COUNT
        &&& self.lists[c].len() > 0
        &&& forall|d: int| spec_binmap_up(size).flat_idx <= d < c ==> (#[trigger] self.lists[d]).len() == 0
    }

    /// Some class at or above the one that the size rounds up to has a free
    /// block.
    pub open spec fn has_fit(self, size: u64) -> bool {
        exists|c: int|
            spec_binmap_up(size).flat_idx <= c < CLASS_COUNT && (#[trigger] self.lists[c]).len() > 0
    }

    /// The class that a request of `size` bytes is served from.
    pub open spec fn fit_class(self, size: u64) -> int {
        choose|c: int| self.is_fit(size, c)
    }

    /// The block that a request of `size` bytes is served from: the head of
    /// the free list of its class.
    pub open spec fn candidate(self, size: u64) -> usize {
        self.lists[self.fit_class(size)][0]
    }

    /// Bytes that the block of `handle` must give to hold `size` bytes at
    /// the first multiple of `alignment` in it.
    pub open spec fn required(self, handle: usize, size: u64, alignment: u64) -> int {
        let r = self.region(handle);
        size + align_up(r.offset as int, alignment as int) - r.offset
    }

    /// The request can be served.
    pub open spec fn can_allocate(self, size: u64, alignment: u64) -> bool {
        &&& self.valid_request(size, alignment)
        &&& self.has_fit(size)
        &&& self.required(self.candidate(size), size, alignment) <= self.region(
            self.candidate(size),
        ).size
    }

    /// Whether serving the request leaves a tail that can stand alone.
    pub open spec fn splits(self, size: u64, alignment: u64) -> bool {
        let h = self.candidate(size);
        self.region(h).size >= self.required(h, size, alignment) + MIN_ALLOC_SIZE
    }

    /// The free lists after `handle` has left the list of class `c`.
    pub open spec fn lists_without(lists: Seq<Seq<usize>>, c: int, handle: usize) -> Seq<Seq<usize>> {
        lists.update(c, lists[c].remove(lists[c].index_of(handle)))
    }

    /// The free lists after `handle` has become the head of the list of class `c`.
    pub open spec fn lists_with(lists: Seq<Seq<usize>>, c: int, handle: usize) -> Seq<Seq<usize>> {
        lists.update(c, lists[c].insert(0, handle))
    }

    /// The pool after a request that can be served: the candidate becomes
    /// used, its region begins at the first multiple of `alignment` in it
    /// and is `size` bytes long. Where a tail of at least `MIN_ALLOC_SIZE`
    /// bytes is left, it becomes a free block of its own under the handle
    /// `tail`, right behind the candidate, and the head of its class's list.
    pub open spec fn after_allocate(self, size: u64, alignment: u64, tail: usize) -> PoolModel {
        let c = self.fit_class(size);
        let h = self.candidate(size);
        let k = self.position(h);
        let r = self.chain[k];
        let required = self.required(h, size, alignment);
        let cut = (r.offset + required) as u64;
        let split = self.splits(size, alignment);
        let used = Region {
            handle: h,
            start: r.start,
            offset: align_up(r.offset as int, alignment as int) as u64,
            size,
            end: if split { cut } else { r.end },
            free: false,
        };
        let rest = Region {
            handle: tail,
            start: cut,
            offset: cut,
            size: (r.size - required) as u64,
            end: r.end,
            free: true,
        };
        let lists = Self::lists_without(self.lists, c, h);
        PoolModel {
            pool_base: self.pool_base,
            pool_size: self.pool_size,
            chain: if split {
                self.chain.update(k, used).insert(k + 1, rest)
            } else {
                self.chain.update(k, used)
            },
            lists: if split {
                Self::lists_with(lists, class_index(rest.size), tail)
            } else {
                lists
            },
        }
    }

    /// The block before `handle` in the chain is free.
    pub open spec fn merges_back(self, handle: usize) -> bool {
        let k = self.position(handle);
        k > 0 && self.chain[k - 1].free
    }

    /// The block after `handle` in the chain is free.
    pub open spec fn merges_forward(self, handle: usize) -> bool {
        let k = self.position(handle);
        k + 1 < self.chain.len() && self.chain[k + 1].free
    }

    /// The pool after the block of `handle` has been marked free: its
    /// region is all that the block covers.
    pub open spec fn marked_free(self, handle: usize) -> PoolModel {
        let k = self.position(handle);
        let r = self.chain[k];
        PoolModel {
            chain: self.chain.update(
                k,
                Region {
                    handle,
                    start: r.start,
                    offset: r.start,
                    size: (r.end - r.start) as u64,
                    end: r.end,
                    free: true,
                },
            ),
            ..self
        }
    }

    /// The free block that covers what two neighbours covered, under `handle`.
    pub open spec fn joined(first: Region, last: Region, handle: usize) -> Region {
        Region {
            handle,
            start: first.start,
            offset: first.start,
            size: (last.end - first.start) as u64,
            end: last.end,
            free: true,
        }
    }

    /// The pool after the free block of `handle` has taken in the block
    /// before it, where that one is free: it leaves the chain and its free
    /// list, and the block of `handle` covers what it covered.
    pub open spec fn takes_back(self, handle: usize) -> PoolModel {
        let k = self.position(handle);
        if self.merges_back(handle) {
            PoolModel {
                chain: self.chain.remove(k - 1).update(
                    k - 1,
                    Self::joined(self.chain[k - 1], self.chain[k], handle),
                ),
                lists: Self::lists_without(
                    self.lists,
                    class_index(self.chain[k - 1].size),
                    self.chain[k - 1].handle,
                ),
                ..self
            }
        } else {
            self
        }
    }

    /// The pool after the free block of `handle` has taken in the block
    /// after it, where that one is free.
    pub open spec fn takes_forward(self, handle: usize) -> PoolModel {
        let k = self.position(handle);
        if self.merges_forward(handle) {
            PoolModel {
                chain: self.chain.remove(k + 1).update(
                    k,
                    Self::joined(self.chain[k], self.chain[k + 1], handle),
                ),
                lists: Self::lists_without(
                    self.lists,
                    class_index(self.chain[k + 1].size),
                    self.chain[k + 1].handle,
                ),
                ..self
            }
        } else {
            self
        }
    }

    /// The pool after the free block of `handle` has taken in its free
    /// neighbours, the one before it first.
    pub open spec fn merged_around(self, handle: usize) -> PoolModel {
        self.takes_back(handle).takes_forward(handle)
    }

    /// The pool after the free block of `handle` has become the head of the
    /// free list of its class.
    pub open spec fn listed(self, handle: usize) -> PoolModel {
        PoolModel {
            lists: Self::lists_with(self.lists, class_index(self.region(handle).size), handle),
            ..self
        }
    }

    /// The pool after the used block of `handle` has been given back: the
    /// block becomes free, takes in its free neighbours, and becomes the
    /// head of the free list of its class.
    pub open spec fn after_deallocate(self, handle: usize) -> PoolModel {
        self.marked_free(handle).merged_around(handle).listed(handle)
    }

    /// The class that serves a request is the only one that `is_fit` names.
    pub proof fn lemma_fit_unique(self, size: u64, c: int)
        requires
            self.is_fit(size, c),
        ensures
            self.has_fit(size),
            self.fit_class(size) == c,
    {
        let d = self.fit_class(size);
        assert(self.is_fit(size, d));
        if d < c {
            assert(self.lists[d].len() == 0);
        }
        if c < d {
            assert(self.lists[c].len() == 0);
        }
    }

    /// Where handles are distinct, a handle found at a place of the chain
    /// stands for the block at that place.
    pub proof fn lemma_position(self, handle: usize, k: int)
        requires
            self.distinct(),
            0 <= k < self.chain.len(),
            self.chain[k].handle == handle,
        ensures
            self.has(handle),
            self.position(handle) == k,
            self.region(handle) == self.chain[k],
    {
        let p = self.position(handle);
        if p < k {
            assert(self.chain[p].handle != self.chain[k].handle);
        }
        if k < p {
            assert(self.chain[k].handle != self.chain[p].handle);
        }
    }

    /// In a chain that covers the pool, a block ends before every later
    /// block begins.
    pub proof fn lemma_ordered(self, k1: int, k2: int)
        requires
            self.tiles(),
            0 <= k1 < k2 < self.chain.len(),
        ensures
            self.chain[k1].end <= self.chain[k2].start,
        decreases k2 - k1,
    {
        if k1 + 1 < k2 {
            self.lemma_ordered(k1, k2 - 1);
            let a = self.chain[k2 - 1];
            let b = self.chain[k2];
            assert(a.end == b.start);
        } else {
            let a = self.chain[k1];
            let b = self.chain[k2];
            assert(a.end == b.start);
        }
    }

    /// In a consistent pool no two blocks have regions that begin at the
    /// same offset.
    pub proof fn lemma_offsets_differ(self, h1: usize, h2: usize)
        requires
            self.tiles(),
            self.distinct(),
            self.has(h1),
            self.has(h2),
            self.region(h1).offset == self.region(h2).offset,
        ensures
            h1 == h2,
    {
        let k1 = self.position(h1);
        let k2 = self.position(h2);
        let a = self.chain[k1];
        let b = self.chain[k2];
        if k1 < k2 {
            self.lemma_ordered(k1, k2);
        } else if k2 < k1 {
            self.lemma_ordered(k2, k1);
        }
    }
}

} // verus!
