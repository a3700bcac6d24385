//! The allocator: its records, the allocation protocol, and what holds of
//! it between operations.

use vstd::prelude::*;
use crate::bits::align_up;
use crate::bits::bit32;
use crate::bits::bit64;
use crate::bits::bit_scan_msb;
use crate::bits::is_pow_two;
use crate::bits::lemma_align_up;
use crate::bits::lemma_aligned_sum;
use crate::bits::lemma_bit32_ops;
use crate::bits::lemma_bit64_ops;
use crate::bits::lemma_power_of_two_range;
use crate::bits::lemma_zero32;
use crate::bits::lemma_zero64;
use crate::bits::lowest_bit32;
use crate::bits::lowest_bit64;
use crate::block::BlockHeader;
use crate::block::BlockState;
use crate::consistency::lemma_bounded_set;
use crate::mapping::BIN_COUNT;
use crate::mapping::BlockMap;
use crate::mapping::CLASS_COUNT;
use crate::mapping::class_index;
use crate::mapping::lemma_binmap_down_range;
use crate::mapping::lemma_clamped_bits;
use crate::mapping::lemma_pushed_bits;
use crate::mapping::lemma_small_bits;
use crate::mapping::LINEAR;
use crate::mapping::MAX_POOL_SIZE;
use crate::mapping::MIN_ALLOC_SIZE;
use crate::mapping::spec_binmap_down;
use crate::mapping::spec_binmap_up;
use crate::mapping::SUB_BIN;
use crate::mapping::SUB_BIN_COUNT;
use crate::model::PoolModel;

verus! {

/// Why a request was not served.
#[derive(Clone, Copy, Debug, PartialEq, Eq, Structural)]
pub enum AllocError {
    /// The size is below `MIN_ALLOC_SIZE` or above the pool's size, or the
    /// alignment is not a power of two.
    InvalidRequest,
    /// No free block serves the request.
    OutOfMemory,
    /// No size class at or above the request's has a free block.
    OutOfFreeBlock,
    /// The chosen block cannot hold the request at the asked alignment.
    BlockInsufficient,
}

/// A two-level segregated fit allocator over a pool of `pool_size` bytes
/// that begins at address `pool_base`. The pool itself is never touched.
///
/// A handle is the index of a block's record in the arena of records. It
/// stays the same for as long as the block is handed out.
pub struct SpeedAllocator {
    /// Address of the first byte of the pool.
    pub(crate) pool_base: u64,
    /// Number of bytes in the pool.
    pub(crate) pool_size: u64,
    /// The arena of block records.
    pub(crate) blocks: Vec<BlockHeader>,
    /// The slots of the arena that stand for no block.
    pub(crate) vacant: Vec<usize>,
    /// For each size class, the head of its free list.
    pub(crate) bins: Vec<Option<usize>>,
    /// One bit for each bin: set where one of its classes has a free block.
    pub(crate) bin_bitmap: u64,
    /// For each bin, one bit for each of its classes: set where the class
    /// has a free block.
    pub(crate) sub_bin_bitmap: Vec<u32>,
    /// Number of blocks handed out.
    pub(crate) num_allocation: usize,
    /// Number of blocks in the free lists.
    pub(crate) num_free_block: usize,
    /// The blocks in address order.
    pub(crate) chain: Ghost<Seq<usize>>,
    /// For each size class, the blocks of its free list, head first.
    pub(crate) lists: Ghost<Seq<Seq<usize>>>,
}

/// A free-list table with no block in it.
fn empty_bins() -> (bins: Vec<Option<usize>>)
    ensures
        bins@.len() == CLASS_COUNT,
        forall|c: int| 0 <= c < CLASS_COUNT ==> (#[trigger] bins@[c]).is_none(),
{
    let mut bins: Vec<Option<usize>> = Vec::new();
    let mut i: usize = 0;
    while i < CLASS_COUNT
        invariant
            i <= CLASS_COUNT,
            bins@.len() == i,
            forall|c: int| 0 <= c < i ==> (#[trigger] bins@[c]).is_none(),
        decreases CLASS_COUNT - i,
    {
        bins.push(None);
        i = i + 1;
    }
    bins
}

/// Sub-bin bitmaps with no bit set.
fn empty_words() -> (words: Vec<u32>)
    ensures
        words@.len() == BIN_COUNT,
        forall|i: int| 0 <= i < BIN_COUNT ==> #[trigger] words@[i] == 0,
{
    let mut words: Vec<u32> = Vec::new();
    let mut i: usize = 0;
    while i < BIN_COUNT
        invariant
            i <= BIN_COUNT,
            words@.len() == i,
            forall|k: int| 0 <= k < i ==> #[trigger] words@[k] == 0,
        decreases BIN_COUNT - i,
    {
        words.push(0u32);
        i = i + 1;
    }
    words
}

impl View for SpeedAllocator {
    type V = PoolModel;

    /// The model of the allocator.
    closed spec fn view(&self) -> PoolModel {
        self.model()
    }
}

impl SpeedAllocator {
    /// The allocator is consistent: what holds between public operations.
    pub closed spec fn wf(&self) -> bool {
        &&& self.inv(Set::empty())
        &&& self.num_allocation == self.used_ids().len()
    }

    /// Round-down mapping: the class under which a block of `size` bytes is
    /// filed.
    pub fn binmap_down(&self, size: u64) -> (map: BlockMap)
        ensures
            map == spec_binmap_down(size),
            map.bin_idx <= BIN_COUNT,
            map.sub_bin_idx < SUB_BIN_COUNT,
            map.flat_idx == map.bin_idx * SUB_BIN_COUNT + map.sub_bin_idx,
    {
        proof {
            lemma_small_bits(size);
        }
        let m: u64 = bit_scan_msb(size | MIN_ALLOC_SIZE) as u64;
        proof {
            lemma_clamped_bits(size, m);
        }
        let log2_subbin_size: u64 = m - SUB_BIN;
        let sub: u64 = size >> log2_subbin_size;
        let bin: u64 = m - LINEAR + (sub >> SUB_BIN);
        let sub_bin: u64 = sub & 31;
        BlockMap {
            bin_idx: bin as usize,
            sub_bin_idx: sub_bin as usize,
            rounded_size: size,
            flat_idx: (bin * 32 + sub_bin) as usize,
        }
    }

    /// Round-up mapping: the smallest class all of whose blocks hold `size`
    /// bytes, and `size` rounded up to that class's smallest size.
    pub fn binmap_up(&self, size: u64) -> (map: BlockMap)
        requires
            size <= MAX_POOL_SIZE,
        ensures
            map == spec_binmap_up(size),
            map.bin_idx <= BIN_COUNT,
            map.sub_bin_idx < SUB_BIN_COUNT,
            map.flat_idx == map.bin_idx * SUB_BIN_COUNT + map.sub_bin_idx,
    {
        proof {
            lemma_small_bits(size);
        }
        let m: u64 = bit_scan_msb(size | MIN_ALLOC_SIZE) as u64;
        proof {
            lemma_clamped_bits(size, m);
            lemma_pushed_bits(size, m);
        }
        let log2_subbin_size: u64 = m - SUB_BIN;
        let next_subbin_offset: u64 = (1u64 << log2_subbin_size) - 1;
        let rounded: u64 = size + next_subbin_offset;
        let sub: u64 = rounded >> log2_subbin_size;
        let bin: u64 = m - LINEAR + (sub >> SUB_BIN);
        let sub_bin: u64 = sub & 31;
        BlockMap {
            bin_idx: bin as usize,
            sub_bin_idx: sub_bin as usize,
            rounded_size: rounded & !next_subbin_offset,
            flat_idx: (bin * 32 + sub_bin) as usize,
        }
    }

    /// An allocator for the `pool_size` bytes at `pool_base`: one free block
    /// that spans the pool, under the handle 0.
    #[verifier::rlimit(40)]
    pub fn new(pool_base: u64, pool_size: u64) -> (a: Self)
        requires
            MIN_ALLOC_SIZE <= pool_size <= MAX_POOL_SIZE,
            pool_base + pool_size <= u64::MAX,
        ensures
            a.wf(),
            a@ == PoolModel::fresh(pool_base, pool_size, 0),
    {
        proof {
            reveal(SpeedAllocator::same_layout);
            reveal(SpeedAllocator::inv_chain);
            reveal(SpeedAllocator::inv_vacant);
            reveal(SpeedAllocator::inv_lists);
            reveal(SpeedAllocator::inv_bitmaps);
            reveal(SpeedAllocator::inv_coalesced);
            reveal(SpeedAllocator::lonely);
        }
        let first = BlockHeader {
            size: pool_size,
            offset: 0,
            adjustment: 0,
            slack: 0,
            state: BlockState::Free,
            prev_physical: None,
            next_physical: None,
            prev_free: None,
            next_free: None,
        };
        let mut blocks: Vec<BlockHeader> = Vec::new();
        blocks.push(first);
        let chain: Ghost<Seq<usize>> = Ghost(Seq::<usize>::empty().push(0usize));
        let lists: Ghost<Seq<Seq<usize>>> = Ghost(
            Seq::new(CLASS_COUNT as nat, |c: int| Seq::<usize>::empty()),
        );
        let mut a = SpeedAllocator {
            pool_base,
            pool_size,
            blocks,
            vacant: Vec::new(),
            bins: empty_bins(),
            bin_bitmap: 0,
            sub_bin_bitmap: empty_words(),
            num_allocation: 0,
            num_free_block: 0,
            chain,
            lists,
        };
        let ghost floating = set![0usize];
        let ghost pre = a;
        proof {
            assert(a.chain@[0] == 0);
            assert(a.block_ok(0));
            assert forall|i: usize| #[trigger] a.live(i) implies a.chain@.contains(i) by {
                assert(a.chain@[0] == i);
            }
            assert(a.inv_chain());
            assert forall|c: int| 0 <= c < CLASS_COUNT implies #[trigger] a.head_ok(c) by {
                assert(a.bins@[c].is_none());
            }
            assert(a.inv_lists(floating));
            lemma_zero64(0);
            lemma_zero32(0);
            assert forall|i: int| 0 <= i < BIN_COUNT implies (#[trigger] bit64(a.bin_bitmap, i)
                <==> a.sub_bin_bitmap@[i] != 0) by {
                assert(a.sub_bin_bitmap@[i] == 0);
            }
            assert forall|i: int, j: int| 0 <= i < BIN_COUNT && 0 <= j < 32 implies (
            #[trigger] bit32(a.sub_bin_bitmap@[i], j) <==> a.lists@[i * 32 + j].len() > 0) by {
                assert(a.sub_bin_bitmap@[i] == 0);
            }
            assert(a.inv_bitmaps());
            assert(a.listed_ids(floating) =~= Set::<usize>::empty());
            assert(a.inv(floating));
            assert(a.lonely(0, floating.remove(0)));
        }
        a.insert_free_block(0, Ghost(floating));
        proof {
            assert(floating.remove(0) =~= Set::<usize>::empty());
            let b = a.blocks@[0];
            assert(a.used_ids() =~= Set::<usize>::empty()) by {
                assert forall|i: usize| !a.used_ids().contains(i) by {
                    if i < a.blocks@.len() {
                        let b = a.blocks@[i as int];
                    }
                }
            }
            lemma_binmap_down_range(pool_size);
            let fresh = PoolModel::fresh(pool_base, pool_size, 0);
            assert(a@.chain =~= fresh.chain);
            let c = class_index(pool_size);
            assert(pre.lists@[c].insert(0, 0usize) =~= seq![0usize]);
            assert forall|d: int| 0 <= d < CLASS_COUNT implies #[trigger] a@.lists[d]
                == fresh.lists[d] by {
                if d != c {
                    assert(a@.lists[d] =~= Seq::<usize>::empty());
                }
            }
            assert(a@.lists =~= fresh.lists);
        }
        a
    }

    /// Finds the first size class with a free block, from the class that
    /// `size` rounds up to.
    #[verifier::rlimit(40)]
    pub fn find_free_block(&self, size: u64) -> (r: Result<BlockMap, AllocError>)
        requires
            self.wf(),
            size <= MAX_POOL_SIZE,
        ensures
            match r {
                Ok(map) => {
                    &&& self@.is_fit(size, map.flat_idx as int)
                    &&& map.bin_idx == map.flat_idx / SUB_BIN_COUNT
                    &&& map.sub_bin_idx == map.flat_idx % SUB_BIN_COUNT
                    &&& map.rounded_size == spec_binmap_up(size).rounded_size
                },
                Err(e) => e == AllocError::OutOfFreeBlock && !self@.has_fit(size),
            },
    {
        proof {
            reveal(SpeedAllocator::inv_bitmaps);
        }
        let map = self.binmap_up(size);
        if map.bin_idx >= BIN_COUNT {
            return Err(AllocError::OutOfFreeBlock);
        }
        let ghost up = map.flat_idx as int;
        let mut bin_idx: usize = map.bin_idx;
        let first_word: u32 = self.sub_bin_bitmap[bin_idx];
        let masked: u32 = first_word & (!0u32 << (map.sub_bin_idx as u32));
        let mut sub_bin_bitmap: u32 = masked;
        let ghost bin_masked: u64 = 0;
        proof {
            lemma_bit32_ops(first_word, map.sub_bin_idx as u32);
            lemma_zero32(masked);
        }
        if sub_bin_bitmap == 0 {
            let bin_bitmap: u64 = self.bin_bitmap & (!0u64 << ((bin_idx + 1) as u64));
            proof {
                bin_masked = bin_bitmap;
                lemma_bit64_ops(self.bin_bitmap, (bin_idx + 1) as u64);
                lemma_zero64(bin_bitmap);
            }
            if bin_bitmap == 0 {
                proof {
                    assert forall|c: int| up <= c < CLASS_COUNT implies (#[trigger] self.lists@[c]).len()
                        == 0 by {
                        let i = c / 32;
                        let j = c % 32;
                        if i > map.bin_idx {
                            assert(!bit64(bin_bitmap, i));
                        } else {
                            assert(!bit32(masked, j));
                        }
                        self.lemma_clear_bit(i, j);
                    }
                }
                return Err(AllocError::OutOfFreeBlock);
            }
            let found: u32 = lowest_bit64(bin_bitmap);
            proof {
                assert(bit64(self.bin_bitmap, found as int));
                assert(found < BIN_COUNT) by {
                    if found >= BIN_COUNT {
                        assert(!bit64(self.bin_bitmap, found as int));
                    }
                }
            }
            bin_idx = found as usize;
            sub_bin_bitmap = self.sub_bin_bitmap[bin_idx];
            proof {
                assert(bit64(self.bin_bitmap, bin_idx as int) <==> self.sub_bin_bitmap@[bin_idx as int]
                    != 0);
            }
        }
        let sub_bin_idx: usize = lowest_bit32(sub_bin_bitmap) as usize;
        let idx: usize = bin_idx * SUB_BIN_COUNT + sub_bin_idx;
        proof {
            self.lemma_clear_bit(bin_idx as int, sub_bin_idx as int);
            assert(bit32(self.sub_bin_bitmap@[bin_idx as int], sub_bin_idx as int));
            assert forall|d: int| up <= d < idx implies (#[trigger] self.lists@[d]).len() == 0 by {
                let i = d / 32;
                let j = d % 32;
                if i == map.bin_idx {
                    assert(!bit32(masked, j));
                } else if i < bin_idx {
                    assert(!bit64(bin_masked, i));
                } else {
                    assert(!bit32(sub_bin_bitmap, j));
                }
                self.lemma_clear_bit(i, j);
            }
        }
        Ok(BlockMap { bin_idx, sub_bin_idx, rounded_size: map.rounded_size, flat_idx: idx })
    }

    /// Serves a request of `size` bytes at a multiple of `alignment`.
    ///
    /// The block comes from the head of the first free list at or above the
    /// class that the size rounds up to. A request that is not valid gives
    /// `InvalidRequest`; one that finds no free list, or whose block is too
    /// small once its region is aligned, gives `OutOfMemory`. Either way the
    /// pool is left as it was.
    #[verifier::rlimit(40)]
    pub fn allocate(&mut self, size: u64, alignment: u64) -> (r: Result<usize, AllocError>)
        requires
            old(self).wf(),
        ensures
            final(self).wf(),
            match r {
                Ok(handle) => {
                    let tail = final(self)@.successor(handle);
                    &&& old(self)@.can_allocate(size, alignment)
                    &&& handle == old(self)@.candidate(size)
                    &&& final(self)@ == old(self)@.after_allocate(size, alignment, tail)
                    &&& old(self)@.splits(size, alignment) ==> !old(self)@.has(tail)
                    &&& final(self)@.is_allocated(handle)
                    &&& final(self)@.region(handle).size == size
                    &&& final(self)@.region(handle).offset == align_up(
                        old(self)@.region(handle).offset as int,
                        alignment as int,
                    )
                    &&& final(self)@.region(handle).offset % alignment == 0
                    &&& old(self)@.pool_base % alignment == 0 ==> (final(self)@.pool_base
                        + final(self)@.region(handle).offset) % (alignment as int) == 0
                    &&& final(self).spec_num_allocation() == old(self).spec_num_allocation() + 1
                },
                Err(e) => {
                    &&& final(self)@ == old(self)@
                    &&& final(self).spec_num_allocation() == old(self).spec_num_allocation()
                    &&& final(self).spec_num_free_block() == old(self).spec_num_free_block()
                    &&& e == AllocError::InvalidRequest || e == AllocError::OutOfMemory
                    &&& e == AllocError::InvalidRequest <==> !old(self)@.valid_request(
                        size,
                        alignment,
                    )
                    &&& !old(self)@.can_allocate(size, alignment)
                },
            },
    {
        let ghost s0 = *self;
        let ghost none = Set::<usize>::empty();
        if !is_pow_two(alignment) || size < MIN_ALLOC_SIZE || size > self.pool_size {
            return Err(AllocError::InvalidRequest);
        }
        let block_map = match self.find_free_block(size) {
            Ok(map) => map,
            Err(_) => {
                return Err(AllocError::OutOfMemory);
            },
        };
        let ghost c = block_map.flat_idx as int;
        proof {
            s0@.lemma_fit_unique(size, c);
            self.lemma_head(c, none);
        }
        let block: usize = self.bins[block_map.flat_idx].unwrap();
        let ghost k = self.lemma_locate(block);
        let ghost region = self.region_of(block);
        proof {
            lemma_power_of_two_range(alignment);
        }
        let ghost aligned = align_up(region.offset as int, alignment as int);
        proof {
            lemma_align_up(region.offset as int, alignment as int);
        }
        self.remove_free_block(block, block_map, Ghost(none));
        let ghost s1 = *self;
        let ghost floating = none.insert(block);
        proof {
            Self::lemma_same_layout(&s0, &s1, none);
            Self::lemma_layout_view(&s0, &s1);
            assert(floating.remove(block) =~= none);
            Self::lemma_listed_is_lonely(&s0, &s1, block, none);
            s1.lemma_locate(block);
            assert(s1.region_of(block) == region);
            assert(s1.blocks@[block as int].offset == region.offset);
            assert(s1.blocks@[block as int].size == region.size);
        }
        match self.use_free_block(block, size, alignment, Ghost(floating)) {
            Err(_) => {
                self.insert_free_block(block, Ghost(floating));
                proof {
                    Self::lemma_same_layout(&s1, self, floating);
                    Self::lemma_layout_view(&s1, self);
                    assert(s0.lists@[c].remove(0).insert(0, block) =~= s0.lists@[c]);
                    assert(self.lists@ =~= s0.lists@);
                    assert(self@ == s0@);
                }
                Err(AllocError::OutOfMemory)
            },
            Ok(maybe_split_block) => {
                let ghost s2 = *self;
                let ghost rest = floating.remove(block);
                proof {
                    assert(rest =~= none);
                    if let Some(tail) = maybe_split_block {
                        Self::lemma_split_view(&s1, &s2, block, tail, k, size, aligned);
                    } else {
                        Self::lemma_whole_view(&s1, &s2, block, size, aligned);
                    }
                }
                if let Some(split_block) = maybe_split_block {
                    proof {
                        assert(rest.insert(split_block).remove(split_block) =~= rest);
                    }
                    self.insert_free_block(split_block, Ghost(rest.insert(split_block)));
                    proof {
                        assert(rest.insert(split_block).remove(split_block) =~= none);
                        Self::lemma_same_layout(&s2, self, rest.insert(split_block));
                        Self::lemma_layout_view(&s2, self);
                    }
                }
                let ghost s3 = *self;
                proof {
                    lemma_bounded_set(s3.used_ids(), s3.blocks.len());
                    lemma_bounded_set(s0.used_ids(), s0.blocks.len());
                    assert(s3.used_ids() == s0.used_ids().insert(block));
                    assert(s3.num_allocation == s0.num_allocation);
                }
                self.num_allocation = self.num_allocation + 1;
                proof {
                    Self::lemma_count_frame(&s3, self, none);
                    assert(s2.used_ids().contains(block));
                    assert(self.used_ids().contains(block));
                    assert(self.live(block));
                    self.lemma_locate(block);
                    if s0@.pool_base % alignment == 0 {
                        lemma_aligned_sum(s0@.pool_base as int, aligned, alignment as int);
                    }
                    let target = s0@.after_allocate(size, alignment, self@.successor(block));
                    assert(self@.chain =~= target.chain);
                    assert(self@.lists =~= target.lists);
                }
                Ok(block)
            },
        }
    }

    /// What the model says of a handle that is handed out, in the records.
    proof fn lemma_allocated(&self, handle: usize)
        requires
            self.wf(),
            self@.is_allocated(handle),
        ensures
            self.used_ids().contains(handle),
            self.live(handle),
            self.block_ok(handle),
            handle < self.blocks@.len(),
            self.num_allocation >= 1,
    {
        reveal(SpeedAllocator::inv_chain);
        let k = self@.position(handle);
        assert(self@.chain[k].handle == handle);
        assert(self.chain@[k] == handle);
        assert(self.block_ok(self.chain@[k]));
        lemma_bounded_set(self.used_ids(), self.blocks.len());
        assert(self.used_ids().remove(handle).len() + 1 == self.used_ids().len());
    }

    /// Gives the block of `handle` back to the pool: it becomes free, takes
    /// in its free neighbours, and is filed in the free list of its class.
    #[verifier::rlimit(40)]
    pub fn deallocate(&mut self, handle: usize)
        requires
            old(self).wf(),
            old(self)@.is_allocated(handle),
        ensures
            final(self).wf(),
            final(self)@ == old(self)@.after_deallocate(handle),
            final(self).spec_num_allocation() == old(self).spec_num_allocation() - 1,
    {
        let ghost s0 = *self;
        let ghost none = Set::<usize>::empty();
        let ghost floating = none.insert(handle);
        proof {
            self.lemma_allocated(handle);
        }
        proof {
            self.lemma_locate(handle);
        }
        let mut record = self.blocks[handle];
        record.mark_free();
        self.blocks.set(handle, record);
        let ghost s1 = *self;
        proof {
            assert(Self::freed(&s0, &s1, handle)) by {
                reveal(SpeedAllocator::freed);
            }
            Self::lemma_freed(&s0, &s1, handle);
            assert(s1@ == s0@.marked_free(handle));
        }
        self.merge_free_block(handle);
        let ghost s2 = *self;
        proof {
            assert(floating.remove(handle) =~= none);
        }
        self.insert_free_block(handle, Ghost(floating));
        let ghost s3 = *self;
        proof {
            Self::lemma_same_layout(&s2, &s3, floating);
            Self::lemma_layout_view(&s2, &s3);
            lemma_bounded_set(s0.used_ids(), s0.blocks.len());
        }
        self.num_allocation = self.num_allocation - 1;
        proof {
            Self::lemma_count_frame(&s3, self, none);
            let target = s0@.after_deallocate(handle);
            s2.lemma_locate(handle);
            assert(s2.region_of(handle).size == s2.blocks@[handle as int].size);
            assert(self@.lists =~= target.lists);
            assert(self@.chain =~= target.chain);
        }
    }

    /// The bitmap of the bins: one bit for each bin.
    pub closed spec fn spec_bin_bitmap(&self) -> u64 {
        self.bin_bitmap
    }

    /// The bitmaps of the sub-bins: one word for each bin.
    pub closed spec fn spec_sub_bin_bitmap(&self) -> Seq<u32> {
        self.sub_bin_bitmap@
    }

    /// The heads of the free lists: one for each size class.
    pub closed spec fn spec_bins(&self) -> Seq<Option<usize>> {
        self.bins@
    }

    /// The number of blocks handed out, as the allocator counts them.
    pub closed spec fn spec_num_allocation(&self) -> usize {
        self.num_allocation
    }

    /// The number of free blocks, as the allocator counts them.
    pub closed spec fn spec_num_free_block(&self) -> usize {
        self.num_free_block
    }

    /// The chain of a consistent allocator covers the pool exactly: it
    /// begins at offset 0, each block begins where the one before it ends,
    /// and the last one ends at the pool's size.
    pub proof fn lemma_chain_covers_pool(&self)
        requires
            self.wf(),
        ensures
            self@.tiles(),
            self@.distinct(),
            MIN_ALLOC_SIZE <= self@.pool_size <= MAX_POOL_SIZE,
            self@.pool_base + self@.pool_size <= u64::MAX,
    {
        reveal(SpeedAllocator::inv_chain);
        let m = self@;
        let chain = self.chain@;
        assert forall|k: int| 0 <= k < m.chain.len() implies {
            let r = #[trigger] m.chain[k];
            &&& r.start <= r.offset
            &&& r.offset + r.size <= r.end
            &&& r.size >= MIN_ALLOC_SIZE
            &&& r.free ==> r.start == r.offset && r.offset + r.size == r.end
        } by {
            assert(self.block_ok(chain[k]));
        }
        assert forall|k: int, k2: int| 0 <= k && k2 == k + 1 && k2 < m.chain.len() implies (
        #[trigger] m.chain[k]).end == (#[trigger] m.chain[k2]).start by {
            assert(self.linked(chain[k], chain[k2]));
            assert(self.block_ok(chain[k]));
            assert(self.block_ok(chain[k2]));
        }
        assert(self.block_ok(chain[0]));
        assert(self.block_ok(chain.last()));
        assert forall|k1: int, k2: int| 0 <= k1 < k2 < m.chain.len() implies (#[trigger] m.chain[k1]).handle
            != (#[trigger] m.chain[k2]).handle by {
            assert(chain[k1] != chain[k2]);
        }
    }

    /// In a consistent allocator no two neighbours in the chain are both
    /// free.
    pub proof fn lemma_no_free_neighbours(&self)
        requires
            self.wf(),
        ensures
            self@.coalesced(),
    {
        reveal(SpeedAllocator::inv_chain);
        reveal(SpeedAllocator::inv_coalesced);
        let m = self@;
        let chain = self.chain@;
        let none = Set::<usize>::empty();
        assert forall|k: int, k2: int| 0 <= k && k2 == k + 1 && k2 < m.chain.len() implies !((
        #[trigger] m.chain[k]).free && (#[trigger] m.chain[k2]).free) by {
            assert(self.block_ok(chain[k]));
            assert(self.block_ok(chain[k2]));
            assert(!(self.free_at(chain[k]) && self.free_at(chain[k2]) && !none.contains(chain[k])
                && !none.contains(chain[k2])));
        }
    }

    /// In a consistent allocator the bit of a bin is set exactly when one
    /// of its sub-bin bits is, the bit of a sub-bin is set exactly when the
    /// free list of its class is not empty, and the table holds the head of
    /// each free list.
    pub proof fn lemma_bitmaps_match_lists(&self)
        requires
            self.wf(),
        ensures
            self.spec_sub_bin_bitmap().len() == BIN_COUNT,
            self.spec_bins().len() == CLASS_COUNT,
            self@.lists.len() == CLASS_COUNT,
            forall|i: int|
                0 <= i < BIN_COUNT ==> (#[trigger] bit64(self.spec_bin_bitmap(), i)
                    <==> self.spec_sub_bin_bitmap()[i] != 0),
            forall|i: int| BIN_COUNT <= i < 64 ==> !#[trigger] bit64(self.spec_bin_bitmap(), i),
            forall|i: int, j: int|
                0 <= i < BIN_COUNT && 0 <= j < 32 ==> (#[trigger] bit32(
                    self.spec_sub_bin_bitmap()[i],
                    j,
                ) <==> self@.lists[i * 32 + j].len() > 0),
            forall|c: int|
                0 <= c < CLASS_COUNT ==> #[trigger] self.spec_bins()[c] == (if self@.lists[c].len()
                    == 0 {
                    None
                } else {
                    Some(self@.lists[c][0])
                }),
    {
        reveal(SpeedAllocator::inv_bitmaps);
        reveal(SpeedAllocator::inv_lists);
        assert forall|c: int| 0 <= c < CLASS_COUNT implies #[trigger] self.spec_bins()[c] == (
        if self@.lists[c].len() == 0 {
            None
        } else {
            Some(self@.lists[c][0])
        }) by {
            assert(self.head_ok(c));
        }
    }

    /// In a consistent allocator every free block is in the free list of
    /// the class that the round-down mapping gives its size, and the free
    /// lists hold only such blocks, each once.
    pub proof fn lemma_free_blocks_are_filed(&self)
        requires
            self.wf(),
        ensures
            self@.filed(),
    {
        reveal(SpeedAllocator::inv_chain);
        reveal(SpeedAllocator::inv_lists);
        let m = self@;
        let chain = self.chain@;
        let none = Set::<usize>::empty();
        assert forall|k: int| 0 <= k < m.chain.len() && (#[trigger] m.chain[k]).free implies m.lists[class_index(
            m.chain[k].size,
        )].contains(m.chain[k].handle) by {
            assert(self.block_ok(chain[k]));
            assert(self.free_at(chain[k]));
        }
        assert forall|c: int, j: int|
            0 <= c < CLASS_COUNT && 0 <= j < m.lists[c].len() implies m.is_free_in_class(
            #[trigger] m.lists[c][j],
            c,
        ) by {
            let h = m.lists[c][j];
            assert(self.listed_ok(c, h, none));
            assert(self.live(h));
            assert(chain.contains(h));
            let k = choose|k: int| 0 <= k < chain.len() && chain[k] == h;
            assert(m.chain[k].handle == h);
        }
    }

    /// The records of a consistent allocator give what its model says of
    /// the handles that are handed out and of those that are free.
    #[verifier::rlimit(40)]
    proof fn lemma_handles(&self)
        requires
            self.wf(),
        ensures
            self@.allocated() == self.used_ids(),
            self@.free_handles() == self.listed_ids(Set::empty()),
            self@.allocated().finite(),
            self@.free_handles().finite(),
            forall|h: usize| #[trigger] self@.has(h) == self.live(h),
            forall|h: usize|
                #[trigger] self@.is_allocated(h) == (h < self.blocks@.len()
                    && self.blocks@[h as int].state == BlockState::Used),
    {
        let none = Set::<usize>::empty();
        assert forall|h: usize|
            #[trigger] self@.is_allocated(h) == (h < self.blocks@.len()
                && self.blocks@[h as int].state == BlockState::Used) by {
            if self.live(h) {
                let k = self.lemma_locate(h);
            }
            if self@.has(h) {
                reveal(SpeedAllocator::inv_chain);
                let k = self@.position(h);
                assert(self.chain@[k] == h);
                assert(self.block_ok(self.chain@[k]));
            }
        }
        assert forall|h: usize| self@.has(h) == self.live(h) by {
            if self.live(h) {
                let k = self.lemma_locate(h);
            }
            if self@.has(h) {
                reveal(SpeedAllocator::inv_chain);
                let k = self@.position(h);
                assert(self.chain@[k] == h);
                assert(self.block_ok(self.chain@[k]));
            }
        }
        assert forall|h: usize| self@.allocated().contains(h) == self.used_ids().contains(h) by {
            if self.live(h) {
                let k = self.lemma_locate(h);
            }
        }
        assert(self@.allocated() =~= self.used_ids());
        assert forall|h: usize| self@.free_handles().contains(h) == self.listed_ids(none).contains(
            h,
        ) by {
            if self.live(h) {
                self.lemma_locate(h);
            }
        }
        assert(self@.free_handles() =~= self.listed_ids(none));
        lemma_bounded_set(self.used_ids(), self.blocks.len());
        lemma_bounded_set(self.listed_ids(none), self.blocks.len());
    }

    /// A consistent allocator counts right: its number of allocations is
    /// the number of handles handed out, and its number of free blocks is
    /// the number of free blocks in the chain.
    pub proof fn lemma_counts(&self)
        requires
            self.wf(),
        ensures
            self@.allocated().finite(),
            self@.free_handles().finite(),
            self.spec_num_allocation() == self@.allocated().len(),
            self.spec_num_free_block() == self@.free_handles().len(),
    {
        self.lemma_handles();
    }

    /// A consistent allocator with no handle handed out is as a new one: a
    /// single free block spans the pool and is alone in the free lists.
    #[verifier::rlimit(40)]
    pub proof fn lemma_all_freed_is_fresh(&self)
        requires
            self.wf(),
            forall|h: usize| !self@.is_allocated(h),
        ensures
            self@ == PoolModel::fresh(self@.pool_base, self@.pool_size, self@.chain[0].handle),
            self.spec_num_allocation() == 0,
            self.spec_num_free_block() == 1,
    {
        self.lemma_handles();
        self.lemma_chain_covers_pool();
        self.lemma_no_free_neighbours();
        self.lemma_free_blocks_are_filed();
        let m = self@;
        assert(m.allocated() =~= Set::<usize>::empty());
        assert forall|k: int| 0 <= k < m.chain.len() implies (#[trigger] m.chain[k]).free by {
            let h = m.chain[k].handle;
            m.lemma_position(h, k);
            assert(!m.is_allocated(h));
        }
        if m.chain.len() > 1 {
            assert(m.chain[0].free && m.chain[1].free);
        }
        let h0 = m.chain[0].handle;
        let fresh = PoolModel::fresh(m.pool_base, m.pool_size, h0);
        assert(m.chain =~= fresh.chain);
        lemma_binmap_down_range(m.pool_size);
        let c0 = class_index(m.pool_size);
        assert(m.lists[c0].contains(h0));
        assert forall|c: int, j: int| 0 <= c < CLASS_COUNT && 0 <= j < m.lists[c].len() implies c
            == c0 && #[trigger] m.lists[c][j] == h0 by {
            assert(m.is_free_in_class(m.lists[c][j], c));
        }
        assert forall|c: int| 0 <= c < CLASS_COUNT implies #[trigger] m.lists[c] == fresh.lists[c] by {
            if c == c0 {
                let j0 = choose|j: int| 0 <= j < m.lists[c0].len() && m.lists[c0][j] == h0;
                if m.lists[c0].len() > 1 {
                    assert(m.lists[c0][0] == h0);
                    assert(m.lists[c0][1] == h0);
                }
                assert(m.lists[c0] =~= seq![h0]);
            } else {
                if m.lists[c].len() > 0 {
                    assert(m.lists[c][0] == h0);
                }
                assert(m.lists[c] =~= Seq::<usize>::empty());
            }
        }
        assert(m.lists =~= fresh.lists);
        assert(m.free_handles() =~= Set::<usize>::empty().insert(h0)) by {
            assert forall|h: usize| m.free_handles().contains(h) == (h == h0) by {
                if m.has(h) {
                    let k = m.position(h);
                    assert(m.chain[k].handle == h);
                }
                m.lemma_position(h0, 0);
            }
        }
    }

    /// Address of the first byte of the pool.
    pub fn pool_base(&self) -> (r: u64)
        ensures
            r == self@.pool_base,
    {
        self.pool_base
    }

    /// Number of bytes in the pool.
    pub fn pool_size(&self) -> (r: u64)
        ensures
            r == self@.pool_size,
    {
        self.pool_size
    }

    /// The number of blocks handed out and the number of free blocks.
    pub fn stats(&self) -> (r: (usize, usize))
        requires
            self.wf(),
        ensures
            r.0 == self@.allocated().len(),
            r.1 == self@.free_handles().len(),
            r.0 == self.spec_num_allocation(),
            r.1 == self.spec_num_free_block(),
    {
        proof {
            self.lemma_handles();
        }
        (self.num_allocation, self.num_free_block)
    }

    /// The bitmap of the bins.
    pub fn bin_bitmap(&self) -> (r: u64)
        ensures
            r == self.spec_bin_bitmap(),
    {
        self.bin_bitmap
    }

    /// The bitmap of the sub-bins of bin `bin`; 0 where there is no such bin.
    pub fn sub_bin_bitmap(&self, bin: usize) -> (r: u32)
        ensures
            r == (if bin < self.spec_sub_bin_bitmap().len() {
                self.spec_sub_bin_bitmap()[bin as int]
            } else {
                0u32
            }),
    {
        if bin < self.sub_bin_bitmap.len() {
            self.sub_bin_bitmap[bin]
        } else {
            0
        }
    }

    /// The head of the free list of the class with flat index `flat_idx`.
    pub fn free_list_head(&self, flat_idx: usize) -> (r: Option<usize>)
        requires
            self.wf(),
        ensures
            r == (if flat_idx < CLASS_COUNT && self@.lists[flat_idx as int].len() > 0 {
                Some(self@.lists[flat_idx as int][0])
            } else {
                None
            }),
            flat_idx < CLASS_COUNT ==> r == self.spec_bins()[flat_idx as int],
    {
        proof {
            self.lemma_bitmaps_match_lists();
        }
        if flat_idx < self.bins.len() {
            self.bins[flat_idx]
        } else {
            None
        }
    }

    /// Whether `handle` stands for a block that is handed out.
    pub fn is_allocated(&self, handle: usize) -> (r: bool)
        requires
            self.wf(),
        ensures
            r == self@.is_allocated(handle),
    {
        proof {
            self.lemma_handles();
        }
        handle < self.blocks.len() && self.blocks[handle].is_used()
    }

    /// The record of the block of `handle`, where it stands for a block.
    ///
    /// Its links are the handles of its neighbours in the chain and, for a
    /// free block, in the free list of its class.
    pub fn block(&self, handle: usize) -> (r: Option<BlockHeader>)
        requires
            self.wf(),
        ensures
            r.is_some() == self@.has(handle),
            match r {
                Some(b) => {
                    let k = self@.position(handle);
                    let region = self@.chain[k];
                    let list = self@.lists[class_index(b.size)];
                    let j = list.index_of(handle);
                    &&& region == self@.region(handle)
                    &&& b.offset == region.offset
                    &&& b.size == region.size
                    &&& b.start() == region.start
                    &&& b.end() == region.end
                    &&& b.state == (if region.free {
                        BlockState::Free
                    } else {
                        BlockState::Used
                    })
                    &&& b.prev_physical == (if k == 0 {
                        None
                    } else {
                        Some(self@.chain[k - 1].handle)
                    })
                    &&& b.next_physical == (if k == self@.chain.len() - 1 {
                        None
                    } else {
                        Some(self@.chain[k + 1].handle)
                    })
                    &&& b.prev_free == (if region.free && j > 0 {
                        Some(list[j - 1])
                    } else {
                        None
                    })
                    &&& b.next_free == (if region.free && j < list.len() - 1 {
                        Some(list[j + 1])
                    } else {
                        None
                    })
                },
                None => true,
            },
    {
        proof {
            self.lemma_handles();
        }
        if handle < self.blocks.len() {
            let record = self.blocks[handle];
            match record.state {
                BlockState::Vacant => None,
                _ => {
                    proof {
                        self.lemma_locate(handle);
                        self.lemma_neighbours(handle);
                        if record.state == BlockState::Free {
                            self.lemma_listed(handle, Set::empty());
                        }
                    }
                    Some(record)
                },
            }
        } else {
            None
        }
    }

    /// The address of the region of `handle`, where it is handed out: the
    /// pool's base and the region's offset.
    pub fn pointer(&self, handle: usize) -> (r: Option<u64>)
        requires
            self.wf(),
        ensures
            r.is_some() == self@.is_allocated(handle),
            r.is_some() ==> r.unwrap() == self@.pool_base + self@.region(handle).offset,
    {
        proof {
            self.lemma_handles();
        }
        if handle < self.blocks.len() && self.blocks[handle].is_used() {
            proof {
                self.lemma_locate(handle);
            }
            Some(self.pool_base + self.blocks[handle].offset)
        } else {
            None
        }
    }

    /// The handle of the block handed out whose region begins at `offset`,
    /// where there is one.
    pub fn handle_at(&self, offset: u64) -> (r: Option<usize>)
        requires
            self.wf(),
        ensures
            match r {
                Some(handle) => {
                    &&& self@.is_allocated(handle)
                    &&& self@.region(handle).offset == offset
                    &&& forall|h: usize|
                        self@.is_allocated(h) && self@.region(h).offset == offset ==> h == handle
                },
                None => forall|h: usize| self@.is_allocated(h) ==> self@.region(h).offset != offset,
            },
    {
        proof {
            self.lemma_handles();
            self.lemma_chain_covers_pool();
            assert forall|h: usize| #[trigger] self@.is_allocated(h) implies self@.region(h).offset
                == self.blocks@[h as int].offset by {
                self.lemma_locate(h);
            }
        }
        let mut i: usize = 0;
        while i < self.blocks.len()
            invariant
                i <= self.blocks@.len(),
                forall|h: usize|
                    h < i ==> !(#[trigger] self@.is_allocated(h) && self.blocks@[h as int].offset
                        == offset),
                forall|h: usize|
                    #[trigger] self@.is_allocated(h) == (h < self.blocks@.len()
                        && self.blocks@[h as int].state == BlockState::Used),
                forall|h: usize| #[trigger]
                    self@.is_allocated(h) ==> self@.region(h).offset == self.blocks@[h as int].offset,
                self@.tiles(),
                self@.distinct(),
            decreases self.blocks@.len() - i,
        {
            let record = self.blocks[i];
            if record.is_used() && record.offset == offset {
                proof {
                    assert(self@.is_allocated(i));
                    assert forall|h: usize|
                        self@.is_allocated(h) && self@.region(h).offset == offset implies h == i by {
                        self@.lemma_offsets_differ(h, i);
                    }
                }
                return Some(i);
            }
            i = i + 1;
        }
        None
    }
}

} // verus!
