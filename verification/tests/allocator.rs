use speed_allocator::AllocError;
use speed_allocator::BlockHeader;
use speed_allocator::BlockState;
use speed_allocator::SpeedAllocator;

const POOL: u64 = 4096;

fn pool() -> SpeedAllocator {
    SpeedAllocator::new(0, POOL)
}

/// All blocks in address order, each with its handle.
fn chain(a: &SpeedAllocator) -> Vec<(usize, BlockHeader)> {
    let mut any = 0usize;
    while a.block(any).is_none() {
        any += 1;
        assert!(any < 100_000, "no block found");
    }
    let mut first = any;
    while let Some(prev) = a.block(first).unwrap().prev_physical {
        first = prev;
    }
    let mut out = Vec::new();
    let mut at = Some(first);
    while let Some(h) = at {
        let b = a.block(h).unwrap();
        out.push((h, b));
        at = b.next_physical;
        assert!(out.len() < 100_000, "the chain does not end");
    }
    out
}

/// The handles of a free list, head first.
fn free_list(a: &SpeedAllocator, class: usize) -> Vec<usize> {
    let mut out = Vec::new();
    let mut at = a.free_list_head(class);
    while let Some(h) = at {
        out.push(h);
        at = a.block(h).unwrap().next_free;
        assert!(out.len() < 100_000, "the free list does not end");
    }
    out
}

/// (offset, size, free) of every block, in address order.
fn layout(a: &SpeedAllocator) -> Vec<(u64, u64, bool)> {
    chain(a).iter().map(|(_, b)| (b.offset, b.size, b.state == BlockState::Free)).collect()
}

fn check_invariants(a: &SpeedAllocator, pool_size: u64) {
    let blocks = chain(a);
    // the chain covers the pool
    assert!(!blocks.is_empty());
    let mut at = 0u64;
    for (_, b) in &blocks {
        assert_eq!(b.offset - b.adjustment, at);
        assert!(b.size >= 128);
        at = b.offset + b.size + b.slack;
        if b.state == BlockState::Free {
            assert_eq!(b.adjustment, 0);
            assert_eq!(b.slack, 0);
        }
    }
    assert_eq!(at, pool_size);
    // links of the chain
    for i in 0..blocks.len() {
        let prev = if i == 0 { None } else { Some(blocks[i - 1].0) };
        let next = if i + 1 == blocks.len() { None } else { Some(blocks[i + 1].0) };
        assert_eq!(blocks[i].1.prev_physical, prev);
        assert_eq!(blocks[i].1.next_physical, next);
    }
    // no two free neighbours
    for i in 1..blocks.len() {
        assert!(
            !(blocks[i - 1].1.state == BlockState::Free && blocks[i].1.state == BlockState::Free)
        );
    }
    // bitmaps and free lists
    let bin_bitmap = a.bin_bitmap();
    let mut listed = 0usize;
    for bin in 0..64usize {
        let word = a.sub_bin_bitmap(bin);
        assert_eq!((bin_bitmap >> bin) & 1 == 1, word != 0, "bin {}", bin);
        if bin >= 57 {
            continue;
        }
        for sub in 0..32usize {
            let class = bin * 32 + sub;
            let list = free_list(a, class);
            assert_eq!((word >> sub) & 1 == 1, !list.is_empty(), "class {}", class);
            assert_eq!(a.free_list_head(class).is_some(), !list.is_empty());
            for (i, h) in list.iter().enumerate() {
                let b = a.block(*h).unwrap();
                assert_eq!(b.state, BlockState::Free);
                assert_eq!(a.binmap_down(b.size).flat_idx, class);
                let prev = if i == 0 { None } else { Some(list[i - 1]) };
                assert_eq!(b.prev_free, prev);
                assert!(blocks.iter().any(|(k, _)| k == h));
                assert_eq!(list.iter().filter(|x| *x == h).count(), 1);
            }
            listed += list.len();
        }
    }
    // every free block is filed under its class
    let mut free = 0usize;
    let mut used = 0usize;
    for (h, b) in &blocks {
        if b.state == BlockState::Free {
            free += 1;
            assert!(free_list(a, a.binmap_down(b.size).flat_idx).contains(h));
            assert!(!a.is_allocated(*h));
            assert_eq!(a.pointer(*h), None);
        } else {
            used += 1;
            assert_eq!(b.state, BlockState::Used);
            assert_eq!(b.prev_free, None);
            assert_eq!(b.next_free, None);
            assert!(a.is_allocated(*h));
            assert_eq!(a.pointer(*h), Some(a.pool_base() + b.offset));
        }
    }
    assert_eq!(listed, free);
    assert_eq!(a.stats(), (used, free));
}

fn check_fresh(a: &SpeedAllocator, pool_size: u64) {
    check_invariants(a, pool_size);
    assert_eq!(layout(a), vec![(0, pool_size, true)]);
    assert_eq!(a.stats(), (0, 1));
    let class = a.binmap_down(pool_size);
    assert_eq!(a.bin_bitmap(), 1u64 << class.bin_idx);
    assert_eq!(a.sub_bin_bitmap(class.bin_idx), 1u32 << class.sub_bin_idx);
    assert_eq!(free_list(a, class.flat_idx).len(), 1);
}

fn offset_of(a: &SpeedAllocator, handle: usize) -> u64 {
    a.block(handle).unwrap().offset
}

#[test]
fn new_pool_is_one_free_block() {
    let a = pool();
    check_fresh(&a, POOL);
    assert_eq!(a.pool_base(), 0);
    assert_eq!(a.pool_size(), POOL);
    assert_eq!(a.free_list_head(192), Some(0));
    assert_eq!(a.bin_bitmap(), 1 << 6);
    assert_eq!(a.sub_bin_bitmap(6), 1);
    let b = a.block(0).unwrap();
    assert_eq!(b.offset, 0);
    assert_eq!(b.size, 4096);
    assert_eq!(b.state, BlockState::Free);
    assert_eq!(b.prev_physical, None);
    assert_eq!(b.next_physical, None);
    assert_eq!(b.prev_free, None);
    assert_eq!(b.next_free, None);
}

#[test]
fn new_pool_of_the_smallest_size() {
    let a = SpeedAllocator::new(1 << 20, 128);
    check_fresh(&a, 128);
    assert_eq!(a.free_list_head(32), Some(0));
}

#[test]
fn new_pool_of_the_largest_size() {
    let size = (1u64 << 63) - 1;
    let mut a = SpeedAllocator::new(0, size);
    check_fresh(&a, size);
    assert_eq!(a.free_list_head(1823), Some(0));
    let h = a.allocate(1 << 62, 1 << 62).unwrap();
    assert_eq!(layout(&a), vec![(0, 1 << 62, false), (1 << 62, size - (1 << 62), true)]);
    check_invariants(&a, size);
    a.deallocate(h);
    check_fresh(&a, size);
}

#[test]
fn allocate_splits_off_the_remainder() {
    let mut a = pool();
    let h = a.allocate(128, 8).unwrap();
    assert_eq!(offset_of(&a, h), 0);
    assert_eq!(a.pointer(h), Some(0));
    assert_eq!(layout(&a), vec![(0, 128, false), (128, 3968, true)]);
    assert_eq!(a.stats(), (1, 1));
    let rest = a.free_list_head(190).unwrap();
    let b = a.block(rest).unwrap();
    assert_eq!((b.offset, b.size), (128, 3968));
    check_invariants(&a, POOL);
}

#[test]
fn freeing_between_used_blocks_does_not_merge() {
    let mut a = pool();
    let first = a.allocate(128, 8).unwrap();
    let middle = a.allocate(128, 8).unwrap();
    let last = a.allocate(128, 8).unwrap();
    assert_eq!(offset_of(&a, first), 0);
    assert_eq!(offset_of(&a, middle), 128);
    assert_eq!(offset_of(&a, last), 256);
    a.deallocate(middle);
    assert_eq!(
        layout(&a),
        vec![(0, 128, false), (128, 128, true), (256, 128, false), (384, 3712, true)]
    );
    let list = free_list(&a, 32);
    assert_eq!(list.len(), 1);
    let b = a.block(list[0]).unwrap();
    assert_eq!((b.offset, b.size), (128, 128));
    assert!(a.is_allocated(first));
    assert!(a.is_allocated(last));
    assert!(!a.is_allocated(middle));
    assert_eq!(a.stats(), (2, 2));
    check_invariants(&a, POOL);
}

#[test]
fn freeing_next_to_a_free_block_merges() {
    let mut a = pool();
    let first = a.allocate(128, 8).unwrap();
    let middle = a.allocate(128, 8).unwrap();
    let _last = a.allocate(128, 8).unwrap();
    a.deallocate(middle);
    a.deallocate(first);
    assert_eq!(layout(&a), vec![(0, 256, true), (256, 128, false), (384, 3712, true)]);
    assert_eq!(free_list(&a, 32), Vec::<usize>::new());
    let list = free_list(&a, 64);
    assert_eq!(list.len(), 1);
    let b = a.block(list[0]).unwrap();
    assert_eq!((b.offset, b.size), (0, 256));
    assert_eq!(a.stats(), (1, 2));
    check_invariants(&a, POOL);
}

#[test]
fn freeing_between_two_free_blocks_merges_both() {
    let mut a = pool();
    let first = a.allocate(128, 8).unwrap();
    let middle = a.allocate(128, 8).unwrap();
    let last = a.allocate(128, 8).unwrap();
    let guard = a.allocate(128, 8).unwrap();
    a.deallocate(first);
    a.deallocate(last);
    assert_eq!(a.stats(), (2, 3));
    a.deallocate(middle);
    assert_eq!(layout(&a), vec![(0, 384, true), (384, 128, false), (512, 3584, true)]);
    assert_eq!(a.stats(), (1, 2));
    check_invariants(&a, POOL);
    a.deallocate(guard);
    check_fresh(&a, POOL);
}

#[test]
fn aligned_request_on_a_fresh_pool_needs_no_padding() {
    let mut a = pool();
    let h = a.allocate(200, 256).unwrap();
    assert_eq!(offset_of(&a, h), 0);
    assert_eq!(layout(&a), vec![(0, 200, false), (200, 3896, true)]);
    check_invariants(&a, POOL);
}

#[test]
fn alignment_padding_stays_inside_the_block() {
    let mut a = pool();
    let first = a.allocate(128, 8).unwrap();
    let h = a.allocate(200, 256).unwrap();
    assert_eq!(offset_of(&a, h), 256);
    assert_eq!(a.pointer(h), Some(256));
    let b = a.block(h).unwrap();
    assert_eq!(b.adjustment, 128);
    assert_eq!(b.size, 200);
    assert_eq!(b.slack, 0);
    assert_eq!(layout(&a), vec![(0, 128, false), (256, 200, false), (456, 3640, true)]);
    check_invariants(&a, POOL);
    a.deallocate(h);
    assert_eq!(layout(&a), vec![(0, 128, false), (128, 3968, true)]);
    check_invariants(&a, POOL);
    a.deallocate(first);
    check_fresh(&a, POOL);
}

#[test]
fn returned_offsets_are_aligned() {
    let mut a = SpeedAllocator::new(1 << 16, 1 << 20);
    let mut alignment = 1u64;
    let mut handles = Vec::new();
    while alignment <= 4096 {
        let h = a.allocate(130, alignment).unwrap();
        let offset = offset_of(&a, h);
        assert_eq!(offset % alignment, 0);
        assert_eq!(a.pointer(h).unwrap() % alignment, 0);
        assert_eq!(a.pointer(h).unwrap(), (1 << 16) + offset);
        handles.push(h);
        alignment *= 2;
    }
    check_invariants(&a, 1 << 20);
    for h in handles {
        a.deallocate(h);
    }
    check_fresh(&a, 1 << 20);
}

#[test]
fn whole_pool_then_out_of_memory() {
    let mut a = pool();
    let h = a.allocate(4096, 8).unwrap();
    assert_eq!(layout(&a), vec![(0, 4096, false)]);
    assert_eq!(a.stats(), (1, 0));
    assert_eq!(a.bin_bitmap(), 0);
    assert_eq!(a.allocate(128, 8), Err(AllocError::OutOfMemory));
    assert_eq!(a.stats(), (1, 0));
    check_invariants(&a, POOL);
    a.deallocate(h);
    check_fresh(&a, POOL);
}

#[test]
fn free_then_allocate_again_gives_the_same_offset() {
    let mut a = pool();
    let h = a.allocate(200, 8).unwrap();
    let offset = offset_of(&a, h);
    a.deallocate(h);
    let again = a.allocate(200, 8).unwrap();
    assert_eq!(offset_of(&a, again), offset);
    assert_eq!(offset, 0);
}

#[test]
fn free_list_is_last_in_first_out() {
    let mut a = pool();
    let mut used = Vec::new();
    for _ in 0..6 {
        used.push(a.allocate(128, 8).unwrap());
    }
    a.deallocate(used[1]);
    a.deallocate(used[3]);
    assert_eq!(free_list(&a, 32), vec![used[3], used[1]]);
    check_invariants(&a, POOL);
    let h = a.allocate(128, 8).unwrap();
    assert_eq!(offset_of(&a, h), 384);
    let h = a.allocate(128, 8).unwrap();
    assert_eq!(offset_of(&a, h), 128);
    check_invariants(&a, POOL);
}

#[test]
fn removing_from_the_middle_of_a_free_list_keeps_the_bits() {
    let mut a = pool();
    let mut used = Vec::new();
    for _ in 0..8 {
        used.push(a.allocate(128, 8).unwrap());
    }
    a.deallocate(used[1]);
    a.deallocate(used[3]);
    a.deallocate(used[5]);
    assert_eq!(free_list(&a, 32), vec![used[5], used[3], used[1]]);
    // the block at 384 leaves the middle of the list when its neighbour is freed
    a.deallocate(used[2]);
    assert_eq!(free_list(&a, 32), vec![used[5]]);
    assert_eq!(a.sub_bin_bitmap(1) & 1, 1);
    assert_eq!(
        layout(&a),
        vec![
            (0, 128, false),
            (128, 384, true),
            (512, 128, false),
            (640, 128, true),
            (768, 128, false),
            (896, 128, false),
            (1024, 3072, true),
        ]
    );
    check_invariants(&a, POOL);
}

#[test]
fn remainder_too_small_to_split_becomes_slack() {
    let mut a = pool();
    let h = a.allocate(4000, 8).unwrap();
    let b = a.block(h).unwrap();
    assert_eq!((b.offset, b.size, b.slack), (0, 4000, 96));
    assert_eq!(a.stats(), (1, 0));
    check_invariants(&a, POOL);
    a.deallocate(h);
    check_fresh(&a, POOL);
}

#[test]
fn remainder_of_the_minimum_size_is_split() {
    let mut a = pool();
    let h = a.allocate(4096 - 128, 8).unwrap();
    assert_eq!(layout(&a), vec![(0, 3968, false), (3968, 128, true)]);
    assert_eq!(a.block(h).unwrap().slack, 0);
    check_invariants(&a, POOL);
    let g = a.allocate(4096 - 127, 8);
    assert_eq!(g, Err(AllocError::OutOfMemory));
}

#[test]
fn invalid_requests_change_nothing() {
    let mut a = pool();
    assert_eq!(a.allocate(127, 8), Err(AllocError::InvalidRequest));
    assert_eq!(a.allocate(0, 8), Err(AllocError::InvalidRequest));
    assert_eq!(a.allocate(4097, 8), Err(AllocError::InvalidRequest));
    assert_eq!(a.allocate(128, 0), Err(AllocError::InvalidRequest));
    assert_eq!(a.allocate(128, 3), Err(AllocError::InvalidRequest));
    assert_eq!(a.allocate(128, 24), Err(AllocError::InvalidRequest));
    assert_eq!(a.allocate(100, 3), Err(AllocError::InvalidRequest));
    assert_eq!(a.allocate(u64::MAX, 1), Err(AllocError::InvalidRequest));
    check_fresh(&a, POOL);
}

#[test]
fn block_too_small_after_alignment_is_out_of_memory() {
    let mut a = pool();
    let first = a.allocate(128, 8).unwrap();
    let before = layout(&a);
    assert_eq!(a.allocate(128, 4096), Err(AllocError::OutOfMemory));
    assert_eq!(layout(&a), before);
    assert_eq!(a.stats(), (1, 1));
    assert_eq!(a.free_list_head(190).map(|h| offset_of(&a, h)), Some(128));
    check_invariants(&a, POOL);
    a.deallocate(first);
    check_fresh(&a, POOL);
}

#[test]
fn large_alignment_is_served_where_the_pool_allows() {
    let mut a = SpeedAllocator::new(0, 1 << 16);
    let first = a.allocate(128, 1).unwrap();
    let h = a.allocate(1024, 1 << 15).unwrap();
    assert_eq!(offset_of(&a, h), 1 << 15);
    assert_eq!(a.block(h).unwrap().adjustment, (1 << 15) - 128);
    check_invariants(&a, 1 << 16);
    a.deallocate(first);
    check_invariants(&a, 1 << 16);
    a.deallocate(h);
    check_fresh(&a, 1 << 16);
}

#[test]
fn find_free_block_skips_upward() {
    let mut a = pool();
    let map = a.find_free_block(128).unwrap();
    assert_eq!((map.bin_idx, map.sub_bin_idx, map.flat_idx), (6, 0, 192));
    assert_eq!(map.rounded_size, 128);
    let map = a.find_free_block(129).unwrap();
    assert_eq!((map.bin_idx, map.sub_bin_idx, map.flat_idx), (6, 0, 192));
    assert_eq!(map.rounded_size, 132);
    let _h = a.allocate(128, 8).unwrap();
    let map = a.find_free_block(128).unwrap();
    assert_eq!((map.bin_idx, map.sub_bin_idx, map.flat_idx), (5, 30, 190));
    let map = a.find_free_block(3968).unwrap();
    assert_eq!((map.bin_idx, map.sub_bin_idx, map.flat_idx), (5, 30, 190));
    assert_eq!(a.find_free_block(3969), Err(AllocError::OutOfFreeBlock));
    assert_eq!(a.find_free_block(4096), Err(AllocError::OutOfFreeBlock));
}

#[test]
fn find_free_block_within_one_bin() {
    let mut a = pool();
    let x = a.allocate(128, 8).unwrap();
    let _y = a.allocate(200, 8).unwrap();
    let z = a.allocate(240, 8).unwrap();
    let _w = a.allocate(128, 8).unwrap();
    a.deallocate(x);
    a.deallocate(z);
    assert_eq!(a.sub_bin_bitmap(1), (1 << 0) | (1 << 28));
    let map = a.find_free_block(128).unwrap();
    assert_eq!(map.flat_idx, 32);
    let map = a.find_free_block(129).unwrap();
    assert_eq!((map.bin_idx, map.sub_bin_idx, map.flat_idx), (1, 28, 60));
    let map = a.find_free_block(240).unwrap();
    assert_eq!(map.flat_idx, 60);
    let map = a.find_free_block(241).unwrap();
    assert_eq!(map.bin_idx, 5);
    check_invariants(&a, POOL);
}

#[test]
fn find_free_block_beyond_the_table() {
    let top = (1u64 << 63) - 1;
    let mut a = SpeedAllocator::new(0, top);
    assert_eq!(a.find_free_block(top), Err(AllocError::OutOfFreeBlock));
    assert_eq!(a.allocate(top, 1), Err(AllocError::OutOfMemory));
    check_fresh(&a, top);
}

#[test]
fn a_request_can_miss_a_block_that_would_hold_it() {
    // The free block of 3968 bytes is filed under the class that begins at
    // 3968; a request that rounds up beyond that class does not see it.
    let mut a = pool();
    let _h = a.allocate(128, 8).unwrap();
    assert_eq!(a.allocate(3969, 1), Err(AllocError::OutOfMemory));
    assert!(a.allocate(3968, 1).is_ok());
}

#[test]
fn full_deallocate_in_order() {
    let mut a = pool();
    let mut handles = Vec::new();
    for i in 0..10u64 {
        handles.push(a.allocate(128 + 8 * i, 8).unwrap());
        check_invariants(&a, POOL);
    }
    assert_eq!(a.stats().0, 10);
    for h in handles {
        a.deallocate(h);
        check_invariants(&a, POOL);
    }
    check_fresh(&a, POOL);
}

#[test]
fn full_deallocate_in_reverse_order() {
    let mut a = pool();
    let mut handles = Vec::new();
    for i in 0..10u64 {
        handles.push(a.allocate(128 + 24 * i, 16).unwrap());
    }
    handles.reverse();
    for h in handles {
        a.deallocate(h);
        check_invariants(&a, POOL);
    }
    check_fresh(&a, POOL);
}

#[test]
fn full_deallocate_in_mixed_order() {
    let mut a = SpeedAllocator::new(4096, 1 << 16);
    let mut handles = Vec::new();
    let mut seed = 12345u64;
    for _ in 0..40 {
        seed = seed.wrapping_mul(6364136223846793005).wrapping_add(1442695040888963407);
        let size = 128 + (seed >> 33) % 1500;
        seed = seed.wrapping_mul(6364136223846793005).wrapping_add(1442695040888963407);
        let alignment = 1u64 << ((seed >> 33) % 8);
        if let Ok(h) = a.allocate(size, alignment) {
            assert_eq!(offset_of(&a, h) % alignment, 0);
            assert_eq!(a.block(h).unwrap().size, size);
            handles.push(h);
        }
        check_invariants(&a, 1 << 16);
    }
    assert!(handles.len() > 10);
    while !handles.is_empty() {
        seed = seed.wrapping_mul(6364136223846793005).wrapping_add(1442695040888963407);
        let at = ((seed >> 33) as usize) % handles.len();
        let h = handles.swap_remove(at);
        a.deallocate(h);
        check_invariants(&a, 1 << 16);
    }
    check_fresh(&a, 1 << 16);
}

#[test]
fn interleaved_allocate_and_deallocate() {
    let mut a = SpeedAllocator::new(0, 1 << 14);
    let mut handles: Vec<usize> = Vec::new();
    let mut seed = 99u64;
    for step in 0..400 {
        seed = seed.wrapping_mul(6364136223846793005).wrapping_add(1442695040888963407);
        let choice = (seed >> 40) % 3;
        if choice < 2 || handles.is_empty() {
            seed = seed.wrapping_mul(6364136223846793005).wrapping_add(1442695040888963407);
            let size = 128 + (seed >> 33) % 700;
            let alignment = 1u64 << (step % 10);
            match a.allocate(size, alignment) {
                Ok(h) => {
                    assert!(!handles.contains(&h));
                    assert_eq!(offset_of(&a, h) % alignment, 0);
                    handles.push(h);
                },
                Err(e) => assert_eq!(e, AllocError::OutOfMemory),
            }
        } else {
            seed = seed.wrapping_mul(6364136223846793005).wrapping_add(1442695040888963407);
            let at = ((seed >> 33) as usize) % handles.len();
            let h = handles.swap_remove(at);
            a.deallocate(h);
        }
        assert_eq!(a.stats().0, handles.len());
        check_invariants(&a, 1 << 14);
    }
    for h in handles {
        a.deallocate(h);
    }
    check_fresh(&a, 1 << 14);
}

#[test]
fn used_regions_do_not_overlap() {
    let mut a = SpeedAllocator::new(0, 1 << 14);
    let mut handles = Vec::new();
    for i in 0..30u64 {
        if let Ok(h) = a.allocate(128 + 37 * i, 1 << (i % 7)) {
            handles.push(h);
        }
    }
    let mut regions: Vec<(u64, u64)> =
        handles.iter().map(|h| a.block(*h).unwrap()).map(|b| (b.offset, b.size)).collect();
    regions.sort();
    for i in 1..regions.len() {
        assert!(regions[i - 1].0 + regions[i - 1].1 <= regions[i].0);
    }
    assert!(regions.last().unwrap().0 + regions.last().unwrap().1 <= 1 << 14);
}

#[test]
fn record_slots_are_taken_again() {
    let mut a = pool();
    let first = a.allocate(128, 8).unwrap();
    let second = a.allocate(128, 8).unwrap();
    assert!(a.block(3).is_none());
    a.deallocate(second);
    a.deallocate(first);
    check_fresh(&a, POOL);
    let again = a.allocate(128, 8).unwrap();
    let next = a.allocate(128, 8).unwrap();
    assert!(a.block(again).is_some());
    assert!(a.block(next).is_some());
    assert!(a.block(3).is_none());
    check_invariants(&a, POOL);
}

#[test]
fn block_of_an_unknown_handle_is_none() {
    let a = pool();
    assert!(a.block(1).is_none());
    assert!(a.block(usize::MAX).is_none());
    assert!(!a.is_allocated(1));
    assert!(!a.is_allocated(0));
    assert_eq!(a.pointer(0), None);
    assert_eq!(a.pointer(usize::MAX), None);
    assert_eq!(a.free_list_head(1824), None);
    assert_eq!(a.sub_bin_bitmap(57), 0);
}

#[test]
fn block_header_marks() {
    let mut b = BlockHeader {
        size: 200,
        offset: 256,
        adjustment: 128,
        slack: 40,
        state: BlockState::Used,
        prev_physical: Some(1),
        next_physical: Some(2),
        prev_free: None,
        next_free: None,
    };
    assert!(!b.is_free());
    assert!(b.is_used());
    b.mark_free();
    assert!(b.is_free());
    assert_eq!((b.offset, b.size, b.adjustment, b.slack), (128, 368, 0, 0));
    assert_eq!((b.prev_physical, b.next_physical), (Some(1), Some(2)));
    b.prev_free = Some(7);
    b.next_free = Some(8);
    b.mark_used(16, 3);
    assert!(b.is_used());
    assert_eq!((b.offset, b.size, b.adjustment, b.slack), (128, 368, 16, 3));
    assert_eq!((b.prev_free, b.next_free), (None, None));
}

#[test]
fn handle_at_finds_the_block_of_an_offset() {
    let mut a = pool();
    let first = a.allocate(128, 8).unwrap();
    let second = a.allocate(200, 256).unwrap();
    let third = a.allocate(128, 8).unwrap();
    assert_eq!(a.handle_at(0), Some(first));
    assert_eq!(a.handle_at(256), Some(second));
    assert_eq!(a.handle_at(456), Some(third));
    // the padding before a region is not its beginning
    assert_eq!(a.handle_at(128), None);
    assert_eq!(a.handle_at(1), None);
    // a free block is not handed out
    assert_eq!(a.handle_at(584), None);
    a.deallocate(second);
    assert_eq!(a.handle_at(256), None);
    assert_eq!(a.handle_at(0), Some(first));
    assert_eq!(a.handle_at(456), Some(third));
    assert_eq!(a.handle_at(u64::MAX), None);
}
