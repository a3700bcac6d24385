use speed_allocator::bits::align_forward;
use speed_allocator::bits::bit_scan_msb;
use speed_allocator::bits::is_pow_two;
use speed_allocator::bits::lowest_bit32;
use speed_allocator::bits::lowest_bit64;
use speed_allocator::BlockMap;
use speed_allocator::SpeedAllocator;

fn pool() -> SpeedAllocator {
    SpeedAllocator::new(0, 4096)
}

#[test]
fn msb_of_small_and_large_words() {
    assert_eq!(bit_scan_msb(1), 0);
    assert_eq!(bit_scan_msb(2), 1);
    assert_eq!(bit_scan_msb(3), 1);
    assert_eq!(bit_scan_msb(128), 7);
    assert_eq!(bit_scan_msb(255), 7);
    assert_eq!(bit_scan_msb(256), 8);
    assert_eq!(bit_scan_msb(1 << 62), 62);
    assert_eq!(bit_scan_msb(u64::MAX), 63);
}

#[test]
fn powers_of_two() {
    assert!(!is_pow_two(0));
    assert!(is_pow_two(1));
    assert!(is_pow_two(2));
    assert!(!is_pow_two(3));
    assert!(!is_pow_two(6));
    assert!(is_pow_two(256));
    assert!(!is_pow_two(257));
    assert!(is_pow_two(1 << 63));
    assert!(!is_pow_two(u64::MAX));
}

#[test]
fn align_forward_rounds_up_to_a_multiple() {
    assert_eq!(align_forward(0, 256), 0);
    assert_eq!(align_forward(1, 256), 256);
    assert_eq!(align_forward(128, 256), 256);
    assert_eq!(align_forward(256, 256), 256);
    assert_eq!(align_forward(257, 256), 512);
    assert_eq!(align_forward(129, 8), 136);
    assert_eq!(align_forward(77, 1), 77);
    assert_eq!(align_forward(u64::MAX, 1), u64::MAX);
}

#[test]
fn lowest_set_bit() {
    assert_eq!(lowest_bit32(1), 0);
    assert_eq!(lowest_bit32(0b1000), 3);
    assert_eq!(lowest_bit32(0b1010_0000), 5);
    assert_eq!(lowest_bit32(1 << 31), 31);
    assert_eq!(lowest_bit64(1), 0);
    assert_eq!(lowest_bit64(1 << 40), 40);
    assert_eq!(lowest_bit64((1 << 40) | (1 << 50)), 40);
    assert_eq!(lowest_bit64(1 << 63), 63);
}

#[test]
fn binmap_down_exact_values() {
    let a = pool();
    assert_eq!(
        a.binmap_down(128),
        BlockMap { bin_idx: 1, sub_bin_idx: 0, rounded_size: 128, flat_idx: 32 }
    );
    assert_eq!(
        a.binmap_down(131),
        BlockMap { bin_idx: 1, sub_bin_idx: 0, rounded_size: 131, flat_idx: 32 }
    );
    assert_eq!(
        a.binmap_down(132),
        BlockMap { bin_idx: 1, sub_bin_idx: 1, rounded_size: 132, flat_idx: 33 }
    );
    assert_eq!(
        a.binmap_down(200),
        BlockMap { bin_idx: 1, sub_bin_idx: 18, rounded_size: 200, flat_idx: 50 }
    );
    assert_eq!(
        a.binmap_down(255),
        BlockMap { bin_idx: 1, sub_bin_idx: 31, rounded_size: 255, flat_idx: 63 }
    );
    assert_eq!(
        a.binmap_down(256),
        BlockMap { bin_idx: 2, sub_bin_idx: 0, rounded_size: 256, flat_idx: 64 }
    );
    assert_eq!(
        a.binmap_down(3968),
        BlockMap { bin_idx: 5, sub_bin_idx: 30, rounded_size: 3968, flat_idx: 190 }
    );
    assert_eq!(
        a.binmap_down(4096),
        BlockMap { bin_idx: 6, sub_bin_idx: 0, rounded_size: 4096, flat_idx: 192 }
    );
}

#[test]
fn binmap_down_below_the_minimum_is_linear() {
    let a = pool();
    assert_eq!(
        a.binmap_down(0),
        BlockMap { bin_idx: 0, sub_bin_idx: 0, rounded_size: 0, flat_idx: 0 }
    );
    assert_eq!(
        a.binmap_down(100),
        BlockMap { bin_idx: 0, sub_bin_idx: 25, rounded_size: 100, flat_idx: 25 }
    );
    assert_eq!(
        a.binmap_down(127),
        BlockMap { bin_idx: 0, sub_bin_idx: 31, rounded_size: 127, flat_idx: 31 }
    );
}

#[test]
fn binmap_down_at_the_top() {
    let a = pool();
    assert_eq!(
        a.binmap_down(1 << 62),
        BlockMap { bin_idx: 56, sub_bin_idx: 0, rounded_size: 1 << 62, flat_idx: 1792 }
    );
    let top = (1u64 << 63) - 1;
    assert_eq!(
        a.binmap_down(top),
        BlockMap { bin_idx: 56, sub_bin_idx: 31, rounded_size: top, flat_idx: 1823 }
    );
}

#[test]
fn binmap_up_exact_values() {
    let a = pool();
    assert_eq!(
        a.binmap_up(128),
        BlockMap { bin_idx: 1, sub_bin_idx: 0, rounded_size: 128, flat_idx: 32 }
    );
    assert_eq!(
        a.binmap_up(129),
        BlockMap { bin_idx: 1, sub_bin_idx: 1, rounded_size: 132, flat_idx: 33 }
    );
    assert_eq!(
        a.binmap_up(200),
        BlockMap { bin_idx: 1, sub_bin_idx: 18, rounded_size: 200, flat_idx: 50 }
    );
    assert_eq!(
        a.binmap_up(253),
        BlockMap { bin_idx: 2, sub_bin_idx: 0, rounded_size: 256, flat_idx: 64 }
    );
    assert_eq!(
        a.binmap_up(257),
        BlockMap { bin_idx: 2, sub_bin_idx: 1, rounded_size: 264, flat_idx: 65 }
    );
    assert_eq!(
        a.binmap_up(4096),
        BlockMap { bin_idx: 6, sub_bin_idx: 0, rounded_size: 4096, flat_idx: 192 }
    );
    assert_eq!(
        a.binmap_up(1 << 62),
        BlockMap { bin_idx: 56, sub_bin_idx: 0, rounded_size: 1 << 62, flat_idx: 1792 }
    );
}

#[test]
fn binmap_up_beyond_the_table() {
    let a = pool();
    let top = (1u64 << 63) - 1;
    assert_eq!(
        a.binmap_up(top),
        BlockMap { bin_idx: 57, sub_bin_idx: 0, rounded_size: 1 << 63, flat_idx: 1824 }
    );
}

#[test]
fn round_up_then_down_gives_the_same_class() {
    let a = pool();
    let mut sizes: Vec<u64> = vec![128, 129, 130, 131, 132, 200, 255, 256, 257, 1000, 4095, 4096];
    let mut shift = 7;
    while shift <= 62 {
        let base = 1u64 << shift;
        sizes.push(base);
        sizes.push(base + 1);
        sizes.push(base + (base >> 1));
        if shift < 62 {
            sizes.push(base + (base - 1));
        }
        shift += 1;
    }
    for size in sizes {
        if size > (1u64 << 62) {
            continue;
        }
        let up = a.binmap_up(size);
        assert!(up.rounded_size >= size, "size {}", size);
        let down = a.binmap_down(up.rounded_size);
        assert_eq!(down.bin_idx, up.bin_idx, "size {}", size);
        assert_eq!(down.sub_bin_idx, up.sub_bin_idx, "size {}", size);
        assert_eq!(down.flat_idx, up.flat_idx, "size {}", size);
        assert_eq!(up.flat_idx, up.bin_idx * 32 + up.sub_bin_idx);
        if up.rounded_size > size {
            assert!(a.binmap_down(size).flat_idx < up.flat_idx, "size {}", size);
        }
    }
}

#[test]
fn binmap_down_is_monotone() {
    let a = pool();
    let mut last = a.binmap_down(128).flat_idx;
    let mut size: u64 = 128;
    while size < 70000 {
        let now = a.binmap_down(size).flat_idx;
        assert!(now >= last, "size {}", size);
        assert!(now - last <= 1, "size {}", size);
        last = now;
        size += 1;
    }
}
