//! The size mapper: from a byte size to its two-level size class, rounding
//! down (to file a block) or up (to find a block that surely fits).

use vstd::prelude::*;
use crate::bits::msb_index;
use crate::bits::lemma_msb_index;
use crate::bits::lemma_msb_index_is;

verus! {

/// Binary logarithm of the smallest block size.
pub const LINEAR: u64 = 7;

/// Binary logarithm of the number of sub-bins per bin.
pub const SUB_BIN: u64 = 5;

/// Number of top-level bins.
pub const BIN_COUNT: usize = 57;

/// Number of sub-bins in each bin.
pub const SUB_BIN_COUNT: usize = 32;

/// Number of size classes, and the length of the free-list table.
pub const CLASS_COUNT: usize = 1824;

/// The smallest size of a block, and of a request.
pub const MIN_ALLOC_SIZE: u64 = 128;

/// The largest size that the bins address.
pub const MAX_POOL_SIZE: u64 = 0x7fff_ffff_ffff_ffff;

/// A size class: bin, sub-bin, the size it was computed for (rounded up to
/// the class boundary by the round-up mapping) and the class's flat index
/// `bin_idx * SUB_BIN_COUNT + sub_bin_idx`.
#[derive(Clone, Copy, Debug, PartialEq, Eq, Structural)]
pub struct BlockMap {
    pub bin_idx: usize,
    pub sub_bin_idx: usize,
    pub rounded_size: u64,
    pub flat_idx: usize,
}

/// Shift that leaves the sub-bin digits of `size`, with the leading bit on top.
pub open spec fn class_shift(size: u64) -> u64 {
    (msb_index(size | MIN_ALLOC_SIZE) - SUB_BIN) as u64
}

/// The class of `size` with its leading digits `sub`, which are `size`
/// shifted by `class_shift(size)` and may have spilled into bit `SUB_BIN + 1`.
pub open spec fn class_of(size: u64, sub: u64, rounded: u64) -> BlockMap {
    let bin = msb_index(size | MIN_ALLOC_SIZE) - LINEAR + (sub >> SUB_BIN);
    let sub_bin = sub & 31;
    BlockMap {
        bin_idx: bin as usize,
        sub_bin_idx: sub_bin as usize,
        rounded_size: rounded,
        flat_idx: (bin * 32 + sub_bin) as usize,
    }
}

/// Round-down mapping: the class under which a block of `size` bytes is filed.
pub open spec fn spec_binmap_down(size: u64) -> BlockMap {
    class_of(size, size >> class_shift(size), size)
}

/// One less than the width of the class of `size`: the digits of a size
/// below its sub-bin digits.
pub open spec fn class_mask(size: u64) -> u64 {
    ((1u64 << class_shift(size)) - 1) as u64
}

/// `size` pushed up by one class width less one.
pub open spec fn pushed_up(size: u64) -> u64 {
    (size + class_mask(size)) as u64
}

/// Round-up mapping: the smallest class all of whose blocks hold `size` bytes.
pub open spec fn spec_binmap_up(size: u64) -> BlockMap {
    class_of(size, pushed_up(size) >> class_shift(size), pushed_up(size) & !class_mask(size))
}

/// Flat index of the class under which a block of `size` bytes is filed.
pub open spec fn class_index(size: u64) -> int {
    spec_binmap_down(size).flat_idx as int
}

/// What the clamp to `MIN_ALLOC_SIZE` gives for any size: the leading bit
/// is at position `LINEAR` or above, and the shifted size has at most one
/// digit beyond the sub-bin digits.
pub proof fn lemma_clamped_bits(size: u64, m: u64)
    by (bit_vector)
    requires
        m < 64,
        (size | 128) >> m == 1,
    ensures
        7 <= m,
        size >> ((m - 5) as u64) < 64,
        (size >> ((m - 5) as u64)) >> 5 <= 1,
        (size >> ((m - 5) as u64)) & 31 < 32,
{
}

/// What pushing a size up by its class width less one gives: no overflow
/// below `MAX_POOL_SIZE`, and at most two digits beyond the sub-bin digits.
pub proof fn lemma_pushed_bits(size: u64, m: u64)
    by (bit_vector)
    requires
        m < 64,
        (size | 128) >> m == 1,
        size <= 0x7fff_ffff_ffff_ffffu64,
    ensures
        m <= 62,
        1u64 << ((m - 5) as u64) >= 1,
        size + ((1u64 << ((m - 5) as u64)) - 1) <= 0xffff_ffff_ffff_ffffu64,
        ((size + ((1u64 << ((m - 5) as u64)) - 1)) as u64) >> ((m - 5) as u64) <= 64,
        (((size + ((1u64 << ((m - 5) as u64)) - 1)) as u64) >> ((m - 5) as u64)) >> 5 <= 2,
        (((size + ((1u64 << ((m - 5) as u64)) - 1)) as u64) >> ((m - 5) as u64)) & 31 < 32,
{
}

/// The clamped size is never zero, and a size below `MIN_ALLOC_SIZE` has
/// its leading bit clamped to position `LINEAR`.
pub proof fn lemma_small_bits(size: u64)
    by (bit_vector)
    ensures
        (size | 128) != 0,
        size < 128 ==> (size | 128) >> 7 == 1 && (size >> 2) < 32 && (size >> 2) >> 5 == 0 && (size
            >> 2) & 31 == size >> 2,
{
}

/// The digits of a size of at least `MIN_ALLOC_SIZE` whose leading bit is at
/// `m`: the shifted size is its sub-bin digits with the leading bit on top,
/// and the size lies in the class that they name.
proof fn lemma_down_bits(size: u64, m: u64)
    by (bit_vector)
    requires
        size >= 128,
        m < 64,
        size >> m == 1,
    ensures
        7 <= m,
        (size | 128) >> m == 1,
        size <= 0x7fff_ffff_ffff_ffffu64 <==> m <= 62,
        32 <= size >> ((m - 5) as u64) < 64,
        (size >> ((m - 5) as u64)) >> 5 == 1,
        (size >> ((m - 5) as u64)) & 31 == (size >> ((m - 5) as u64)) - 32,
        (size >> ((m - 5) as u64)) << ((m - 5) as u64) <= size,
        size - ((size >> ((m - 5) as u64)) << ((m - 5) as u64)) < 1u64 << ((m - 5) as u64),
{
}

/// A larger size has its leading bit no lower, and with the same leading
/// bit its shifted size is no smaller.
proof fn lemma_monotone_bits(a: u64, b: u64, m: u64, n: u64)
    by (bit_vector)
    requires
        m < 64,
        n < 64,
        5 <= m,
        5 <= n,
        a >> m == 1,
        b >> n == 1,
        a <= b,
    ensures
        m <= n,
        m == n ==> a >> ((m - 5) as u64) <= b >> ((n - 5) as u64),
{
}

/// The digits of a size pushed up by its class width less one.
proof fn lemma_up_bits(size: u64, m: u64)
    by (bit_vector)
    requires
        size >= 128,
        size <= 0x7fff_ffff_ffff_ffffu64,
        m < 64,
        size >> m == 1,
    ensures
        ({
            let t = (m - 5) as u64;
            let off = ((1u64 << t) - 1) as u64;
            let pushed = (size + off) as u64;
            let sub = pushed >> t;
            let rounded = pushed & !off;
            &&& 7 <= m <= 62
            &&& 2 <= t
            &&& 1u64 << t >= 1
            &&& size + off <= 0xffff_ffff_ffff_ffffu64
            &&& 32 <= sub <= 64
            &&& rounded >= size
            &&& rounded - size <= off
            &&& rounded == sub << t
            &&& rounded & off == 0
            &&& (sub == 64 ==> rounded >> ((m + 1) as u64) == 1 && rounded >> ((t + 1) as u64)
                == 32 && sub >> 5 == 2 && sub & 31 == 0 && rounded == (rounded >> ((t
                + 1) as u64)) << ((t + 1) as u64))
            &&& (sub < 64 ==> rounded >> m == 1 && rounded >> t == sub && sub >> 5 == 1 && sub
                & 31 == sub - 32 && rounded == (rounded >> t) << t)
        }),
{
}

/// The round-down class of a size in `[MIN_ALLOC_SIZE, MAX_POOL_SIZE]` lies
/// in the table, above the linear bin, and its flat index is made of its bin
/// and sub-bin.
pub proof fn lemma_binmap_down_range(size: u64)
    requires
        MIN_ALLOC_SIZE <= size <= MAX_POOL_SIZE,
    ensures
        ({
            let map = spec_binmap_down(size);
            &&& 1 <= map.bin_idx < BIN_COUNT
            &&& map.sub_bin_idx < SUB_BIN_COUNT
            &&& map.flat_idx == map.bin_idx * SUB_BIN_COUNT + map.sub_bin_idx
            &&& map.flat_idx < CLASS_COUNT
            &&& map.rounded_size == size
            &&& map.bin_idx == msb_index(size) - 6
            &&& map.sub_bin_idx == (size >> ((msb_index(size) - 5) as u64)) - 32
        }),
{
    lemma_class_shift(size);
    lemma_down_bits(size, msb_index(size));
}

/// For a size that is not below `MIN_ALLOC_SIZE`, the clamp changes nothing:
/// the class shift is taken from the size's own leading bit.
proof fn lemma_class_shift(size: u64)
    requires
        MIN_ALLOC_SIZE <= size,
    ensures
        msb_index(size | MIN_ALLOC_SIZE) == msb_index(size),
        7 <= msb_index(size) < 64,
        size >> msb_index(size) == 1,
        class_shift(size) == msb_index(size) - 5,
{
    lemma_msb_index(size);
    lemma_down_bits(size, msb_index(size));
    lemma_msb_index_is(size | MIN_ALLOC_SIZE, msb_index(size));
}

/// Filing is monotone: a larger block is never filed under a smaller class.
pub proof fn lemma_binmap_down_monotone(a: u64, b: u64)
    requires
        MIN_ALLOC_SIZE <= a <= b <= MAX_POOL_SIZE,
    ensures
        class_index(a) <= class_index(b),
{
    lemma_binmap_down_range(a);
    lemma_binmap_down_range(b);
    lemma_msb_index(a);
    lemma_msb_index(b);
    lemma_monotone_bits(a, b, msb_index(a), msb_index(b));
}

/// The round-up mapping of a size in `[MIN_ALLOC_SIZE, MAX_POOL_SIZE]`: the
/// rounded size is not below the size, exceeds it by less than one class
/// width, is the smallest size of its class, and is filed by the round-down
/// mapping under the very class that the round-up mapping names. That class
/// lies in the table unless the rounded size exceeds `MAX_POOL_SIZE`.
pub proof fn lemma_binmap_up_round_trip(size: u64)
    requires
        MIN_ALLOC_SIZE <= size <= MAX_POOL_SIZE,
    ensures
        ({
            let up = spec_binmap_up(size);
            let down = spec_binmap_down(up.rounded_size);
            &&& up.rounded_size >= size
            &&& up.rounded_size - size <= class_mask(size)
            &&& size + class_mask(size) <= u64::MAX
            &&& up.rounded_size == (up.rounded_size >> class_shift(up.rounded_size))
                << class_shift(up.rounded_size)
            &&& 1 <= up.bin_idx <= BIN_COUNT
            &&& up.sub_bin_idx < SUB_BIN_COUNT
            &&& up.flat_idx == up.bin_idx * SUB_BIN_COUNT + up.sub_bin_idx
            &&& up.bin_idx == BIN_COUNT <==> up.rounded_size > MAX_POOL_SIZE
            &&& down.bin_idx == up.bin_idx
            &&& down.sub_bin_idx == up.sub_bin_idx
            &&& down.flat_idx == up.flat_idx
            &&& down.rounded_size == up.rounded_size
        }),
{
    lemma_class_shift(size);
    let m = msb_index(size);
    lemma_up_bits(size, m);
    let up = spec_binmap_up(size);
    let rounded = up.rounded_size;
    let t = (m - 5) as u64;
    let sub = pushed_up(size) >> t;
    let n = if sub == 64 { (m + 1) as u64 } else { m };
    lemma_msb_index_is(rounded, n);
    lemma_class_shift(rounded);
    lemma_down_bits(rounded, n);
}

/// A block that is at least as large as the rounded-up request is filed at
/// the request's class or above it, and only such a block is; a block filed
/// there holds the request.
pub proof fn lemma_fit_is_upward(size: u64, block_size: u64)
    requires
        MIN_ALLOC_SIZE <= size <= MAX_POOL_SIZE,
        MIN_ALLOC_SIZE <= block_size <= MAX_POOL_SIZE,
    ensures
        block_size >= spec_binmap_up(size).rounded_size <==> class_index(block_size)
            >= spec_binmap_up(size).flat_idx,
        class_index(block_size) >= spec_binmap_up(size).flat_idx ==> block_size >= size,
{
    lemma_binmap_up_round_trip(size);
    let rounded = spec_binmap_up(size).rounded_size;
    lemma_binmap_down_range(block_size);
    if rounded <= MAX_POOL_SIZE {
        lemma_binmap_down_range(rounded);
        if block_size >= rounded {
            lemma_binmap_down_monotone(rounded, block_size);
        } else {
            lemma_below_floor(block_size, rounded);
        }
    }
}

/// A size below a class's smallest size has a lower leading bit or smaller
/// sub-bin digits.
proof fn lemma_floor_bits(a: u64, b: u64, m: u64, n: u64)
    by (bit_vector)
    requires
        m < 64,
        n < 64,
        5 <= m,
        5 <= n,
        a >> m == 1,
        b >> n == 1,
        a < b,
        b == (b >> ((n - 5) as u64)) << ((n - 5) as u64),
    ensures
        m < n || a >> ((m - 5) as u64) < b >> ((n - 5) as u64),
{
}

/// A block smaller than a class's smallest size is filed strictly below it.
proof fn lemma_below_floor(a: u64, b: u64)
    requires
        MIN_ALLOC_SIZE <= a < b <= MAX_POOL_SIZE,
        b == (b >> class_shift(b)) << class_shift(b),
    ensures
        class_index(a) < class_index(b),
{
    lemma_binmap_down_range(a);
    lemma_binmap_down_range(b);
    lemma_class_shift(a);
    lemma_class_shift(b);
    lemma_monotone_bits(a, b, msb_index(a), msb_index(b));
    lemma_floor_bits(a, b, msb_index(a), msb_index(b));
}

} // verus!
