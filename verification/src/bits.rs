//! Bit-level helpers: single-bit tests on bitmap words, the most significant
//! set bit, powers of two and alignment.

use vstd::prelude::*;
use vstd::std_specs::bits::u64_leading_zeros;
use vstd::std_specs::bits::u32_trailing_zeros;
use vstd::std_specs::bits::u64_trailing_zeros;

verus! {

/// Bit `k` of a 32-bit word is set.
pub open spec fn bit32(word: u32, k: int) -> bool {
    0 <= k < 32 && (word >> (k as u32)) & 1u32 == 1u32
}

/// Bit `k` of a 64-bit word is set.
pub open spec fn bit64(word: u64, k: int) -> bool {
    0 <= k < 64 && (word >> (k as u64)) & 1u64 == 1u64
}

/// Index of the most significant set bit, that is the integer part of the
/// binary logarithm; 0 for the words 0 and 1.
pub open spec fn msb_index(x: u64) -> u64
    decreases x,
{
    if x <= 1 {
        0
    } else {
        (1 + msb_index(x / 2)) as u64
    }
}

/// `n` is `1 << k` for some bit position `k`.
pub open spec fn is_power_of_two(n: u64) -> bool {
    exists|k: u64| k < 64 && n == 1u64 << k
}

/// The least multiple of `alignment` that is not below `offset`.
pub open spec fn align_up(offset: int, alignment: int) -> int
    recommends
        alignment > 0,
{
    if offset % alignment == 0 {
        offset
    } else {
        offset + alignment - offset % alignment
    }
}

/// One bit of a 32-bit word after setting, clearing or masking from bit `k`.
proof fn lemma_set_bit32_at(w: u32, k: u32, j: u32)
    by (bit_vector)
    requires
        k < 32,
        j < 32,
    ensures
        ((w | (1u32 << k)) >> j) & 1u32 == 1u32 <==> (j == k || (w >> j) & 1u32 == 1u32),
        ((w & !(1u32 << k)) >> j) & 1u32 == 1u32 <==> (j != k && (w >> j) & 1u32 == 1u32),
        ((w & (!0u32 << k)) >> j) & 1u32 == 1u32 <==> (j >= k && (w >> j) & 1u32 == 1u32),
        (0u32 >> j) & 1u32 != 1u32,
{
}

/// One bit of a 64-bit word after setting, clearing or masking from bit `k`.
proof fn lemma_set_bit64_at(w: u64, k: u64, j: u64)
    by (bit_vector)
    requires
        k < 64,
        j < 64,
    ensures
        ((w | (1u64 << k)) >> j) & 1u64 == 1u64 <==> (j == k || (w >> j) & 1u64 == 1u64),
        ((w & !(1u64 << k)) >> j) & 1u64 == 1u64 <==> (j != k && (w >> j) & 1u64 == 1u64),
        ((w & (!0u64 << k)) >> j) & 1u64 == 1u64 <==> (j >= k && (w >> j) & 1u64 == 1u64),
        (0u64 >> j) & 1u64 != 1u64,
{
}

/// Setting, clearing and masking from bit `k` upward, bit by bit, on a
/// 32-bit word.
pub proof fn lemma_bit32_ops(w: u32, k: u32)
    requires
        k < 32,
    ensures
        forall|j: int| #[trigger] bit32(w | (1u32 << k), j) == (j == k || bit32(w, j)),
        forall|j: int| #[trigger] bit32(w & !(1u32 << k), j) == (j != k && bit32(w, j)),
        forall|j: int| #[trigger] bit32(w & (!0u32 << k), j) == (j >= k && bit32(w, j)),
{
    assert forall|j: int| #[trigger] bit32(w | (1u32 << k), j) == (j == k || bit32(w, j)) by {
        if 0 <= j < 32 {
            lemma_set_bit32_at(w, k, j as u32);
        }
    }
    assert forall|j: int| #[trigger] bit32(w & !(1u32 << k), j) == (j != k && bit32(w, j)) by {
        if 0 <= j < 32 {
            lemma_set_bit32_at(w, k, j as u32);
        }
    }
    assert forall|j: int| #[trigger] bit32(w & (!0u32 << k), j) == (j >= k && bit32(w, j)) by {
        if 0 <= j < 32 {
            lemma_set_bit32_at(w, k, j as u32);
        }
    }
}

/// Setting, clearing and masking from bit `k` upward, bit by bit, on a
/// 64-bit word.
pub proof fn lemma_bit64_ops(w: u64, k: u64)
    requires
        k < 64,
    ensures
        forall|j: int| #[trigger] bit64(w | (1u64 << k), j) == (j == k || bit64(w, j)),
        forall|j: int| #[trigger] bit64(w & !(1u64 << k), j) == (j != k && bit64(w, j)),
        forall|j: int| #[trigger] bit64(w & (!0u64 << k), j) == (j >= k && bit64(w, j)),
{
    assert forall|j: int| #[trigger] bit64(w | (1u64 << k), j) == (j == k || bit64(w, j)) by {
        if 0 <= j < 64 {
            lemma_set_bit64_at(w, k, j as u64);
        }
    }
    assert forall|j: int| #[trigger] bit64(w & !(1u64 << k), j) == (j != k && bit64(w, j)) by {
        if 0 <= j < 64 {
            lemma_set_bit64_at(w, k, j as u64);
        }
    }
    assert forall|j: int| #[trigger] bit64(w & (!0u64 << k), j) == (j >= k && bit64(w, j)) by {
        if 0 <= j < 64 {
            lemma_set_bit64_at(w, k, j as u64);
        }
    }
}

/// A 32-bit word is zero exactly when none of its bits is set.
pub proof fn lemma_zero32(w: u32)
    ensures
        w == 0 <==> (forall|j: int| !bit32(w, j)),
{
    vstd::std_specs::bits::axiom_u32_trailing_zeros(w);
    if w == 0 {
        assert forall|j: int| !bit32(w, j) by {
            if 0 <= j < 32 {
                lemma_set_bit32_at(w, 0, j as u32);
            }
        }
    } else {
        assert(bit32(w, u32_trailing_zeros(w) as int));
    }
}

/// A 64-bit word is zero exactly when none of its bits is set.
pub proof fn lemma_zero64(w: u64)
    ensures
        w == 0 <==> (forall|j: int| !bit64(w, j)),
{
    vstd::std_specs::bits::axiom_u64_trailing_zeros(w);
    if w == 0 {
        assert forall|j: int| !bit64(w, j) by {
            if 0 <= j < 64 {
                lemma_set_bit64_at(w, 0, j as u64);
            }
        }
    } else {
        assert(bit64(w, u64_trailing_zeros(w) as int));
    }
}

/// Position of the lowest set bit of a non-zero 32-bit word.
pub fn lowest_bit32(word: u32) -> (r: u32)
    requires
        word != 0,
    ensures
        bit32(word, r as int),
        forall|j: int| 0 <= j < r ==> !bit32(word, j),
{
    proof {
        vstd::std_specs::bits::axiom_u32_trailing_zeros(word);
        assert forall|j: int| 0 <= j < u32_trailing_zeros(word) implies !bit32(word, j) by {
            assert((word >> (j as u32)) & 1u32 == 0u32);
        }
    }
    word.trailing_zeros()
}

/// Position of the lowest set bit of a non-zero 64-bit word.
pub fn lowest_bit64(word: u64) -> (r: u32)
    requires
        word != 0,
    ensures
        bit64(word, r as int),
        forall|j: int| 0 <= j < r ==> !bit64(word, j),
{
    proof {
        vstd::std_specs::bits::axiom_u64_trailing_zeros(word);
        assert forall|j: int| 0 <= j < u64_trailing_zeros(word) implies !bit64(word, j) by {
            assert((word >> (j as u64)) & 1u64 == 0u64);
        }
    }
    word.trailing_zeros()
}

/// The leading bit of a word is one place above that of its half.
proof fn lemma_msb_step(x: u64, m: u64)
    by (bit_vector)
    requires
        m < 64,
        (x / 2) >> m == 1,
    ensures
        m < 63,
        x >> ((m + 1) as u64) == 1,
{
}

/// Only one shift leaves exactly 1.
proof fn lemma_msb_unique(x: u64, m: u64, n: u64)
    by (bit_vector)
    requires
        m < 64,
        n < 64,
        x >> m == 1,
        x >> n == 1,
    ensures
        m == n,
{
}

/// Shifting a non-zero word right by `msb_index` leaves exactly 1.
pub proof fn lemma_msb_index(x: u64)
    requires
        x != 0,
    ensures
        msb_index(x) < 64,
        x >> msb_index(x) == 1,
    decreases x,
{
    if x <= 1 {
        assert(1u64 >> 0u64 == 1) by (bit_vector);
    } else {
        lemma_msb_index(x / 2);
        lemma_msb_step(x, msb_index(x / 2));
    }
}

/// `msb_index` is the only shift that leaves exactly 1.
pub proof fn lemma_msb_index_is(x: u64, m: u64)
    requires
        m < 64,
        x >> m == 1,
    ensures
        msb_index(x) == m,
{
    assert(x != 0) by (bit_vector)
        requires
            m < 64,
            x >> m == 1,
    ;
    lemma_msb_index(x);
    lemma_msb_unique(x, m, msb_index(x));
}

/// The count of leading zeros of a non-zero word is 63 less its `msb_index`.
proof fn lemma_leading_zeros(x: u64)
    requires
        x != 0,
    ensures
        u64_leading_zeros(x) == 63 - msb_index(x),
        msb_index(x) < 64,
    decreases x,
{
    reveal_with_fuel(u64_leading_zeros, 2);
    lemma_msb_index(x);
    if x > 1 {
        lemma_leading_zeros(x / 2);
    }
}

/// Index of the most significant set bit of a non-zero word.
pub fn bit_scan_msb(mask: u64) -> (r: u32)
    requires
        mask != 0,
    ensures
        r == msb_index(mask),
        r < 64,
        mask >> (r as u64) == 1,
{
    proof {
        lemma_leading_zeros(mask);
        lemma_msb_index(mask);
    }
    63 - mask.leading_zeros()
}

/// A word is `1 << m` exactly when it is not zero, has no bit in common with
/// its predecessor, and has its leading bit at `m`.
proof fn lemma_pow_two_bits(n: u64, m: u64)
    by (bit_vector)
    requires
        m < 64,
    ensures
        n == 1u64 << m ==> 0 < n <= 0x8000_0000_0000_0000u64 && n & ((n - 1) as u64) == 0,
        n > 0 && n & ((n - 1) as u64) == 0 && n >> m == 1 ==> n == 1u64 << m,
{
}

/// A power of two is neither zero nor beyond bit 63.
pub proof fn lemma_power_of_two_range(n: u64)
    requires
        is_power_of_two(n),
    ensures
        0 < n <= 0x8000_0000_0000_0000u64,
{
    let k = choose|k: u64| k < 64 && n == 1u64 << k;
    lemma_pow_two_bits(n, k);
}

/// Whether `num` is a power of two. Zero is not.
pub fn is_pow_two(num: u64) -> (r: bool)
    ensures
        r == is_power_of_two(num),
{
    if num == 0 {
        proof {
            assert forall|k: u64| k < 64 implies 0u64 != 1u64 << k by {
                lemma_pow_two_bits(0, k);
            }
        }
        return false;
    }
    let r = (num & (num - 1)) == 0;
    proof {
        lemma_msb_index(num);
        lemma_pow_two_bits(num, msb_index(num));
        if !r {
            assert forall|k: u64| k < 64 implies num != 1u64 << k by {
                lemma_pow_two_bits(num, k);
            }
        }
    }
    r
}

/// Masking the low bits of `offset + (alignment - 1)` away gives a word
/// between `offset` and `offset + alignment` with no bit below bit `k`.
proof fn lemma_align_bits(offset: u64, alignment: u64, k: u64)
    by (bit_vector)
    requires
        k < 64,
        alignment == 1u64 << k,
        offset + (alignment - 1) <= 0xffff_ffff_ffff_ffffu64,
    ensures
        ({
            let r = ((offset + (alignment - 1)) as u64) & !((alignment - 1) as u64);
            &&& alignment >= 1
            &&& r >= offset
            &&& r - offset < alignment
            &&& r == (r >> k) << k
        }),
{
}

/// A word whose bits below `k` are clear is a multiple of `1 << k`.
proof fn lemma_shifted_is_multiple(r: u64, k: u64)
    requires
        k < 64,
        r == (r >> k) << k,
    ensures
        r % (1u64 << k) == 0,
        1u64 << k > 0,
{
    let p = vstd::arithmetic::power2::pow2(k as nat) as int;
    let q = (r >> k) as int;
    vstd::bits::lemma_u64_pow2_no_overflow(k as nat);
    vstd::arithmetic::power2::lemma_pow2_pos(k as nat);
    vstd::bits::lemma_u64_shl_is_mul(1, k);
    vstd::bits::lemma_u64_shr_is_div(r, k);
    assert(q * p <= r) by (nonlinear_arith)
        requires
            p > 0,
            q == r as int / p,
            r >= 0,
    ;
    vstd::bits::lemma_u64_shl_is_mul(r >> k, k);
    vstd::arithmetic::div_mod::lemma_mod_multiples_basic(q, p);
}

/// A multiple of `alignment` that lies in `[offset, offset + alignment)` is
/// `align_up(offset, alignment)`.
pub proof fn lemma_align_up_is(offset: int, alignment: int, r: int)
    requires
        alignment > 0,
        offset >= 0,
        offset <= r < offset + alignment,
        r % alignment == 0,
    ensures
        r == align_up(offset, alignment),
        align_up(offset, alignment) % alignment == 0,
{
    let q = offset / alignment;
    let rem = offset % alignment;
    assert(offset == alignment * q + rem && 0 <= rem < alignment) by (nonlinear_arith)
        requires
            alignment > 0,
            q == offset / alignment,
            rem == offset % alignment,
    ;
    let p = r / alignment;
    assert(r == alignment * p) by (nonlinear_arith)
        requires
            alignment > 0,
            p == r / alignment,
            r % alignment == 0,
    ;
    if rem == 0 {
        assert(p == q) by (nonlinear_arith)
            requires
                alignment > 0,
                alignment * q <= alignment * p < alignment * q + alignment,
        ;
    } else {
        assert(p == q + 1) by (nonlinear_arith)
            requires
                alignment > 0,
                alignment * q < alignment * p < alignment * q + 2 * alignment,
        ;
        assert(alignment * (q + 1) == alignment * q + alignment) by (nonlinear_arith);
    }
}

/// `align_up` gives a multiple of the alignment, not below the offset and
/// less than one alignment above it.
pub proof fn lemma_align_up(offset: int, alignment: int)
    requires
        alignment > 0,
        offset >= 0,
    ensures
        offset <= align_up(offset, alignment) < offset + alignment,
        align_up(offset, alignment) % alignment == 0,
{
    let q = offset / alignment;
    let rem = offset % alignment;
    assert(offset == alignment * q + rem && 0 <= rem < alignment) by (nonlinear_arith)
        requires
            alignment > 0,
            q == offset / alignment,
            rem == offset % alignment,
    ;
    if rem != 0 {
        assert(align_up(offset, alignment) == (q + 1) * alignment) by (nonlinear_arith)
            requires
                align_up(offset, alignment) == offset + alignment - rem,
                offset == alignment * q + rem,
        ;
        vstd::arithmetic::div_mod::lemma_mod_multiples_basic(q + 1, alignment);
    }
}

/// The sum of two multiples of an alignment is a multiple of it: an aligned
/// offset from an aligned base gives an aligned address.
pub proof fn lemma_aligned_sum(base: int, offset: int, alignment: int)
    requires
        alignment > 0,
        base % alignment == 0,
        offset % alignment == 0,
    ensures
        (base + offset) % alignment == 0,
{
    vstd::arithmetic::div_mod::lemma_mod_adds(base, offset, alignment);
}

/// Rounds `offset` up to the next multiple of `alignment`, a power of two.
pub fn align_forward(offset: u64, alignment: u64) -> (r: u64)
    requires
        is_power_of_two(alignment),
        offset + (alignment - 1) <= u64::MAX,
    ensures
        r == align_up(offset as int, alignment as int),
        r % alignment == 0,
        offset <= r < offset + alignment,
{
    proof {
        let k = choose|k: u64| k < 64 && alignment == 1u64 << k;
        lemma_pow_two_bits(alignment, k);
        lemma_align_bits(offset, alignment, k);
        let r = ((offset + (alignment - 1)) as u64) & !((alignment - 1) as u64);
        lemma_shifted_is_multiple(r, k);
        lemma_align_up_is(offset as int, alignment as int, r as int);
    }
    (offset + (alignment - 1)) & !(alignment - 1)
}

} // verus!
