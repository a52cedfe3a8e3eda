//! Powers of two and alignment.

use vstd::arithmetic::div_mod::{lemma_fundamental_div_mod, lemma_mod_multiples_basic, lemma_small_mod};
use vstd::arithmetic::power2::{
    lemma2_to64, lemma_pow2_pos, lemma_pow2_strictly_increases, lemma_pow2_unfold, pow2,
};
use vstd::bits::{lemma_usize_low_bits_mask_is_mod, lemma_usize_pow2_no_overflow, low_bits_mask};
use vstd::prelude::*;

verus! {

/// `v` is a power of two.
pub open spec fn power_of_two(v: int) -> bool {
    exists|k: nat| v == #[trigger] pow2(k)
}

/// The bits of `align - 1` are all clear in `v`.
///
/// Where `align` is a power of two this says that `v` is a multiple of it: see
/// [`lemma_low_bits_clear_is_multiple`].
pub open spec fn low_bits_clear(align: usize, v: usize) -> bool {
    v & ((align - 1) as usize) == 0
}

proof fn lemma_clear_lowest_bit(v: usize)
    requires
        v > 0,
        v & ((v - 1) as usize) == 0,
    ensures
        power_of_two(v as int),
    decreases v,
{
    let m: usize = (v - 1) as usize;
    if v % 2 == 1 {
        assert(v & m == m) by (bit_vector)
            requires
                v % 2 == 1,
                m == v - 1,
        ;
        lemma2_to64();
        assert(v == pow2(0));
    } else {
        let h: usize = v / 2;
        let g: usize = (h - 1) as usize;
        assert(h & g == 0) by (bit_vector)
            requires
                v & m == 0,
                m == v - 1,
                v > 0,
                v % 2 == 0,
                h == v / 2,
                g == h - 1,
        ;
        lemma_clear_lowest_bit(h);
        let k = choose|k: nat| h == pow2(k);
        lemma_pow2_unfold(k + 1);
        assert(v == pow2(k + 1));
    }
}

proof fn lemma_pow2_clears_lowest_bit(v: usize, k: nat)
    requires
        v == pow2(k),
    ensures
        v > 0,
        v & ((v - 1) as usize) == 0,
{
    lemma_pow2_pos(k);
    lemma_exponent_bound(v, k);
    lemma_mask(v, k);
    lemma_usize_low_bits_mask_is_mod(v, k);
    lemma_mod_multiples_basic(1, v as int);
}

proof fn lemma_exponent_bound(v: usize, k: nat)
    requires
        v == pow2(k),
    ensures
        k < usize::BITS,
{
    if k >= usize::BITS {
        lemma2_to64();
        if k > usize::BITS {
            lemma_pow2_strictly_increases(usize::BITS as nat, k);
        }
    }
}

proof fn lemma_mask(v: usize, k: nat)
    requires
        v == pow2(k),
    ensures
        v > 0,
        low_bits_mask(k) as usize == v - 1,
        pow2(k) as usize == v,
{
    lemma_pow2_pos(k);
    lemma_exponent_bound(v, k);
    lemma_usize_pow2_no_overflow(k);
}

/// A number is a power of two exactly if it is positive and shares no bit with its predecessor.
pub proof fn lemma_power_of_two_by_bits(v: usize)
    requires
        v > 0,
    ensures
        power_of_two(v as int) <==> v & ((v - 1) as usize) == 0,
{
    if v & ((v - 1) as usize) == 0 {
        lemma_clear_lowest_bit(v);
    }
    if power_of_two(v as int) {
        let k = choose|k: nat| v == pow2(k);
        lemma_pow2_clears_lowest_bit(v, k);
    }
}

/// For a power of two, the low bits of a number are clear exactly if it is a multiple.
pub proof fn lemma_low_bits_clear_is_multiple(align: usize, v: usize)
    requires
        power_of_two(align as int),
    ensures
        align > 0,
        low_bits_clear(align, v) <==> v % align == 0,
{
    let k = choose|k: nat| align == pow2(k);
    lemma_mask(align, k);
    lemma_exponent_bound(align, k);
    lemma_usize_low_bits_mask_is_mod(v, k);
}

/// Whether `v` is a power of two.
pub fn is_pow2(v: usize) -> (r: bool)
    ensures
        r == power_of_two(v as int),
{
    if v == 0 {
        proof {
            assert forall|k: nat| 0 != #[trigger] pow2(k) by {
                lemma_pow2_pos(k);
            }
        }
        false
    } else {
        proof {
            lemma_power_of_two_by_bits(v);
        }
        v & (v - 1) == 0
    }
}

/// Whether the bits of `align - 1` are all clear in `v`.
pub fn is_aligned(align: usize, v: usize) -> (r: bool)
    requires
        align > 0,
    ensures
        r == low_bits_clear(align, v),
        power_of_two(align as int) ==> r == (v % align == 0),
{
    proof {
        if power_of_two(align as int) {
            lemma_low_bits_clear_is_multiple(align, v);
        }
    }
    v & (align - 1) == 0
}

/// Accepts only powers of two.
pub fn assert_pow2(v: usize)
    requires
        power_of_two(v as int),
    ensures
        v > 0,
        v & ((v - 1) as usize) == 0,
{
    let accepted = is_pow2(v);
    assert(accepted);
    proof {
        let k = choose|k: nat| v == pow2(k);
        lemma_pow2_pos(k);
        lemma_power_of_two_by_bits(v);
    }
}

/// Accepts only a `v` in which the bits of `align - 1` are all clear.
pub fn assert_alignment(align: usize, v: usize)
    requires
        align > 0,
        low_bits_clear(align, v),
    ensures
        power_of_two(align as int) ==> v % align == 0,
{
    let accepted = is_aligned(align, v);
    assert(accepted);
}

proof fn lemma_least_multiple(align: int, v: int, r: int, m: int)
    requires
        align > 0,
        r % align == 0,
        v <= r < v + align,
        m % align == 0,
        v <= m,
    ensures
        r <= m,
{
    if m < r {
        let d = r - m;
        assert(0 < d < align);
        vstd::arithmetic::div_mod::lemma_sub_mod_noop(r, m, align);
        lemma_small_mod(0, align as nat);
        lemma_small_mod(d as nat, align as nat);
    }
}

/// Adds `align - 1` to `v` and clears the bits of `align - 1`. Where `align` is a power of two, this
/// rounds `v` up to the least multiple of `align`.
pub fn align_up(align: usize, v: usize) -> (r: usize)
    requires
        align > 0,
        v + align - 1 <= usize::MAX,
    ensures
        r == ((v + align - 1) as usize) & !((align - 1) as usize),
        power_of_two(align as int) ==> {
            &&& r % align == 0
            &&& v <= r < v + align
            &&& forall|m: int| v <= m && #[trigger] (m % (align as int)) == 0 ==> r <= m
        },
{
    let top: usize = v + (align - 1);
    let m: usize = align - 1;
    let r: usize = top & !m;
    proof {
        if power_of_two(align as int) {
            let k = choose|k: nat| align == pow2(k);
            lemma_mask(align, k);
            lemma_exponent_bound(align, k);
            lemma_usize_low_bits_mask_is_mod(top, k);
            let low: usize = top & m;
            assert(r + low == top) by (bit_vector)
                requires
                    r == top & !m,
                    low == top & m,
            ;
            assert(low == top % align);
            lemma_fundamental_div_mod(top as int, align as int);
            assert(r == align * (top as int / align as int));
            vstd::arithmetic::mul::lemma_mul_is_commutative(align as int, top as int / align as int);
            lemma_mod_multiples_basic(top as int / align as int, align as int);
            assert forall|m: int| v <= m && #[trigger] (m % (align as int)) == 0 implies r <= m by {
                lemma_least_multiple(align as int, v as int, r as int, m);
            }
        }
    }
    r
}

/// Whether bits are clear goes bit by bit: two values both have them clear exactly if their union has,
/// and a value that has them clear keeps them so when other bits are taken away. Of the bits
/// themselves none is clear in a value that is not zero.
pub proof fn lemma_clear_bit_by_bit(align: usize, v: usize, w: usize)
    requires
        align > 0,
    ensures
        low_bits_clear(align, v) && low_bits_clear(align, w) <==> low_bits_clear(align, v | w),
        low_bits_clear(align, v) ==> low_bits_clear(align, v & w),
        low_bits_clear(align, v & ((align - 1) as usize)) <==> low_bits_clear(align, v),
        low_bits_clear(align, v & !((align - 1) as usize)),
        low_bits_clear(align, (align - 1) as usize) <==> align == 1,
{
    let m: usize = (align - 1) as usize;
    assert((v & m == 0 && w & m == 0) <==> ((v | w) & m == 0)) by (bit_vector);
    assert(v & m == 0 ==> (v & w) & m == 0) by (bit_vector);
    assert((v & m) & m == v & m) by (bit_vector);
    assert((v & !m) & m == 0) by (bit_vector);
    assert(m & m == m) by (bit_vector);
}

} // verus!
