//! Big-endian integers in byte sequences.

use bytes::Buf;
use vstd::arithmetic::div_mod::lemma_div_denominator;
use vstd::arithmetic::power::{lemma_pow0, lemma_pow_positive, pow};
use vstd::prelude::*;

verus! {

/// The number that `s` holds, most significant byte first.
pub open spec fn be_value(s: Seq<u8>) -> nat
    decreases s.len(),
{
    if s.len() == 0 {
        0
    } else {
        256 * be_value(s.drop_last()) + s.last() as nat
    }
}

/// The last `width` base-256 digits of `n`, most significant first.
pub open spec fn be_bytes(n: nat, width: nat) -> Seq<u8>
    decreases width,
{
    if width == 0 {
        Seq::empty()
    } else {
        be_bytes(n / 256, (width - 1) as nat).push((n % 256) as u8)
    }
}

/// `width` bytes come out.
pub proof fn lemma_be_bytes_len(n: nat, width: nat)
    ensures
        be_bytes(n, width).len() == width,
    decreases width,
{
    if width > 0 {
        lemma_be_bytes_len(n / 256, (width - 1) as nat);
    }
}

/// A number that fits its width is read back as it was written.
pub proof fn lemma_be_round_trip(n: nat, width: nat)
    requires
        n < pow(256, width),
    ensures
        be_value(be_bytes(n, width)) == n,
    decreases width,
{
    if width == 0 {
        lemma_pow0(256);
    } else {
        let w = (width - 1) as nat;
        assert(pow(256, width) == 256 * pow(256, w)) by {
            reveal(pow);
        }
        lemma_be_round_trip(n / 256, w);
        assert(be_bytes(n, width).drop_last() =~= be_bytes(n / 256, w));
    }
}

/// Appends the last `width` base-256 digits of `n`, most significant first.
pub fn push_be(out: &mut Vec<u8>, n: u64, width: usize)
    ensures
        final(out)@ == old(out)@ + be_bytes(n as nat, width as nat),
    decreases width,
{
    if width > 0 {
        push_be(out, n / 256, width - 1);
        let byte: u8 = (n % 256) as u8;
        out.push(byte);
    }
    assert(out@ =~= old(out)@ + be_bytes(n as nat, width as nat));
}

/// Reads a `u32` with `bytes::Buf::get_u32`, which takes the first four bytes of the slice, most
/// significant first, and panics on a shorter one.
#[verifier::external_body]
pub(crate) fn get_u32(buf: &[u8]) -> (r: u32)
    requires
        buf@.len() >= 4,
    ensures
        r as nat == be_value(buf@.take(4)),
{
    let mut rest = buf;
    rest.get_u32()
}

/// Reads a `u64` with `bytes::Buf::get_u64`, which takes the first eight bytes of the slice, most
/// significant first, and panics on a shorter one.
#[verifier::external_body]
pub(crate) fn get_u64(buf: &[u8]) -> (r: u64)
    requires
        buf@.len() >= 8,
    ensures
        r as nat == be_value(buf@.take(8)),
{
    let mut rest = buf;
    rest.get_u64()
}

/// Each byte of the big-endian form, counted from the right, is the digit of that power of 256.
pub proof fn lemma_be_digit(n: nat, width: nat, k: nat)
    requires
        k < width,
    ensures
        be_bytes(n, width).len() == width,
        be_bytes(n, width)[width - 1 - k] as int == (n as int / pow(256, k)) % 256,
    decreases width,
{
    lemma_be_bytes_len(n, width);
    let w = (width - 1) as nat;
    lemma_be_bytes_len(n / 256, w);
    if k == 0 {
        lemma_pow0(256);
    } else {
        let j = (k - 1) as nat;
        lemma_be_digit(n / 256, w, j);
        lemma_pow_positive(256, j);
        assert(pow(256, k) == 256 * pow(256, j)) by {
            reveal(pow);
        }
        lemma_div_denominator(n as int, 256, pow(256, j));
    }
}

/// The value of bytes followed by others is that of the first, moved up by the number of the others,
/// and that of the others; a single byte is its own value.
pub proof fn lemma_be_value(a: Seq<u8>, b: Seq<u8>)
    ensures
        be_value(Seq::<u8>::empty()) == 0,
        forall|x: u8| be_value(#[trigger] seq![x]) == x,
        be_value(a + b) == be_value(a) * pow(256, b.len()) + be_value(b),
    decreases b.len(),
{
    assert forall|x: u8| be_value(#[trigger] seq![x]) == x by {
        reveal_with_fuel(be_value, 2);
        assert(seq![x].drop_last() =~= Seq::<u8>::empty());
    }
    if b.len() == 0 {
        lemma_pow0(256);
        assert(a + b =~= a);
        assert(be_value(a) * 1 == be_value(a));
    } else {
        let rest = b.drop_last();
        lemma_be_value(a, rest);
        assert((a + b).drop_last() =~= a + rest);
        let p = pow(256, rest.len());
        assert(pow(256, b.len()) == 256 * p) by {
            reveal(pow);
        }
        let v = be_value(a) as int;
        assert(256 * (v * p) == v * (256 * p)) by (nonlinear_arith);
    }
}

} // verus!
