//! Decimal rendering of unsigned integers.

use vstd::arithmetic::div_mod::lemma_div_denominator;
use vstd::arithmetic::power::{lemma_pow0, lemma_pow1, lemma_pow_positive, pow};
use vstd::prelude::*;
use vstd::string::*;

verus! {

/// The character of the decimal digit `d`.
pub open spec fn digit_char(d: nat) -> char {
    (48 + d) as char
}

/// The shortest decimal numeral of `n`.
pub open spec fn decimal(n: nat) -> Seq<char>
    decreases n,
{
    if n < 10 {
        seq![digit_char(n)]
    } else {
        decimal(n / 10).push(digit_char(n % 10))
    }
}

/// `s` with zeros in front, as many as bring it to `width` characters.
pub open spec fn zero_padded(s: Seq<char>, width: nat) -> Seq<char> {
    if s.len() < width {
        Seq::new((width - s.len()) as nat, |i: int| '0') + s
    } else {
        s
    }
}

/// The last `width` decimal digits of `n`, leading zeros kept.
spec fn low_digits(n: nat, width: nat) -> Seq<char>
    decreases width,
{
    if width == 0 {
        Seq::empty()
    } else {
        low_digits(n / 10, (width - 1) as nat).push(digit_char(n % 10))
    }
}

/// The number that a sequence of decimal digits spells.
pub open spec fn numeral_value(s: Seq<char>) -> nat
    decreases s.len(),
{
    if s.len() == 0 {
        0
    } else {
        10 * numeral_value(s.drop_last()) + (s.last() as nat - 48) as nat
    }
}

/// `a` comes before `b` where strings of one length are compared character by character.
pub open spec fn lexicographically_before(a: Seq<char>, b: Seq<char>) -> bool {
    exists|i: int| first_difference(a, b, i) && a[i] < b[i]
}

/// `a` and `b` agree up to `i`, which is a position of both.
pub open spec fn first_difference(a: Seq<char>, b: Seq<char>, i: int) -> bool {
    &&& 0 <= i < a.len()
    &&& i < b.len()
    &&& forall|j: int| 0 <= j < i ==> a[j] == b[j]
}

proof fn lemma_low_digits_of_zero(width: nat)
    ensures
        low_digits(0, width) =~= Seq::new(width, |i: int| '0'),
    decreases width,
{
    if width > 0 {
        lemma_low_digits_of_zero((width - 1) as nat);
    }
}

proof fn lemma_decimal_len(n: nat, width: nat)
    requires
        n < pow(10, width),
        width > 0,
    ensures
        1 <= decimal(n).len() <= width,
    decreases width,
{
    if n >= 10 {
        if width == 1 {
            lemma_pow1(10);
        } else {
            assert(pow(10, width) == 10 * pow(10, (width - 1) as nat)) by {
                reveal(pow);
            }
            lemma_decimal_len(n / 10, (width - 1) as nat);
        }
    }
}

proof fn lemma_low_digits_is_padded_decimal(n: nat, width: nat)
    requires
        decimal(n).len() <= width,
    ensures
        low_digits(n, width) =~= zero_padded(decimal(n), width),
    decreases width,
{
    if width > 0 {
        if n < 10 {
            lemma_low_digits_of_zero((width - 1) as nat);
        } else {
            lemma_low_digits_is_padded_decimal(n / 10, (width - 1) as nat);
        }
    }
}

proof fn lemma_low_digits_len(n: nat, width: nat)
    ensures
        low_digits(n, width).len() == width,
    decreases width,
{
    if width > 0 {
        lemma_low_digits_len(n / 10, (width - 1) as nat);
    }
}

proof fn lemma_low_digits_value(n: nat, width: nat)
    requires
        n < pow(10, width),
    ensures
        numeral_value(low_digits(n, width)) == n,
    decreases width,
{
    if width == 0 {
        lemma_pow0(10);
    } else {
        let w = (width - 1) as nat;
        assert(pow(10, width) == 10 * pow(10, w)) by {
            reveal(pow);
        }
        lemma_low_digits_value(n / 10, w);
        assert(low_digits(n, width).drop_last() =~= low_digits(n / 10, w));
    }
}

proof fn lemma_low_digits_ordered(a: nat, b: nat, width: nat)
    requires
        a < b < pow(10, width),
    ensures
        lexicographically_before(low_digits(a, width), low_digits(b, width)),
    decreases width,
{
    if width == 0 {
        lemma_pow0(10);
    } else {
        let w = (width - 1) as nat;
        assert(pow(10, width) == 10 * pow(10, w)) by {
            reveal(pow);
        }
        let x = low_digits(a, width);
        let y = low_digits(b, width);
        lemma_low_digits_len(a / 10, w);
        lemma_low_digits_len(b / 10, w);
        if a / 10 < b / 10 {
            lemma_low_digits_ordered(a / 10, b / 10, w);
            let p = low_digits(a / 10, w);
            let q = low_digits(b / 10, w);
            let i = choose|i: int| first_difference(p, q, i) && p[i] < q[i];
            assert(first_difference(x, y, i) && x[i] < y[i]);
        } else {
            assert(a / 10 == b / 10);
            assert(first_difference(x, y, w as int) && x[w as int] < y[w as int]);
        }
    }
}

proof fn lemma_u64_below_pow10()
    ensures
        u64::MAX < pow(10, 20),
{
    assert(pow(10, 20) == 100_000_000_000_000_000_000) by {
        reveal_with_fuel(pow, 21);
    }
}

/// A `u64` has a decimal numeral of one to twenty digits.
pub proof fn lemma_u64_decimal_len(n: u64)
    ensures
        1 <= decimal(n as nat).len() <= 20,
{
    lemma_u64_below_pow10();
    lemma_decimal_len(n as nat, 20);
}

/// A numeral padded to twenty digits spells the number.
pub proof fn lemma_padded_value(n: u64)
    ensures
        numeral_value(zero_padded(decimal(n as nat), 20)) == n,
{
    lemma_u64_below_pow10();
    lemma_u64_decimal_len(n);
    lemma_low_digits_is_padded_decimal(n as nat, 20);
    lemma_low_digits_value(n as nat, 20);
}

/// Of two strings at most one comes before the other, and neither does where they are the same.
pub proof fn lemma_before_is_strict(a: Seq<char>, b: Seq<char>)
    ensures
        !(lexicographically_before(a, b) && lexicographically_before(b, a)),
        a == b ==> !lexicographically_before(a, b),
{
    if lexicographically_before(a, b) && lexicographically_before(b, a) {
        let i = choose|i: int| first_difference(a, b, i) && a[i] < b[i];
        let j = choose|j: int| first_difference(b, a, j) && b[j] < a[j];
        assert(first_difference(a, b, i) && first_difference(b, a, j));
        if i < j {
            assert(b[i] == a[i]);
        } else if j < i {
            assert(a[j] == b[j]);
        }
    }
}

/// Numerals padded to twenty digits are ordered as the numbers are.
pub proof fn lemma_padded_order(a: u64, b: u64)
    requires
        a < b,
    ensures
        lexicographically_before(
            zero_padded(decimal(a as nat), 20),
            zero_padded(decimal(b as nat), 20),
        ),
{
    lemma_u64_below_pow10();
    lemma_u64_decimal_len(a);
    lemma_u64_decimal_len(b);
    lemma_low_digits_is_padded_decimal(a as nat, 20);
    lemma_low_digits_is_padded_decimal(b as nat, 20);
    lemma_low_digits_ordered(a as nat, b as nat, 20);
}

fn digit_str(d: u64) -> (s: &'static str)
    requires
        d < 10,
    ensures
        s@ == seq![digit_char(d as nat)],
{
    proof {
        reveal_strlit("0");
        reveal_strlit("1");
        reveal_strlit("2");
        reveal_strlit("3");
        reveal_strlit("4");
        reveal_strlit("5");
        reveal_strlit("6");
        reveal_strlit("7");
        reveal_strlit("8");
        reveal_strlit("9");
    }
    let s: &'static str = match d {
        0 => "0",
        1 => "1",
        2 => "2",
        3 => "3",
        4 => "4",
        5 => "5",
        6 => "6",
        7 => "7",
        8 => "8",
        _ => "9",
    };
    assert(s@ =~= seq![digit_char(d as nat)]);
    s
}

/// Appends the decimal numeral of `n`.
pub fn push_decimal(out: &mut String, n: u64)
    ensures
        final(out)@ == old(out)@ + decimal(n as nat),
    decreases n,
{
    if n >= 10 {
        push_decimal(out, n / 10);
    }
    out.append(digit_str(n % 10));
    assert(out@ =~= old(out)@ + decimal(n as nat));
}

fn push_low_digits(out: &mut String, n: u64, width: u64)
    ensures
        final(out)@ == old(out)@ + low_digits(n as nat, width as nat),
    decreases width,
{
    if width > 0 {
        push_low_digits(out, n / 10, width - 1);
        out.append(digit_str(n % 10));
    }
    assert(out@ =~= old(out)@ + low_digits(n as nat, width as nat));
}

/// Appends the decimal numeral of `n`, padded with zeros to twenty digits.
pub fn push_padded_decimal(out: &mut String, n: u64)
    ensures
        final(out)@ == old(out)@ + zero_padded(decimal(n as nat), 20),
{
    proof {
        lemma_u64_decimal_len(n);
        lemma_low_digits_is_padded_decimal(n as nat, 20);
    }
    push_low_digits(out, n, 20);
}

/// The decimal numerals of `s`, with commas between them.
pub open spec fn numerals(s: Seq<u64>) -> Seq<char>
    decreases s.len(),
{
    if s.len() == 0 {
        Seq::empty()
    } else if s.len() == 1 {
        decimal(s[0] as nat)
    } else {
        numerals(s.drop_last()) + ", "@ + decimal(s.last() as nat)
    }
}

/// The text of a list of numbers: their numerals in square brackets.
pub open spec fn list_text(s: Seq<u64>) -> Seq<char> {
    "["@ + numerals(s) + "]"@
}

/// Appends the text of a list of numbers.
pub fn push_list(out: &mut String, list: &[u64])
    ensures
        final(out)@ == old(out)@ + list_text(list@),
{
    out.append("[");
    let ghost start = out@;
    let mut i: usize = 0;
    assert(out@ =~= start + numerals(list@.take(0)));
    while i < list.len()
        invariant
            i <= list@.len(),
            out@ == start + numerals(list@.take(i as int)),
        decreases list@.len() - i,
    {
        let ghost t = list@.take(i + 1);
        assert(t.drop_last() =~= list@.take(i as int));
        if i > 0 {
            out.append(", ");
        }
        push_decimal(out, list[i]);
        assert(out@ =~= start + numerals(t));
        i = i + 1;
    }
    assert(list@.take(i as int) =~= list@);
    out.append("]");
    assert(out@ =~= old(out)@ + list_text(list@));
}

proof fn lemma_low_digits_at(n: nat, width: nat, k: nat)
    requires
        k < width,
    ensures
        low_digits(n, width).len() == width,
        low_digits(n, width)[width - 1 - k] == digit_char(
            ((n as int / pow(10, k)) % 10) as nat,
        ),
        pow(10, k) > 0,
    decreases width,
{
    lemma_low_digits_len(n, width);
    lemma_pow_positive(10, k);
    let w = (width - 1) as nat;
    lemma_low_digits_len(n / 10, w);
    if k == 0 {
        lemma_pow0(10);
    } else {
        let j = (k - 1) as nat;
        lemma_low_digits_at(n / 10, w, j);
        assert(low_digits(n, width)[width - 1 - k] == low_digits(n / 10, w)[w - 1 - j]);
        assert(pow(10, k) == 10 * pow(10, j)) by {
            reveal(pow);
        }
        lemma_div_denominator(n as int, 10, pow(10, j));
    }
}

/// At each place, counted from the right, a numeral padded to twenty digits has the digit of that
/// power of ten.
pub proof fn lemma_padded_digit(n: u64, k: nat)
    requires
        k < 20,
    ensures
        zero_padded(decimal(n as nat), 20).len() == 20,
        zero_padded(decimal(n as nat), 20)[19 - k] as int == 48 + (n as int / pow(10, k)) % 10,
{
    lemma_u64_decimal_len(n);
    lemma_low_digits_is_padded_decimal(n as nat, 20);
    lemma_low_digits_at(n as nat, 20, k);
}

/// The numeral of a number has, at each place counted from the right, the digit of that power of ten,
/// and no zero in front: its length is that of the number.
pub proof fn lemma_decimal_digits(n: nat, k: nat)
    ensures
        decimal(n).len() >= 1,
        n < pow(10, decimal(n).len()),
        n > 0 ==> pow(10, (decimal(n).len() - 1) as nat) <= n,
        n == 0 ==> decimal(n).len() == 1,
        k < decimal(n).len() ==> decimal(n)[decimal(n).len() - 1 - k] as int == 48 + (n as int / pow(
            10,
            k,
        )) % 10,
    decreases n,
{
    lemma_pow0(10);
    lemma_pow1(10);
    lemma_pow_positive(10, k);
    if n >= 10 {
        let m = n / 10;
        let len = decimal(m).len();
        lemma_decimal_digits(m, (k - 1) as nat);
        assert(pow(10, len + 1) == 10 * pow(10, len)) by {
            reveal(pow);
        }
        assert(pow(10, len) == 10 * pow(10, (len - 1) as nat)) by {
            reveal(pow);
        }
        if k > 0 {
            let j = (k - 1) as nat;
            lemma_pow_positive(10, j);
            assert(pow(10, k) == 10 * pow(10, j)) by {
                reveal(pow);
            }
            lemma_div_denominator(n as int, 10, pow(10, j));
        }
    }
}

/// The text of a list: numerals in square brackets, with a comma and a blank between any two that
/// follow each other and nowhere else.
pub proof fn lemma_list_text(a: Seq<u64>, b: Seq<u64>)
    ensures
        list_text(a) == "["@ + numerals(a) + "]"@,
        numerals(Seq::<u64>::empty()) == Seq::<char>::empty(),
        forall|n: u64| #[trigger] numerals(seq![n]) == decimal(n as nat),
        a.len() > 0 && b.len() > 0 ==> numerals(a + b) == numerals(a) + ", "@ + numerals(b),
    decreases b.len(),
{
    if a.len() > 0 && b.len() > 0 {
        let rest = b.drop_last();
        assert((a + b).drop_last() =~= a + rest);
        if rest.len() == 0 {
            assert(a + rest =~= a);
        } else {
            lemma_list_text(a, rest);
            assert(numerals(a + b) =~= numerals(a) + ", "@ + numerals(b));
        }
    }
}

} // verus!
