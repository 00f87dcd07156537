//! Decimal digit strings: how a length or an integer is written, and what a
//! run of digit bytes means.

use crate::token::{MINUS, NINE, ZERO};
use vstd::prelude::*;

verus! {

/// Whether `b` is one of the ASCII digits `0` to `9`.
pub open spec fn is_digit(b: u8) -> bool {
    ZERO <= b <= NINE
}

/// Every byte of `d` is an ASCII digit.
pub open spec fn all_digits(d: Seq<u8>) -> bool {
    forall|i: int| 0 <= i < d.len() ==> is_digit(#[trigger] d[i])
}

/// The number that the digit string `d` denotes, most significant digit
/// first. Meant for strings of digits only; the empty string denotes 0.
pub open spec fn digits_value(d: Seq<u8>) -> nat
    decreases d.len(),
{
    if d.len() == 0 {
        0
    } else {
        let last: nat = if d.last() >= ZERO { (d.last() - ZERO) as nat } else { 0 };
        10 * digits_value(d.drop_last()) + last
    }
}

/// The canonical decimal digits of `n`: no leading zero, and the single
/// digit `0` for zero.
pub open spec fn decimal(n: nat) -> Seq<u8>
    decreases n,
{
    if n < 10 {
        seq![(ZERO + n) as u8]
    } else {
        decimal(n / 10).push((ZERO + n % 10) as u8)
    }
}

/// The canonical decimal text of a signed integer: a minus sign in front of
/// the digits of a negative number, nothing in front of the others.
pub open spec fn decimal_int(n: int) -> Seq<u8> {
    if n < 0 {
        seq![MINUS] + decimal((-n) as nat)
    } else {
        decimal(n as nat)
    }
}

/// A digit string in canonical form: at least one digit, digits only, and
/// no leading zero unless it is the single digit `0`.
pub open spec fn canonical_digits(d: Seq<u8>) -> bool {
    &&& d.len() >= 1
    &&& all_digits(d)
    &&& d.len() > 1 ==> d[0] != ZERO
}

/// The number of digit bytes at the front of `s`: the length of the longest
/// prefix of `s` that holds digits only.
pub open spec fn digit_run(s: Seq<u8>) -> nat
    decreases s.len(),
{
    if s.len() > 0 && is_digit(s[0]) {
        1 + digit_run(s.skip(1))
    } else {
        0
    }
}

/// `decimal` yields a canonical digit string.
pub proof fn lemma_decimal_canonical(n: nat)
    ensures
        canonical_digits(decimal(n)),
        n == 0 <==> decimal(n)[0] == ZERO,
    decreases n,
{
    if n >= 10 {
        lemma_decimal_canonical(n / 10);
        let d = decimal(n / 10);
        assert(decimal(n)[0] == d[0]);
        assert forall|i: int| 0 <= i < decimal(n).len() implies is_digit(#[trigger] decimal(n)[i]) by {
            if i < d.len() {
                assert(decimal(n)[i] == d[i]);
            }
        }
    }
}

/// Reading back the digits of `n` gives `n`.
pub proof fn lemma_decimal_value(n: nat)
    ensures
        digits_value(decimal(n)) == n,
    decreases n,
{
    if n < 10 {
        let d = decimal(n);
        assert(d.drop_last() =~= Seq::<u8>::empty());
        assert(digits_value(d.drop_last()) == 0);
    } else {
        lemma_decimal_value(n / 10);
        let d = decimal(n);
        assert(d.drop_last() =~= decimal(n / 10));
        assert(d.last() == (ZERO + n % 10) as u8);
    }
}

/// Writing out the number that a canonical digit string denotes gives the
/// string back: each number has one canonical digit string.
pub proof fn lemma_canonical_digits_unique(d: Seq<u8>)
    requires
        canonical_digits(d),
    ensures
        decimal(digits_value(d)) == d,
    decreases d.len(),
{
    let last: nat = (d.last() - ZERO) as nat;
    if d.len() == 1 {
        assert(d.drop_last() =~= Seq::<u8>::empty());
        assert(digits_value(d.drop_last()) == 0);
        assert(digits_value(d) == last);
        assert(decimal(last) =~= d);
    } else {
        let front = d.drop_last();
        assert(canonical_digits(front)) by {
            assert forall|i: int| 0 <= i < front.len() implies is_digit(#[trigger] front[i]) by {
                assert(front[i] == d[i]);
            }
            assert(front[0] == d[0]);
        }
        lemma_canonical_digits_unique(front);
        lemma_digits_value_leading(front);
        let v = digits_value(front);
        assert(v >= 1);
        assert(digits_value(d) == 10 * v + last);
        assert((10 * v + last) / 10 == v && (10 * v + last) % 10 == last);
        assert(decimal(10 * v + last) == decimal(v).push((ZERO + last) as u8));
        assert(decimal(v).push((ZERO + last) as u8) =~= d);
    }
}

/// A digit string that does not start with `0` denotes a positive number.
pub proof fn lemma_digits_value_leading(d: Seq<u8>)
    requires
        d.len() >= 1,
        all_digits(d),
        d[0] != ZERO,
    ensures
        digits_value(d) >= 1,
    decreases d.len(),
{
    if d.len() == 1 {
        assert(d.drop_last() =~= Seq::<u8>::empty());
        assert(is_digit(d[0]));
    } else {
        let front = d.drop_last();
        assert forall|i: int| 0 <= i < front.len() implies is_digit(#[trigger] front[i]) by {
            assert(front[i] == d[i]);
        }
        assert(front[0] == d[0]);
        lemma_digits_value_leading(front);
    }
}

/// Appending a digit multiplies the value by ten and adds the digit.
pub proof fn lemma_digits_value_push(d: Seq<u8>, b: u8)
    requires
        is_digit(b),
    ensures
        digits_value(d.push(b)) == 10 * digits_value(d) + (b - ZERO),
{
    assert(d.push(b).drop_last() =~= d);
}

/// Where the first `i` bytes of `s` are digits and the digits end there,
/// the digit run of `s` is `i`.
pub proof fn lemma_digit_run_is(s: Seq<u8>, i: int)
    requires
        0 <= i <= s.len(),
        all_digits(s.take(i)),
        i == s.len() || !is_digit(s[i]),
    ensures
        digit_run(s) == i,
    decreases i,
{
    if i > 0 {
        assert(s[0] == s.take(i)[0]);
        assert forall|j: int| 0 <= j < i - 1 implies is_digit(#[trigger] s.skip(1).take(i - 1)[j]) by {
            assert(s.skip(1).take(i - 1)[j] == s.take(i)[j + 1]);
        }
        lemma_digit_run_is(s.skip(1), i - 1);
    }
}

/// The digit run of `s` counts digits, and stops at the end of `s` or at a
/// byte that is no digit.
pub proof fn lemma_digit_run_bounds(s: Seq<u8>)
    ensures
        digit_run(s) <= s.len(),
        all_digits(s.take(digit_run(s) as int)),
        digit_run(s) < s.len() ==> !is_digit(s[digit_run(s) as int]),
    decreases s.len(),
{
    if s.len() > 0 && is_digit(s[0]) {
        lemma_digit_run_bounds(s.skip(1));
        let k = digit_run(s.skip(1)) as int;
        assert forall|j: int| 0 <= j < k + 1 implies is_digit(#[trigger] s.take(k + 1)[j]) by {
            if j > 0 {
                assert(s.take(k + 1)[j] == s.skip(1).take(k)[j - 1]);
            }
        }
    }
}

/// Appends the canonical decimal digits of `n` to `out`.
pub fn push_decimal(out: &mut Vec<u8>, n: u64)
    ensures
        final(out)@ == old(out)@ + decimal(n as nat),
    decreases n,
{
    if n >= 10 {
        push_decimal(out, n / 10);
    }
    let digit: u8 = (n % 10) as u8;
    out.push(ZERO + digit);
    proof {
        assert(out@ =~= old(out)@ + decimal(n as nat));
    }
}

/// Appends the canonical decimal text of `n` to `out`, with a minus sign in
/// front of a negative number.
pub fn push_decimal_int(out: &mut Vec<u8>, n: i64)
    ensures
        final(out)@ == old(out)@ + decimal_int(n as int),
{
    if n < 0 {
        out.push(MINUS);
        let magnitude: u64 = if n == i64::MIN {
            i64::MAX as u64 + 1
        } else {
            (-n) as u64
        };
        push_decimal(out, magnitude);
        proof {
            assert(out@ =~= old(out)@ + decimal_int(n as int));
        }
    } else {
        push_decimal(out, n as u64);
    }
}

} // verus!
