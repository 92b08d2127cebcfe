//! Writing a number in decimal, the inverse of parsing it.

use crate::decimal::{
    all_digits, decimal_value, is_digit, lemma_pow10_positive, lemma_value_concat,
    lemma_value_zeros, pow10,
};
use vstd::prelude::*;

verus! {

/// The decimal digits of `n` as ASCII bytes, most significant first, without
/// leading zeros; zero is written as the single digit `'0'`.
pub open spec fn decimal_digits(n: nat) -> Seq<u8>
    decreases n,
{
    if n < 10 {
        seq![(0x30 + n) as u8]
    } else {
        decimal_digits(n / 10).push((0x30 + n % 10) as u8)
    }
}

/// `count` times the digit `'0'`.
pub open spec fn zeros(count: nat) -> Seq<u8> {
    Seq::new(count, |i: int| 0x30u8)
}

/// The decimal digits of `n`, with zeros in front to make `len` bytes. Where
/// `n` has more than `len` digits, they are all written and none is added.
pub open spec fn zero_padded(n: nat, len: nat) -> Seq<u8> {
    zeros((len - decimal_digits(n).len()) as nat) + decimal_digits(n)
}

/// The decimal digits of a number are digits, at least one of them, and
/// denote the number.
pub proof fn lemma_decimal_digits(n: nat)
    ensures
        decimal_digits(n).len() >= 1,
        all_digits(decimal_digits(n)),
        decimal_value(decimal_digits(n)) == n,
    decreases n,
{
    if n < 10 {
        let d = decimal_digits(n);
        assert(d.drop_last() =~= Seq::<u8>::empty());
        assert(decimal_value(d.drop_last()) == 0);
    } else {
        let front = decimal_digits(n / 10);
        let d = front.push((0x30 + n % 10) as u8);
        lemma_decimal_digits(n / 10);
        assert(d.drop_last() =~= front);
        assert forall|i: int| 0 <= i < d.len() implies is_digit(#[trigger] d[i]) by {
            if i < front.len() {
                assert(is_digit(front[i]));
            }
        }
    }
}

/// A number below `10^k` has at most `k` decimal digits, for `k` of at least
/// one.
pub proof fn lemma_decimal_digits_len(n: nat, k: nat)
    requires
        k >= 1,
        n < pow10(k),
    ensures
        decimal_digits(n).len() <= k,
    decreases n,
{
    if n >= 10 {
        if k == 1 {
            reveal_with_fuel(pow10, 2);
        } else {
            assert(pow10(k) == 10 * pow10((k - 1) as nat));
            lemma_decimal_digits_len(n / 10, (k - 1) as nat);
        }
    }
}

/// Zeros in front of a digit string change neither that it consists of
/// digits nor the number that it denotes.
pub proof fn lemma_leading_zeros(count: nat, s: Seq<u8>)
    requires
        all_digits(s),
    ensures
        all_digits(zeros(count) + s),
        decimal_value(zeros(count) + s) == decimal_value(s),
{
    let z = zeros(count);
    lemma_value_zeros(z);
    lemma_value_concat(z, s);
    assert(decimal_value(z) * pow10(s.len()) == 0) by (nonlinear_arith)
        requires
            decimal_value(z) == 0,
    ;
    assert forall|i: int| 0 <= i < (z + s).len() implies is_digit(#[trigger] (z + s)[i]) by {
        if i >= count {
            assert(is_digit(s[i - count]));
        }
    }
}

/// Appends the decimal digits of `n` to `out`.
pub fn push_decimal(out: &mut Vec<u8>, n: u64)
    ensures
        final(out)@ == old(out)@ + decimal_digits(n as nat),
    decreases n,
{
    if n >= 10 {
        push_decimal(out, n / 10);
    }
    let digit: u8 = (n % 10) as u8;
    out.push(0x30 + digit);
    assert(final(out)@ =~= old(out)@ + decimal_digits(n as nat));
}

} // verus!
