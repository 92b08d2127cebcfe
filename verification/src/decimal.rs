//! The mathematical meaning of "an unsigned decimal number at the front of a
//! byte string": which bytes are digits, how long the leading digit run is,
//! what number it denotes, and what a parse of the string must report.

use vstd::prelude::*;

verus! {

/// `b` is one of the ASCII bytes `'0'..='9'`.
pub open spec fn is_digit(b: u8) -> bool {
    0x30 <= b <= 0x39
}

/// Every byte of `s` is an ASCII digit.
pub open spec fn all_digits(s: Seq<u8>) -> bool {
    forall|i: int| 0 <= i < s.len() ==> is_digit(#[trigger] s[i])
}

/// Length of the maximal prefix of `s` that consists of ASCII digits.
pub open spec fn digit_run_len(s: Seq<u8>) -> nat
    decreases s.len(),
{
    if s.len() > 0 && is_digit(s[0]) {
        1 + digit_run_len(s.drop_first())
    } else {
        0
    }
}

/// The maximal prefix of `s` that consists of ASCII digits.
pub open spec fn digit_run(s: Seq<u8>) -> Seq<u8> {
    s.take(digit_run_len(s) as int)
}

/// The number that the digit string `s` denotes in base ten, most significant
/// digit first. Leading zeros add nothing; the empty string denotes zero.
pub open spec fn decimal_value(s: Seq<u8>) -> nat
    decreases s.len(),
{
    if s.len() == 0 {
        0
    } else {
        (10 * decimal_value(s.drop_last()) + (s.last() - 0x30)) as nat
    }
}

/// Ten to the power `e`.
pub open spec fn pow10(e: nat) -> nat
    decreases e,
{
    if e == 0 {
        1
    } else {
        10 * pow10((e - 1) as nat)
    }
}

/// What a parse of `s` reports, as the pair (value, consumed length): the
/// value and length of the leading digit run, or `(0, 0)` when that value
/// does not fit in 64 bits. A string that starts with no digit also gives
/// `(0, 0)`.
pub open spec fn parsed(s: Seq<u8>) -> (nat, nat) {
    if decimal_value(digit_run(s)) <= u64::MAX {
        (decimal_value(digit_run(s)), digit_run_len(s))
    } else {
        (0, 0)
    }
}

/// `n` is the length of the leading digit run exactly when the first `n`
/// bytes are digits and the byte after them, if there is one, is not.
pub proof fn lemma_run_len_is(s: Seq<u8>, n: int)
    requires
        0 <= n <= s.len(),
        forall|i: int| 0 <= i < n ==> is_digit(#[trigger] s[i]),
        n < s.len() ==> !is_digit(s[n]),
    ensures
        digit_run_len(s) == n,
    decreases s.len(),
{
    if n > 0 {
        let t = s.drop_first();
        assert forall|i: int| 0 <= i < n - 1 implies is_digit(#[trigger] t[i]) by {
            assert(t[i] == s[i + 1]);
        }
        if n - 1 < t.len() {
            assert(t[n - 1] == s[n]);
        }
        lemma_run_len_is(t, n - 1);
    }
}

/// The bytes of the leading digit run are digits, and the byte that follows
/// it, if there is one, is not.
pub proof fn lemma_run_len_props(s: Seq<u8>)
    ensures
        digit_run_len(s) <= s.len(),
        forall|i: int| 0 <= i < digit_run_len(s) ==> is_digit(#[trigger] s[i]),
        digit_run_len(s) < s.len() ==> !is_digit(s[digit_run_len(s) as int]),
    decreases s.len(),
{
    if s.len() > 0 && is_digit(s[0]) {
        let t = s.drop_first();
        lemma_run_len_props(t);
        assert forall|i: int| 0 <= i < digit_run_len(s) implies is_digit(#[trigger] s[i]) by {
            if i > 0 {
                assert(s[i] == t[i - 1]);
            }
        }
        if digit_run_len(s) < s.len() {
            assert(s[digit_run_len(s) as int] == t[digit_run_len(t) as int]);
        }
    }
}

/// Powers of ten are positive.
pub proof fn lemma_pow10_positive(e: nat)
    ensures
        pow10(e) >= 1,
    decreases e,
{
    if e > 0 {
        lemma_pow10_positive((e - 1) as nat);
    }
}

/// A string of `n` digits denotes a number below `10^n`.
pub proof fn lemma_value_bound(s: Seq<u8>)
    requires
        all_digits(s),
    ensures
        decimal_value(s) < pow10(s.len()),
    decreases s.len(),
{
    if s.len() > 0 {
        let t = s.drop_last();
        assert forall|i: int| 0 <= i < t.len() implies is_digit(#[trigger] t[i]) by {
            assert(t[i] == s[i]);
        }
        lemma_value_bound(t);
        assert(is_digit(s[s.len() - 1]));
    }
}

/// Carrying: the value of a concatenation is the value of the front part,
/// shifted by as many decimal places as the back part has digits, plus the
/// value of the back part.
pub proof fn lemma_value_concat(a: Seq<u8>, b: Seq<u8>)
    requires
        all_digits(b),
    ensures
        decimal_value(a + b) == decimal_value(a) * pow10(b.len()) + decimal_value(b),
    decreases b.len(),
{
    if b.len() == 0 {
        assert(a + b =~= a);
        assert(decimal_value(a) * 1 == decimal_value(a));
    } else {
        let bt = b.drop_last();
        assert((a + b).drop_last() =~= a + bt);
        assert((a + b).last() == b.last());
        assert forall|i: int| 0 <= i < bt.len() implies is_digit(#[trigger] bt[i]) by {
            assert(bt[i] == b[i]);
        }
        lemma_value_concat(a, bt);
        assert(is_digit(b[b.len() - 1]));
        let va = decimal_value(a) as int;
        let p = pow10(bt.len()) as int;
        assert(10 * (va * p + decimal_value(bt)) == va * (10 * p) + 10 * decimal_value(bt))
            by (nonlinear_arith);
    }
}

/// A longer prefix of a digit string never denotes a smaller number.
pub proof fn lemma_value_prefix_monotone(s: Seq<u8>, k: int)
    requires
        all_digits(s),
        0 <= k <= s.len(),
    ensures
        decimal_value(s.take(k)) <= decimal_value(s),
{
    let a = s.take(k);
    let b = s.skip(k);
    assert(a + b =~= s);
    assert forall|i: int| 0 <= i < b.len() implies is_digit(#[trigger] b[i]) by {
        assert(b[i] == s[k + i]);
    }
    lemma_value_concat(a, b);
    lemma_pow10_positive(b.len());
    let va = decimal_value(a) as int;
    let p = pow10(b.len()) as int;
    assert(va * p >= va) by (nonlinear_arith)
        requires
            va >= 0,
            p >= 1,
    ;
}

/// Reading one more digit multiplies the value by ten and adds the digit.
pub proof fn lemma_value_step(s: Seq<u8>, k: int)
    requires
        0 <= k < s.len(),
    ensures
        decimal_value(s.take(k + 1)) == (10 * decimal_value(s.take(k)) + (s[k] - 0x30)) as nat,
{
    let t = s.take(k + 1);
    assert(t.drop_last() =~= s.take(k));
    assert(t.last() == s[k]);
}

/// A string of zeros denotes zero.
pub proof fn lemma_value_zeros(s: Seq<u8>)
    requires
        forall|i: int| 0 <= i < s.len() ==> s[i] == 0x30,
    ensures
        decimal_value(s) == 0,
    decreases s.len(),
{
    if s.len() > 0 {
        lemma_value_zeros(s.drop_last());
    }
}

/// A larger exponent gives a power of ten that is no smaller.
pub proof fn lemma_pow10_increases(a: nat, b: nat)
    requires
        a <= b,
    ensures
        pow10(a) <= pow10(b),
    decreases b,
{
    if a < b {
        lemma_pow10_increases(a, (b - 1) as nat);
    }
}

} // verus!
