//! What holds of every parse, stated over the meaning of a parse in
//! [`crate::decimal`] and proved once and for all.

use crate::decimal::{
    all_digits, decimal_value, digit_run, digit_run_len, is_digit, lemma_run_len_is,
    lemma_run_len_props, lemma_value_bound, parsed,
};
use crate::format::{
    decimal_digits, lemma_decimal_digits, lemma_decimal_digits_len, lemma_leading_zeros,
    zero_padded, zeros,
};
use crate::scalar::{lemma_scalar_from, scalar_parse};
use vstd::prelude::*;

verus! {

/// A parse reads the longest run of digits at the front. When the first `n`
/// bytes of `s` are digits and `s` ends there or goes on with a byte that is
/// no digit, a parse of `s` reports the number that those `n` bytes denote
/// and the length `n`, unless that number is above `2^64 - 1`, in which case
/// it reports `(0, 0)`.
pub proof fn lemma_parsed_run(s: Seq<u8>, n: int)
    requires
        0 <= n <= s.len(),
        forall|i: int| 0 <= i < n ==> is_digit(#[trigger] s[i]),
        n < s.len() ==> !is_digit(s[n]),
    ensures
        decimal_value(s.take(n)) <= u64::MAX ==> parsed(s) == (decimal_value(s.take(n)), n as nat),
        decimal_value(s.take(n)) > u64::MAX ==> parsed(s) == (0nat, 0nat),
{
    lemma_run_len_is(s, n);
}

/// Round trip. Whenever a parse reports a length above zero, writing the
/// reported value in decimal, with zeros in front to make up the reported
/// length, gives a string of exactly that length whose parse reports the
/// same value and length again.
pub proof fn lemma_round_trip(s: Seq<u8>)
    requires
        parsed(s).1 > 0,
    ensures
        zero_padded(parsed(s).0, parsed(s).1).len() == parsed(s).1,
        parsed(zero_padded(parsed(s).0, parsed(s).1)) == parsed(s),
{
    let value = parsed(s).0;
    let len = parsed(s).1;
    let run = digit_run(s);
    lemma_run_len_props(s);
    assert forall|i: int| 0 <= i < run.len() implies is_digit(#[trigger] run[i]) by {
        assert(is_digit(s[i]));
    }
    lemma_value_bound(run);
    lemma_decimal_digits(value);
    lemma_decimal_digits_len(value, len);
    let digits = decimal_digits(value);
    let count = (len - digits.len()) as nat;
    lemma_leading_zeros(count, digits);
    let text = zero_padded(value, len);
    assert(text == zeros(count) + digits);
    assert forall|i: int| 0 <= i < len implies is_digit(#[trigger] text[i]) by {}
    lemma_run_len_is(text, len as int);
    assert(text.take(len as int) =~= text);
}

/// Agreement with the byte-by-byte reference. On every string, reading byte
/// by byte with a check for overflow at each step reports what a parse
/// reports: the same value and length where the number fits in 64 bits, and
/// `(0, 0)` where it does not.
pub proof fn lemma_scalar_agrees(s: Seq<u8>)
    ensures
        scalar_parse(s) == parsed(s),
{
    lemma_scalar_from(s, 0, 0);
}

/// Independence of alignment. Two buffers that hold the same `len` bytes,
/// one from `first_start` on and the other from `second_start` on, give the
/// same parse of those bytes, whatever else the buffers hold and wherever
/// the bytes start.
pub proof fn lemma_alignment_independence(
    first: Seq<u8>,
    first_start: int,
    second: Seq<u8>,
    second_start: int,
    len: int,
)
    requires
        0 <= len,
        0 <= first_start && first_start + len <= first.len(),
        0 <= second_start && second_start + len <= second.len(),
        forall|i: int|
            0 <= i < len ==> #[trigger] first[first_start + i] == second[second_start + i],
    ensures
        parsed(first.subrange(first_start, first_start + len)) == parsed(
            second.subrange(second_start, second_start + len),
        ),
{
    let a = first.subrange(first_start, first_start + len);
    let b = second.subrange(second_start, second_start + len);
    assert forall|i: int| 0 <= i < len implies a[i] == b[i] by {
        assert(first[first_start + i] == second[second_start + i]);
    }
    assert(a =~= b);
}

/// Bytes after the digit run have no part in a parse: whatever follows the
/// first byte that is no digit, the parse reports the same.
pub proof fn lemma_rest_ignored(s: Seq<u8>, rest: Seq<u8>)
    requires
        digit_run_len(s) < s.len(),
    ensures
        parsed(s.take(digit_run_len(s) as int + 1) + rest) == parsed(s),
{
    let n = digit_run_len(s) as int;
    let t = s.take(n + 1) + rest;
    lemma_run_len_props(s);
    assert forall|i: int| 0 <= i < n implies is_digit(#[trigger] t[i]) by {
        assert(is_digit(s[i]));
    }
    assert(t[n] == s[n]);
    lemma_run_len_is(t, n);
    assert(digit_run(t) =~= digit_run(s));
}

} // verus!
