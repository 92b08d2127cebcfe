//! The byte-at-a-time parser: the portable stand-in for the chunked kernel
//! and the reference that the kernel is held against.

use crate::decimal::{
    all_digits, decimal_value, digit_run, digit_run_len, is_digit, lemma_run_len_is,
    lemma_run_len_props, lemma_value_prefix_monotone, lemma_value_step, parsed,
};
use crate::kernel::ParseResult;
use vstd::prelude::*;

verus! {

/// What reading byte by byte reports for `s`, having read the `i` digits at
/// its front and holding their value in `acc`: it reads on while the next
/// byte is a digit, gives `(0, 0)` as soon as the value passes 64 bits, and
/// otherwise stops with the value and the number of digits read.
pub open spec fn scalar_parse_from(s: Seq<u8>, i: nat, acc: nat) -> (nat, nat)
    decreases s.len() - i,
{
    if i < s.len() && is_digit(s[i as int]) {
        let next = (10 * acc + (s[i as int] - 0x30)) as nat;
        if next > u64::MAX {
            (0, 0)
        } else {
            scalar_parse_from(s, i + 1, next)
        }
    } else {
        (acc, i)
    }
}

/// What reading `s` byte by byte from its start reports.
pub open spec fn scalar_parse(s: Seq<u8>) -> (nat, nat) {
    scalar_parse_from(s, 0, 0)
}

/// From any point of a byte-by-byte reading that has read digits only and
/// holds their value, the reading ends with what a parse of the whole string
/// reports.
pub proof fn lemma_scalar_from(s: Seq<u8>, i: nat, acc: nat)
    requires
        i <= s.len(),
        all_digits(s.take(i as int)),
        acc == decimal_value(s.take(i as int)),
        acc <= u64::MAX,
    ensures
        scalar_parse_from(s, i, acc) == parsed(s),
    decreases s.len() - i,
{
    assert forall|k: int| 0 <= k < i implies is_digit(#[trigger] s[k]) by {
        assert(is_digit(s.take(i as int)[k]));
    }
    if i < s.len() && is_digit(s[i as int]) {
        let next = (10 * acc + (s[i as int] - 0x30)) as nat;
        lemma_value_step(s, i as int);
        assert forall|k: int| 0 <= k < i + 1 implies is_digit(#[trigger] s.take(i as int + 1)[k]) by {
            if k < i {
                assert(is_digit(s.take(i as int)[k]));
            }
        }
        if next > u64::MAX {
            lemma_run_len_props(s);
            let n = digit_run_len(s);
            if n < i + 1 {
                assert(is_digit(s[n as int]));
            }
            assert(digit_run(s).take(i as int + 1) =~= s.take(i as int + 1));
            lemma_value_prefix_monotone(digit_run(s), i as int + 1);
        } else {
            lemma_scalar_from(s, i + 1, next);
        }
    } else {
        lemma_run_len_is(s, i as int);
    }
}

/// Parses the unsigned decimal number at the front of `x` one byte at a
/// time. It reports what [`crate::parse`] reports.
pub fn parse_scalar(x: &[u8]) -> (r: ParseResult)
    ensures
        r@ == scalar_parse(x@),
        r@ == parsed(x@),
{
    let mut value: u64 = 0;
    let mut i: usize = 0;
    proof {
        lemma_scalar_from(x@, 0, 0);
    }
    while i < x.len()
        invariant
            i <= x.len(),
            scalar_parse_from(x@, i as nat, value as nat) == scalar_parse(x@),
            scalar_parse(x@) == parsed(x@),
        ensures
            (value as nat, i as nat) == scalar_parse(x@),
        decreases x.len() - i,
    {
        let c: u8 = x[i].wrapping_sub(0x30);
        if c > 9 {
            break;
        }
        let shifted: u64 = match value.checked_mul(10) {
            Some(v) => v,
            None => {
                return ParseResult { value: 0, len: 0 };
            },
        };
        value = match shifted.checked_add(c as u64) {
            Some(v) => v,
            None => {
                return ParseResult { value: 0, len: 0 };
            },
        };
        i += 1;
    }
    ParseResult { value: value, len: i }
}

} // verus!
