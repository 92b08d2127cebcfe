//! Inputs with a known answer: a number written out with zeros in front and
//! arbitrary bytes behind, made so that a parse must give the number back.

use crate::decimal::{digit_run, is_digit, lemma_run_len_is, parsed, pow10};
use crate::format::{
    decimal_digits, lemma_decimal_digits, lemma_decimal_digits_len, lemma_leading_zeros,
    push_decimal, zeros,
};
use crate::kernel::ParseResult;
use vstd::prelude::*;

verus! {

/// A number, how many zeros to write in front of it, and what to write
/// behind it.
#[derive(Clone, Debug)]
pub struct ValidNumber {
    pub leading_zero_count: usize,
    pub number: u64,
    pub suffix: Vec<u8>,
}

/// A byte of the suffix as it is written: a digit is moved up by ten, past
/// the digits, so that no digit follows the number; other bytes stay.
pub open spec fn disguised(c: u8) -> u8 {
    if is_digit(c) {
        (c + 10) as u8
    } else {
        c
    }
}

impl ValidNumber {
    /// The number of zeros written in front: the count that was asked for,
    /// held below 25.
    pub open spec fn zero_count(&self) -> nat {
        (self.leading_zero_count % 25) as nat
    }

    /// The zeros and the digits of the number.
    pub open spec fn digits(&self) -> Seq<u8> {
        zeros(self.zero_count()) + decimal_digits(self.number as nat)
    }

    /// The whole text: zeros, the number, the disguised suffix.
    pub open spec fn text(&self) -> Seq<u8> {
        self.digits() + self.suffix@.map_values(|c: u8| disguised(c))
    }

    /// Writes the text out.
    pub fn input(&self) -> (r: Vec<u8>)
        ensures
            r@ == self.text(),
    {
        let zero_count: usize = self.leading_zero_count % 25;
        let mut input: Vec<u8> = Vec::new();
        let mut i: usize = 0;
        while i < zero_count
            invariant
                i <= zero_count,
                input@ == zeros(i as nat),
            decreases zero_count - i,
        {
            input.push(0x30);
            i += 1;
            assert(input@ =~= zeros(i as nat));
        }
        push_decimal(&mut input, self.number);
        let mut j: usize = 0;
        assert(input@ =~= self.digits() + self.suffix@.take(0).map_values(|c: u8| disguised(c)));
        while j < self.suffix.len()
            invariant
                j <= self.suffix.len(),
                input@ == self.digits() + self.suffix@.take(j as int).map_values(
                    |c: u8| disguised(c),
                ),
            decreases self.suffix.len() - j,
        {
            let c: u8 = self.suffix[j];
            if c >= 0x30 && c <= 0x39 {
                input.push(c + 10);
            } else {
                input.push(c);
            }
            j += 1;
            assert(input@ =~= self.digits() + self.suffix@.take(j as int).map_values(
                |c: u8| disguised(c),
            ));
        }
        assert(self.suffix@.take(j as int) =~= self.suffix@);
        input
    }

    /// What a parse of the text must report: the number, and the length of
    /// the zeros and digits.
    pub fn expected(&self) -> (r: ParseResult)
        ensures
            r@ == (self.number as nat, self.digits().len()),
            r@ == parsed(self.text()),
    {
        let mut len: usize = self.leading_zero_count % 25 + 1;
        let mut rest: u64 = self.number;
        proof {
            reveal_with_fuel(pow10, 21);
            lemma_decimal_digits_len(self.number as nat, 20);
        }
        while rest >= 10
            invariant
                self.digits().len() <= 44,
                len + decimal_digits(rest as nat).len() == self.digits().len() + 1,
            decreases rest,
        {
            proof {
                lemma_decimal_digits((rest / 10) as nat);
            }
            rest = rest / 10;
            len += 1;
        }
        proof {
            lemma_valid_number(*self);
        }
        ParseResult { value: self.number, len: len }
    }
}

/// A parse of the text of a valid number reports the number and the length
/// of its zeros and digits, whatever the suffix holds.
pub proof fn lemma_valid_number(v: ValidNumber)
    ensures
        parsed(v.text()) == (v.number as nat, v.digits().len()),
{
    let number = decimal_digits(v.number as nat);
    let digits = v.digits();
    let text = v.text();
    let n = digits.len() as int;
    lemma_decimal_digits(v.number as nat);
    lemma_leading_zeros(v.zero_count(), number);
    assert forall|i: int| 0 <= i < n implies is_digit(#[trigger] text[i]) by {
        assert(text[i] == digits[i]);
    }
    if n < text.len() {
        assert(text[n] == disguised(v.suffix@[0]));
    }
    lemma_run_len_is(text, n);
    assert(digit_run(text) =~= digits);
}

} // verus!
