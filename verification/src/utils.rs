//! Constant tables and the small vector helpers built on them: the powers of
//! ten that carry a value across chunks, alternating-lane constants, and the
//! two variable byte shifts.

use crate::decimal::pow10;
use crate::lanes::{byte_of, to_byte, to_word, word_of, Chunk};
use vstd::prelude::*;

verus! {

/// `POWERS_OF_TEN[k]` is `10^k`, for every power that fits in 64 bits.
pub const POWERS_OF_TEN: [u64; 20] = [
    1,
    10,
    100,
    1000,
    10000,
    100000,
    1000000,
    10000000,
    100000000,
    1000000000,
    10000000000,
    100000000000,
    1000000000000,
    10000000000000,
    100000000000000,
    1000000000000000,
    10000000000000000,
    100000000000000000,
    1000000000000000000,
    10000000000000000000,
];

/// Shuffle controls for [`shift_left_8x16`]: sixteen lanes that select zero,
/// then the sixteen lane numbers in order.
pub const SHIFT_LEFT_CONTROL: [i8; 32] = [
    -128, -128, -128, -128,
    -128, -128, -128, -128,
    -128, -128, -128, -128,
    -128, -128, -128, -128,
    0, 1, 2, 3,
    4, 5, 6, 7,
    8, 9, 10, 11,
    12, 13, 14, 15,
];

/// Shuffle controls for [`shift_right_8x16`]: the sixteen lane numbers in
/// order, then sixteen lanes that select zero.
pub const SHIFT_RIGHT_CONTROL: [i8; 32] = [
    0, 1, 2, 3,
    4, 5, 6, 7,
    8, 9, 10, 11,
    12, 13, 14, 15,
    -128, -128, -128, -128,
    -128, -128, -128, -128,
    -128, -128, -128, -128,
    -128, -128, -128, -128,
];

/// Every entry of [`POWERS_OF_TEN`] is the power of ten of its index.
pub proof fn lemma_powers_of_ten()
    ensures
        forall|k: int| 0 <= k < 20 ==> #[trigger] POWERS_OF_TEN@[k] == pow10(k as nat),
{
    reveal_with_fuel(pow10, 21);
}

/// A chunk whose byte lanes alternate: even lanes hold `y`, odd lanes `x`.
pub fn _mm_set2_epi8(x: i8, y: i8) -> (r: Chunk)
    ensures
        forall|i: int|
            0 <= i < 16 ==> r@[i] == byte_of(
                if i % 2 == 0 {
                    y
                } else {
                    x
                },
            ),
{
    let xb: u8 = to_byte(x);
    let yb: u8 = to_byte(y);
    Chunk::from_bytes([yb, xb, yb, xb, yb, xb, yb, xb, yb, xb, yb, xb, yb, xb, yb, xb])
}

/// A chunk whose 16-bit lanes alternate: even lanes hold `y`, odd lanes `x`.
pub fn _mm_set2_epi16(x: i16, y: i16) -> (r: Chunk)
    ensures
        forall|i: int|
            0 <= i < 8 ==> #[trigger] r.word(i) == word_of(
                if i % 2 == 0 {
                    y
                } else {
                    x
                },
            ),
{
    let xw: u16 = to_word(x);
    let yw: u16 = to_word(y);
    Chunk::from_words([yw, xw, yw, xw, yw, xw, yw, xw])
}

/// Moves every byte of `x` up by `amount` lanes: lane `j` of the result is
/// lane `j - amount` of `x`, and the `amount` lowest lanes are zero.
pub fn shift_left_8x16(x: Chunk, amount: usize) -> (r: Chunk)
    requires
        amount <= 16,
    ensures
        forall|j: int|
            0 <= j < 16 ==> r@[j] == if j >= amount {
                x@[j - amount]
            } else {
                0u8
            },
{
    let shuffle = Chunk::load_signed(&SHIFT_LEFT_CONTROL, 16 - amount);
    x.shuffle(&shuffle)
}

/// Moves every byte of `x` down by `amount` lanes: lane `j` of the result is
/// lane `j + amount` of `x`, and the `amount` highest lanes are zero.
pub fn shift_right_8x16(x: Chunk, amount: usize) -> (r: Chunk)
    requires
        amount <= 16,
    ensures
        forall|j: int|
            0 <= j < 16 ==> r@[j] == if j + amount < 16 {
                x@[j + amount]
            } else {
                0u8
            },
{
    let shuffle = Chunk::load_signed(&SHIFT_RIGHT_CONTROL, amount);
    x.shuffle(&shuffle)
}

} // verus!
