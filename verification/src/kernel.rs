//! The parsing kernel: sixteen digits at a time through the lane operations,
//! with a carry from chunk to chunk for longer digit runs.

use crate::decimal::{
    all_digits, decimal_value, digit_run, digit_run_len, is_digit, lemma_pow10_increases,
    lemma_run_len_is, lemma_run_len_props, lemma_value_bound, lemma_value_concat,
    lemma_value_prefix_monotone, lemma_value_step, lemma_value_zeros, parsed, pow10,
};
use crate::lanes::{
    bit, byte_of, byte_pair_sum, padded, saturate_i16, saturate_u16, signed16, signed32, signed64,
    signed8, to_byte, word_of, word_pair_sum, wrap32, Chunk,
};
use crate::utils::{
    _mm_set2_epi16, _mm_set2_epi8, lemma_powers_of_ten, shift_left_8x16, shift_right_8x16,
    POWERS_OF_TEN,
};
use vstd::prelude::*;
use vstd::std_specs::bits::{axiom_u32_trailing_zeros, u32_trailing_zeros};
use vstd::std_specs::convert::FromSpecImpl;

verus! {

/// The outcome of a parse: the number read and how many bytes it took.
/// A length of zero says that no number was read, either because the input
/// starts with no digit or because the number does not fit in 64 bits.
#[derive(PartialEq, Eq, Debug, Structural)]
pub struct ParseResult {
    pub value: u64,
    pub len: usize,
}

impl View for ParseResult {
    type V = (nat, nat);

    /// The pair (value, consumed length).
    open spec fn view(&self) -> (nat, nat) {
        (self.value as nat, self.len as nat)
    }
}

impl From<ParseResult> for Option<u64> {
    /// The value that was read, or `None` where nothing was.
    fn from(result: ParseResult) -> (r: Self) {
        if result.len == 0 {
            None
        } else {
            Some(result.value)
        }
    }
}

impl FromSpecImpl<ParseResult> for Option<u64> {
    open spec fn obeys_from_spec() -> bool {
        true
    }

    open spec fn from_spec(result: ParseResult) -> Self {
        if result.len == 0 {
            None
        } else {
            Some(result.value)
        }
    }
}

impl From<ParseResult> for Result<u64, ()> {
    /// The value that was read, or `Err(())` where nothing was.
    fn from(result: ParseResult) -> (r: Self) {
        if result.len == 0 {
            Err(())
        } else {
            Ok(result.value)
        }
    }
}

impl FromSpecImpl<ParseResult> for Result<u64, ()> {
    open spec fn obeys_from_spec() -> bool {
        true
    }

    open spec fn from_spec(result: ParseResult) -> Self {
        if result.len == 0 {
            Err(())
        } else {
            Ok(result.value)
        }
    }
}

/// The number that sixteen lanes of digit values denote, lane 0 being the
/// most significant digit.
pub open spec fn packed_value(s: Seq<u8>) -> int {
    s[0] * 1_000_000_000_000_000 + s[1] * 100_000_000_000_000 + s[2] * 10_000_000_000_000 + s[3]
        * 1_000_000_000_000 + s[4] * 100_000_000_000 + s[5] * 10_000_000_000 + s[6]
        * 1_000_000_000 + s[7] * 100_000_000 + s[8] * 10_000_000 + s[9] * 1_000_000 + s[10]
        * 100_000 + s[11] * 10_000 + s[12] * 1_000 + s[13] * 100 + s[14] * 10 + s[15]
}

/// The number of lanes that a mask for `len` bytes keeps: `len`, held to the
/// range from 0 to 16.
pub open spec fn kept_lanes(len: i8) -> int {
    if len < 0 {
        0
    } else if len > 16 {
        16
    } else {
        len as int
    }
}

/// The no-op that marks the branches that are rarely taken.
#[inline]
pub fn cold_path() {
}

/// Counts the lanes at the front of `values` that hold a digit value, that
/// is, a byte of at most nine: the result is the number of the first lane
/// that holds more, or 16 where none does.
pub fn leading_digit_count(values: &Chunk) -> (n: usize)
    ensures
        n <= 16,
        forall|j: int| 0 <= j < n ==> values@[j] <= 9,
        n < 16 ==> values@[n as int] > 9,
{
    // a lane of the mask is set where the value is above nine; both sides
    // are moved by 128 first because the comparison is signed
    let nine_bytes = Chunk::splat(9);
    let wrap = Chunk::splat(0x80);
    let biased = values.add_bytes(&wrap);
    let limit = nine_bytes.add_bytes(&wrap);
    let is_ascii_bytemask = biased.greater_signed(&limit);

    // the bit above the sixteen lanes is set so that the count stops at 16
    // when every lane is a digit
    let lane_bits = is_ascii_bytemask.sign_mask();
    let is_ascii_bitmask = lane_bits | 0x10000;

    let digit_count = is_ascii_bitmask.trailing_zeros() as usize;
    proof {
        lemma_scan(*values, biased, limit, is_ascii_bytemask, lane_bits);
    }
    digit_count
}

/// Folds sixteen lanes of digit values into the number that they denote,
/// lane 0 being the most significant digit.
pub fn fold_digits(packed: &Chunk) -> (value: u64)
    requires
        forall|j: int| 0 <= j < 16 ==> packed@[j] <= 9,
    ensures
        value == packed_value(packed@),
{
    // each pair of digits becomes tens * 10 + ones
    let tens = _mm_set2_epi8(1, 10);
    let pairs = packed.mul_add_bytes(&tens);

    // each pair of pairs becomes hundreds * 100 + ones (still fits 16 bits)
    let hundreds = _mm_set2_epi16(1, 100);
    let quads = pairs.mul_add_words(&hundreds);

    // the sums are 32 bits wide now; pack them back into 16-bit lanes, which
    // they fit as they are below 100 * 100
    let narrowed = quads.pack_dwords(&quads);

    // each pair of groups of four digits becomes one group of eight
    let ten_thousands = Chunk::from_words([10000, 1, 10000, 1, 0, 0, 0, 0]);
    let halves = narrowed.mul_add_words(&ten_thousands);

    // the two groups of eight digits are the two halves of the low 64 bits
    let low: i64 = halves.low_i64();
    proof {
        lemma_reduction(*packed, tens, pairs, hundreds, quads, narrowed, ten_thousands, halves);
        assert(low >> 32 == low / 0x1_0000_0000 && low & 0xffffffff == low % 0x1_0000_0000)
            by (bit_vector)
            requires
                low >= 0,
        ;
    }
    let r_high: i64 = low >> 32;
    let r_low: i64 = low & 0xffffffff;

    (r_high + (r_low * 100000000)) as u64
}

/// Reads the digits at the front of a chunk: the length of the leading digit
/// run among the sixteen lanes and the number that it denotes.
pub fn parse_16_chars(input: Chunk) -> (r: ParseResult)
    ensures
        r.len == digit_run_len(input@),
        r.value == decimal_value(digit_run(input@)),
{
    let mut chunk = input;

    // subtract '0' from the chunk so that digit characters become their
    // value (i.e. '0' -> 0)
    let ascii_zeros = Chunk::splat(0x30);
    chunk = chunk.sub_bytes(&ascii_zeros);
    let ghost digits = chunk;

    let digit_count = leading_digit_count(&chunk);
    let non_digit_count: usize = 16 - digit_count;

    // move the digits to the top lanes, so that everything from the first
    // non-digit on is gone and the low lanes are zero
    chunk = shift_left_8x16(chunk, non_digit_count);
    proof {
        lemma_digit_values(input, digits, digit_count as int);
        lemma_packing(input, digits, chunk);
    }

    ParseResult { value: fold_digits(&chunk), len: digit_count }
}

/// Reads the digits at the front of the first `len` lanes of a chunk; the
/// lanes from `len` on are taken to lie after the end of the input and are
/// masked away before they can count as digits.
pub fn parse_last_chars(chunk: Chunk, len: i8) -> (r: ParseResult)
    ensures
        r.len == digit_run_len(chunk@.take(kept_lanes(len))),
        r.value == decimal_value(digit_run(chunk@.take(kept_lanes(len)))),
{
    // sixteen bytes were loaded, so the ones after the end of the input
    // have to be masked
    let indices = Chunk::from_bytes([0, 1, 2, 3, 4, 5, 6, 7, 8, 9, 10, 11, 12, 13, 14, 15]);
    let lengths = Chunk::splat(to_byte(len));
    let is_before_end_mask = lengths.greater_signed(&indices);

    let masked = chunk.and(&is_before_end_mask);
    proof {
        assert forall|i: int| 0 <= i < 16 implies masked@[i] == if i < kept_lanes(len) {
            chunk@[i]
        } else {
            0u8
        } by {
            let b = chunk@[i];
            assert(b & 0xff == b && b & 0 == 0) by (bit_vector);
            assert(indices@[i] == i);
        }
        lemma_masked_run(chunk@, masked@, kept_lanes(len));
    }

    parse_16_chars(masked)
}

/// Parses the unsigned decimal number at the front of the `len` bytes of
/// `memory` that start at `start`.
///
/// The bytes are read in chunks of sixteen that start at multiples of sixteen
/// in `memory`, so the first chunk begins up to fifteen bytes before `start`
/// and the last one may reach up to fifteen bytes past `start + len`. Whatever
/// lies outside the `len` bytes has no part in the result.
pub fn parse(memory: &[u8], start: usize, len: usize) -> (r: ParseResult)
    requires
        start + len <= memory.len(),
    ensures
        r@ == parsed(memory@.subrange(start as int, start + len)),
{
    let ghost x = memory@.subrange(start as int, start + len);
    if len <= 6 {
        let mut value: u64 = 0;
        let mut n: usize = 0;
        let mut i: usize = 0;
        proof {
            if len == 0 {
                lemma_digits_then_stop(x, 0);
            }
        }

        while i < len
            invariant
                i <= len <= 6,
                start + len <= memory.len(),
                x == memory@.subrange(start as int, start + len),
                all_digits(x.take(i as int)),
                value == decimal_value(x.take(i as int)),
                n == i,
                i == len ==> digit_run_len(x) == len && digit_run(x) == x.take(len as int),
            ensures
                n == digit_run_len(x),
                value == decimal_value(digit_run(x)),
            decreases len - i,
        {
            let c: u8 = memory[start + i].wrapping_sub(0x30);
            if c > 9 {
                proof {
                    assert(!is_digit(x[i as int]));
                    lemma_digits_then_stop(x, i as int);
                }
                break;
            }
            proof {
                assert(is_digit(x[i as int]));
                lemma_value_bound(x.take(i as int));
                lemma_pow10_increases(i as nat, 6);
                reveal_with_fuel(pow10, 7);
                lemma_value_step(x, i as int);
                assert forall|k: int| 0 <= k < i + 1 implies is_digit(
                    #[trigger] x.take(i + 1)[k],
                ) by {
                    if k < i {
                        assert(is_digit(x.take(i as int)[k]));
                    }
                }
            }
            value = value * 10 + c as u64;
            n = i + 1;
            i += 1;
            proof {
                if i == len {
                    lemma_digits_then_stop(x, i as int);
                }
            }
        }

        return ParseResult { value: value, len: n };
    }

    // the chunk that holds the first byte starts at the multiple of sixteen
    // before it
    proof {
        assert(start & 0b1111 == start % 16) by (bit_vector);
    }
    let offset: usize = start & 0b1111;
    let base: usize = start - offset;

    let mut chunk = Chunk::load(memory, base);

    // the lanes before the first byte of the input are shifted away
    chunk = shift_right_8x16(chunk, offset);

    let first_len: usize = if len < 16 {
        len
    } else {
        16
    };
    let mut result = parse_last_chars(chunk, first_len as i8);
    let mut i: usize = result.len;
    let mut value: u64 = result.value;
    proof {
        lemma_first_chunk(x, chunk@, 16 - offset, first_len as int);
    }

    // the digit run ends inside the first chunk
    if result.len != 16 - offset {
        return ParseResult { value: value, len: i };
    }

    // the common case 16 < len <= 32 gets a copy of the last round below,
    // for the sake of branch prediction
    if len - i <= 16 {
        let chunk_len: i8 = (len - i) as i8;
        chunk = Chunk::load(memory, base + 16);

        let result = parse_last_chars(chunk, chunk_len);
        proof {
            lemma_carry(x, i as int, chunk@.take(chunk_len as int));
            lemma_powers_of_ten();
        }
        i += result.len;

        // from here on overflow has to be checked: a number of twenty
        // digits or more may not fit in 64 bits
        let new_value: u64 = match value.checked_mul(POWERS_OF_TEN[result.len]) {
            Some(v) => v,
            None => {
                cold_path();
                return ParseResult { value: 0, len: 0 };
            },
        };

        let new_value: u64 = match new_value.checked_add(result.value) {
            Some(v) => v,
            None => {
                cold_path();
                return ParseResult { value: 0, len: 0 };
            },
        };

        return ParseResult { value: new_value, len: i };
    }

    cold_path();

    // more than 32 bytes: a number that fits can only be here after twelve
    // or more zeros
    let mut loops: usize = 1;

    // as above, but with whole chunks, until at most sixteen bytes are left
    loop
        invariant_except_break
            len - i > 16,
        invariant
            start + len <= memory.len(),
            x == memory@.subrange(start as int, start + len),
            i <= len,
            base + 16 * loops == start + i,
            all_digits(x.take(i as int)),
            value == decimal_value(x.take(i as int)),
        ensures
            len - i <= 16,
        decreases len - i,
    {
        chunk = Chunk::load(memory, base + 16 * loops);

        let result = parse_16_chars(chunk);
        proof {
            lemma_powers_of_ten();
            lemma_run_len_props(chunk@);
            assert forall|j: int| 0 <= j < 16 implies chunk@[j] == x[i + j] by {
                assert(chunk@[j] == padded(memory@, base + 16 * loops + j));
            }
            if result.len != 16 {
                lemma_carry(x, i as int, chunk@);
            } else {
                assert(x.take(i + 16) =~= x.take(i as int) + chunk@);
                assert(digit_run(chunk@) =~= chunk@);
                lemma_value_concat(x.take(i as int), chunk@);
                assert forall|k: int| 0 <= k < i + 16 implies is_digit(
                    #[trigger] x.take(i + 16)[k],
                ) by {
                    if k < i {
                        assert(is_digit(x.take(i as int)[k]));
                    } else {
                        assert(is_digit(chunk@[k - i]));
                    }
                }
                lemma_prefix_value(x, i + 16);
            }
        }
        i += result.len;
        loops += 1;

        let new_value: u64 = match value.checked_mul(POWERS_OF_TEN[result.len]) {
            Some(v) => v,
            None => {
                cold_path();
                return ParseResult { value: 0, len: 0 };
            },
        };

        let new_value: u64 = match new_value.checked_add(result.value) {
            Some(v) => v,
            None => {
                cold_path();
                return ParseResult { value: 0, len: 0 };
            },
        };

        value = new_value;

        if result.len != 16 {
            return ParseResult { value: value, len: i };
        }
        if len - i <= 16 {
            break;
        }
    }

    // last round: at most sixteen bytes are left
    let chunk_len: i8 = (len - i) as i8;
    chunk = Chunk::load(memory, base + 16 * loops);

    result = parse_last_chars(chunk, chunk_len);
    proof {
        lemma_carry(x, i as int, chunk@.take(chunk_len as int));
        lemma_powers_of_ten();
    }
    i += result.len;

    let value: u64 = match value.checked_mul(POWERS_OF_TEN[result.len]) {
        Some(v) => v,
        None => {
            cold_path();
            return ParseResult { value: 0, len: 0 };
        },
    };

    let value: u64 = match value.checked_add(result.value) {
        Some(v) => v,
        None => {
            cold_path();
            return ParseResult { value: 0, len: 0 };
        },
    };

    ParseResult { value: value, len: i }
}

/// In a mask of sixteen bits with a guard bit set above them, the number of
/// trailing zeros is the position of the lowest set bit of the mask, or 16
/// when the mask is empty.
proof fn lemma_lowest_set_bit(mask: u32)
    requires
        mask >> 16 == 0,
    ensures
        u32_trailing_zeros(mask | 0x10000) <= 16,
        forall|j: u32| 0 <= j < u32_trailing_zeros(mask | 0x10000) ==> !bit(mask, j),
        u32_trailing_zeros(mask | 0x10000) < 16 ==> bit(
            mask,
            u32_trailing_zeros(mask | 0x10000),
        ),
{
    let guarded = mask | 0x10000;
    let tz = u32_trailing_zeros(guarded);
    axiom_u32_trailing_zeros(guarded);
    assert(((mask | 0x10000) >> 16u32) & 1 == 1) by (bit_vector)
        requires
            mask >> 16 == 0,
    ;
    if tz > 16 {
        assert((guarded >> 16u32) & 1 == 0);
    }
    assert forall|j: u32| 0 <= j < tz implies !bit(mask, j) by {
        assert((guarded >> j) & 1 == 0);
        assert(((mask | 0x10000) >> j) & 1 == (mask >> j) & 1) by (bit_vector)
            requires
                j < 16,
        ;
    }
    if tz < 16 {
        assert(((mask | 0x10000) >> tz) & 1 == (mask >> tz) & 1) by (bit_vector)
            requires
                tz < 16,
        ;
    }
}

/// The sign bits of the comparison mask mark the lanes that hold more than
/// nine, so the lowest set bit, with the guard bit above the lanes, is the
/// number of the first such lane.
proof fn lemma_scan(values: Chunk, biased: Chunk, limit: Chunk, mask: Chunk, lane_bits: u32)
    requires
        forall|i: int| 0 <= i < 16 ==> biased@[i] == values@[i].wrapping_add(0x80u8),
        forall|i: int| 0 <= i < 16 ==> limit@[i] == 9u8.wrapping_add(0x80u8),
        forall|i: int|
            0 <= i < 16 ==> mask@[i] == if signed8(biased@[i]) > signed8(limit@[i]) {
                0xffu8
            } else {
                0u8
            },
        lane_bits >> 16 == 0,
        forall|j: u32| 0 <= j < 16 ==> (#[trigger] bit(lane_bits, j) <==> mask@[j as int] >= 0x80),
    ensures
        u32_trailing_zeros(lane_bits | 0x10000) <= 16,
        forall|j: int| 0 <= j < u32_trailing_zeros(lane_bits | 0x10000) ==> values@[j] <= 9,
        u32_trailing_zeros(lane_bits | 0x10000) < 16 ==> values@[u32_trailing_zeros(
            lane_bits | 0x10000,
        ) as int] > 9,
{
    let n = u32_trailing_zeros(lane_bits | 0x10000);
    lemma_lowest_set_bit(lane_bits);
    assert forall|j: int| 0 <= j < 16 implies (mask@[j] >= 0x80 <==> values@[j] > 9) by {
        assert(biased@[j] == values@[j].wrapping_add(0x80u8));
        assert(limit@[j] == 0x89);
    }
    assert forall|j: int| 0 <= j < n implies values@[j] <= 9 by {
        assert(!bit(lane_bits, j as u32));
    }
    if n < 16 {
        assert(bit(lane_bits, n));
    }
}

/// A byte is a digit exactly when `'0'` taken from it leaves at most nine, so
/// the count of leading digit values is the length of the leading digit run.
proof fn lemma_digit_values(input: Chunk, digits: Chunk, n: int)
    requires
        forall|i: int| 0 <= i < 16 ==> digits@[i] == input@[i].wrapping_sub(0x30u8),
        0 <= n <= 16,
        forall|j: int| 0 <= j < n ==> digits@[j] <= 9,
        n < 16 ==> digits@[n] > 9,
    ensures
        digit_run_len(input@) == n,
{
    assert forall|j: int| 0 <= j < n implies is_digit(#[trigger] input@[j]) by {
        assert(digits@[j] == input@[j].wrapping_sub(0x30u8));
        assert(digits@[j] <= 9);
    }
    if n < 16 {
        assert(digits@[n] == input@[n].wrapping_sub(0x30u8));
    }
    lemma_run_len_is(input@, n);
}

/// Sixteen digit characters denote the packed value of their digit values.
proof fn lemma_horner(t: Seq<u8>, s: Seq<u8>)
    requires
        t.len() == 16,
        s.len() == 16,
        forall|j: int| 0 <= j < 16 ==> s[j] <= 9 && t[j] == s[j] + 0x30,
    ensures
        decimal_value(t) == packed_value(s),
{
    assert(t.take(16) =~= t);
    assert(decimal_value(t.take(0)) == 0);
    lemma_value_step(t, 0);
    lemma_value_step(t, 1);
    lemma_value_step(t, 2);
    lemma_value_step(t, 3);
    let h4 = s[0] * 1000 + s[1] * 100 + s[2] * 10 + s[3];
    assert(decimal_value(t.take(4)) == h4);
    lemma_value_step(t, 4);
    lemma_value_step(t, 5);
    lemma_value_step(t, 6);
    lemma_value_step(t, 7);
    let h8 = h4 * 10000 + s[4] * 1000 + s[5] * 100 + s[6] * 10 + s[7];
    assert(decimal_value(t.take(8)) == h8);
    lemma_value_step(t, 8);
    lemma_value_step(t, 9);
    lemma_value_step(t, 10);
    lemma_value_step(t, 11);
    let h12 = h8 * 10000 + s[8] * 1000 + s[9] * 100 + s[10] * 10 + s[11];
    assert(decimal_value(t.take(12)) == h12);
    lemma_value_step(t, 12);
    lemma_value_step(t, 13);
    lemma_value_step(t, 14);
    lemma_value_step(t, 15);
    let h16 = h12 * 10000 + s[12] * 1000 + s[13] * 100 + s[14] * 10 + s[15];
    assert(decimal_value(t.take(16)) == h16);
}

/// A digit string of at most sixteen digits, written as digit values into
/// the highest lanes of a chunk with zeros below, denotes the packed value of
/// those lanes.
proof fn lemma_packed_value(run: Seq<u8>, s: Seq<u8>)
    requires
        run.len() <= 16,
        all_digits(run),
        s.len() == 16,
        forall|j: int|
            0 <= j < 16 ==> s[j] == if j >= 16 - run.len() {
                run[j - (16 - run.len())] - 0x30
            } else {
                0
            },
    ensures
        decimal_value(run) == packed_value(s),
{
    let t = Seq::new(16, |j: int| (s[j] + 0x30) as u8);
    let k = 16 - run.len();
    let zeros = t.take(k);
    assert(zeros + run =~= t);
    lemma_value_zeros(zeros);
    lemma_value_concat(zeros, run);
    assert(decimal_value(zeros) * pow10(run.len()) == 0) by (nonlinear_arith)
        requires
            decimal_value(zeros) == 0,
    ;
    lemma_horner(t, s);
}

/// Once the bytes after the digit run are shifted out, the lanes hold the
/// digit values of the run, and their packed value is the number that the
/// run denotes.
proof fn lemma_packing(input: Chunk, digits: Chunk, packed: Chunk)
    requires
        forall|i: int| 0 <= i < 16 ==> digits@[i] == input@[i].wrapping_sub(0x30u8),
        digit_run_len(input@) <= 16,
        forall|j: int|
            0 <= j < 16 ==> packed@[j] == if j >= 16 - digit_run_len(input@) {
                digits@[j - (16 - digit_run_len(input@))]
            } else {
                0u8
            },
    ensures
        forall|j: int| 0 <= j < 16 ==> packed@[j] <= 9,
        packed_value(packed@) == decimal_value(digit_run(input@)),
{
    let run = digit_run(input@);
    lemma_run_len_props(input@);
    assert forall|j: int| 0 <= j < 16 implies packed@[j] <= 9 && packed@[j] == if j >= 16
        - run.len() {
        run[j - (16 - run.len())] - 0x30
    } else {
        0
    } by {
        if j >= 16 - run.len() {
            let k = j - (16 - run.len());
            assert(is_digit(input@[k]));
            assert(digits@[k] == input@[k].wrapping_sub(0x30u8));
        }
    }
    lemma_packed_value(run, packed@);
}

/// One lane of the first folding round: two digit values, weighted ten and
/// one, give a number below a hundred, which no saturation touches.
proof fn lemma_pair_lane(packed: Chunk, tens: Chunk, pairs: Chunk, i: int)
    requires
        0 <= i < 8,
        packed@[2 * i] <= 9,
        packed@[2 * i + 1] <= 9,
        tens@[2 * i] == 10,
        tens@[2 * i + 1] == 1,
        signed16(pairs.word(i)) == saturate_i16(byte_pair_sum(packed@, tens@, i)),
    ensures
        pairs.word(i) == 10 * packed@[2 * i] + packed@[2 * i + 1],
{
    assert(byte_pair_sum(packed@, tens@, i) == packed@[2 * i] * 10 + packed@[2 * i + 1] * 1);
}

/// One lane of a later folding round: two neighbouring 16-bit lanes of at
/// most `bound`, weighted `weight` and one, give their weighted sum, which no
/// wrapping touches.
proof fn lemma_wide_lane(
    narrow: Chunk,
    weights: Chunk,
    wide: Chunk,
    i: int,
    weight: int,
    bound: int,
)
    requires
        0 <= i < 4,
        0 < weight <= 10000,
        bound < weight,
        narrow.word(2 * i) <= bound,
        narrow.word(2 * i + 1) <= bound,
        weights.word(2 * i) == weight,
        weights.word(2 * i + 1) == 1,
        wide.dword(i) == wrap32(word_pair_sum(narrow@, weights@, i)),
    ensures
        wide.dword(i) == weight * narrow.word(2 * i) + narrow.word(2 * i + 1),
        wide.dword(i) <= weight * bound + bound,
{
    let a = narrow.word(2 * i);
    let b = narrow.word(2 * i + 1);
    assert(word_pair_sum(narrow@, weights@, i) == a * weight + b * 1);
    assert(0 <= a * weight <= 9999 * 10000 && a * weight <= bound * weight) by (nonlinear_arith)
        requires
            0 <= a <= bound,
            bound < weight <= 10000,
    ;
}

/// The arithmetic of the folding tree: digits fold to pairs, pairs to groups
/// of four, those to the two halves, and the halves make up the packed
/// value.
proof fn lemma_tree(s: Seq<u8>, p: Seq<int>, q: Seq<int>, upper: int, lower: int)
    requires
        s.len() == 16,
        p.len() == 8,
        q.len() == 4,
        forall|j: int| 0 <= j < 16 ==> s[j] <= 9,
        p[0] == 10 * s[0] + s[1],
        p[1] == 10 * s[2] + s[3],
        p[2] == 10 * s[4] + s[5],
        p[3] == 10 * s[6] + s[7],
        p[4] == 10 * s[8] + s[9],
        p[5] == 10 * s[10] + s[11],
        p[6] == 10 * s[12] + s[13],
        p[7] == 10 * s[14] + s[15],
        q[0] == 100 * p[0] + p[1],
        q[1] == 100 * p[2] + p[3],
        q[2] == 100 * p[4] + p[5],
        q[3] == 100 * p[6] + p[7],
        upper == 10000 * q[0] + q[1],
        lower == 10000 * q[2] + q[3],
    ensures
        0 <= upper < 100_000_000,
        0 <= lower < 100_000_000,
        upper * 100_000_000 + lower == packed_value(s),
{
}

/// Two numbers below 10^8 that stand side by side in 64 bits can be read
/// back by division and remainder, and the 64 bits are no negative number.
proof fn lemma_halves(lo: int, hi: int)
    requires
        0 <= lo < 100_000_000,
        0 <= hi < 100_000_000,
    ensures
        signed64(lo + 0x1_0000_0000 * hi) == lo + 0x1_0000_0000 * hi,
        (lo + 0x1_0000_0000 * hi) % 0x1_0000_0000 == lo,
        (lo + 0x1_0000_0000 * hi) / 0x1_0000_0000 == hi,
{
}

/// The four folding rounds turn sixteen lanes of digit values into the two
/// halves of their packed value: the upper eight digits in the lowest 32-bit
/// lane, the lower eight digits in the next one.
proof fn lemma_reduction(
    packed: Chunk,
    tens: Chunk,
    pairs: Chunk,
    hundreds: Chunk,
    quads: Chunk,
    narrowed: Chunk,
    ten_thousands: Chunk,
    halves: Chunk,
)
    requires
        forall|j: int| 0 <= j < 16 ==> packed@[j] <= 9,
        forall|i: int| 0 <= i < 16 ==> tens@[i] == byte_of(if i % 2 == 0 { 10i8 } else { 1i8 }),
        forall|i: int|
            0 <= i < 8 ==> signed16(#[trigger] pairs.word(i)) == saturate_i16(
                byte_pair_sum(packed@, tens@, i),
            ),
        forall|i: int|
            0 <= i < 8 ==> #[trigger] hundreds.word(i) == word_of(
                if i % 2 == 0 { 100i16 } else { 1i16 },
            ),
        forall|i: int|
            0 <= i < 4 ==> #[trigger] quads.dword(i) == wrap32(
                word_pair_sum(pairs@, hundreds@, i),
            ),
        forall|i: int|
            0 <= i < 4 ==> #[trigger] narrowed.word(i) == saturate_u16(signed32(quads.dword(i))),
        forall|i: int|
            0 <= i < 4 ==> #[trigger] narrowed.word(4 + i) == saturate_u16(
                signed32(quads.dword(i)),
            ),
        ten_thousands.word(0) == 10000,
        ten_thousands.word(1) == 1,
        ten_thousands.word(2) == 10000,
        ten_thousands.word(3) == 1,
        forall|i: int|
            0 <= i < 4 ==> #[trigger] halves.dword(i) == wrap32(
                word_pair_sum(narrowed@, ten_thousands@, i),
            ),
    ensures
        0 <= halves.dword(0) < 100_000_000,
        0 <= halves.dword(1) < 100_000_000,
        halves.dword(0) * 100_000_000 + halves.dword(1) == packed_value(packed@),
        signed64(halves.low_qword()) >= 0,
        signed64(halves.low_qword()) % 0x1_0000_0000 == halves.dword(0),
        signed64(halves.low_qword()) / 0x1_0000_0000 == halves.dword(1),
{
    lemma_pair_lane(packed, tens, pairs, 0);
    lemma_pair_lane(packed, tens, pairs, 1);
    lemma_pair_lane(packed, tens, pairs, 2);
    lemma_pair_lane(packed, tens, pairs, 3);
    lemma_pair_lane(packed, tens, pairs, 4);
    lemma_pair_lane(packed, tens, pairs, 5);
    lemma_pair_lane(packed, tens, pairs, 6);
    lemma_pair_lane(packed, tens, pairs, 7);
    lemma_wide_lane(pairs, hundreds, quads, 0, 100, 99);
    lemma_wide_lane(pairs, hundreds, quads, 1, 100, 99);
    lemma_wide_lane(pairs, hundreds, quads, 2, 100, 99);
    lemma_wide_lane(pairs, hundreds, quads, 3, 100, 99);
    assert(narrowed.word(0) == quads.dword(0));
    assert(narrowed.word(1) == quads.dword(1));
    assert(narrowed.word(2) == quads.dword(2));
    assert(narrowed.word(3) == quads.dword(3));
    lemma_wide_lane(narrowed, ten_thousands, halves, 0, 10000, 9999);
    lemma_wide_lane(narrowed, ten_thousands, halves, 1, 10000, 9999);
    lemma_tree(
        packed@,
        seq![
            pairs.word(0),
            pairs.word(1),
            pairs.word(2),
            pairs.word(3),
            pairs.word(4),
            pairs.word(5),
            pairs.word(6),
            pairs.word(7),
        ],
        seq![quads.dword(0), quads.dword(1), quads.dword(2), quads.dword(3)],
        halves.dword(0),
        halves.dword(1),
    );
    lemma_halves(halves.dword(0), halves.dword(1));
}

/// A chunk whose lanes from `keep` on are zeroed has the same leading digit
/// run as its first `keep` lanes alone.
proof fn lemma_masked_run(chunk: Seq<u8>, masked: Seq<u8>, keep: int)
    requires
        chunk.len() == 16,
        masked.len() == 16,
        0 <= keep <= 16,
        forall|i: int| 0 <= i < 16 ==> masked[i] == if i < keep {
            chunk[i]
        } else {
            0u8
        },
    ensures
        digit_run_len(masked) == digit_run_len(chunk.take(keep)),
        digit_run(masked) == digit_run(chunk.take(keep)),
{
    let kept = chunk.take(keep);
    let n = digit_run_len(kept);
    lemma_run_len_props(kept);
    assert forall|i: int| 0 <= i < n implies is_digit(#[trigger] masked[i]) by {
        assert(is_digit(kept[i]));
    }
    if n < keep {
        assert(masked[n as int] == kept[n as int]);
    }
    lemma_run_len_is(masked, n as int);
    assert(digit_run(masked) =~= digit_run(kept));
}

/// When the first `n` bytes of `x` are digits and `x` ends there or goes on
/// with a byte that is no digit, they are the digit run of `x`.
proof fn lemma_digits_then_stop(x: Seq<u8>, n: int)
    requires
        0 <= n <= x.len(),
        all_digits(x.take(n)),
        n < x.len() ==> !is_digit(x[n]),
    ensures
        digit_run_len(x) == n,
        digit_run(x) == x.take(n),
{
    assert forall|k: int| 0 <= k < n implies is_digit(#[trigger] x[k]) by {
        assert(is_digit(x.take(n)[k]));
    }
    lemma_run_len_is(x, n);
}

/// The first chunk of a parse. Its lanes below `width` hold the bytes at the
/// front of `x`, as far as `x` reaches, and its lanes from `width` on are
/// zero. Either the digit run of `x` ends inside the chunk, or the first
/// `width` bytes of `x` are digits.
proof fn lemma_first_chunk(x: Seq<u8>, first: Seq<u8>, width: int, keep: int)
    requires
        first.len() == 16,
        1 <= width <= 16,
        keep == if x.len() < 16 { x.len() as int } else { 16 },
        forall|j: int| 0 <= j < width && j < x.len() ==> first[j] == x[j],
        forall|j: int| width <= j < 16 ==> first[j] == 0,
    ensures
        digit_run_len(first.take(keep)) <= width,
        digit_run_len(first.take(keep)) != width ==> digit_run_len(x) == digit_run_len(
            first.take(keep),
        ) && digit_run(x) == digit_run(first.take(keep)),
        digit_run_len(first.take(keep)) == width ==> width <= x.len() && all_digits(
            x.take(width),
        ) && x.take(width) == digit_run(first.take(keep)),
{
    let kept = first.take(keep);
    let n = digit_run_len(kept);
    lemma_run_len_props(kept);
    if n > width {
        assert(is_digit(kept[width]));
    }
    assert forall|j: int| 0 <= j < n implies is_digit(#[trigger] x[j]) by {
        assert(is_digit(kept[j]));
    }
    if n != width {
        if n < keep {
            assert(kept[n as int] == x[n as int]);
        }
        lemma_run_len_is(x, n as int);
        assert(digit_run(x) =~= digit_run(kept));
    } else {
        assert(x.take(width) =~= digit_run(kept));
    }
}

/// Carrying across a chunk boundary. When the first `i` bytes of `x` are
/// digits and `tail` holds the bytes that follow them, up to the end of `x`
/// or up to a byte that is no digit, the digit run of `x` is those `i` bytes
/// and the digit run of `tail`, and its value is the carried sum.
proof fn lemma_carry(x: Seq<u8>, i: int, tail: Seq<u8>)
    requires
        0 <= i <= x.len(),
        all_digits(x.take(i)),
        tail.len() <= x.len() - i,
        forall|j: int| 0 <= j < tail.len() ==> tail[j] == x[i + j],
        tail.len() == x.len() - i || digit_run_len(tail) < tail.len(),
    ensures
        digit_run_len(tail) <= tail.len(),
        digit_run_len(x) == i + digit_run_len(tail),
        decimal_value(digit_run(x)) == decimal_value(x.take(i)) * pow10(digit_run_len(tail))
            + decimal_value(digit_run(tail)),
{
    let n = digit_run_len(tail);
    lemma_run_len_props(tail);
    assert forall|k: int| 0 <= k < i + n implies is_digit(#[trigger] x[k]) by {
        if k < i {
            assert(is_digit(x.take(i)[k]));
        } else {
            assert(is_digit(tail[k - i]));
        }
    }
    if i + n < x.len() {
        assert(x[i + n] == tail[n as int]);
    }
    lemma_run_len_is(x, i + n);
    assert(digit_run(x) =~= x.take(i) + digit_run(tail));
    lemma_value_concat(x.take(i), digit_run(tail));
}

/// A prefix of `x` that consists of digits denotes no more than the whole
/// digit run of `x` does.
proof fn lemma_prefix_value(x: Seq<u8>, k: int)
    requires
        0 <= k <= x.len(),
        all_digits(x.take(k)),
    ensures
        k <= digit_run_len(x),
        decimal_value(x.take(k)) <= decimal_value(digit_run(x)),
{
    lemma_run_len_props(x);
    let n = digit_run_len(x);
    if n < k {
        assert(is_digit(x.take(k)[n as int]));
    }
    assert(digit_run(x).take(k) =~= x.take(k));
    lemma_value_prefix_monotone(digit_run(x), k);
}

} // verus!
