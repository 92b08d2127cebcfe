//! A sixteen-byte vector and the lane operations that the parsing kernel is
//! built from. Every operation is written lane by lane in portable code and
//! has the meaning of the 128-bit vector instruction of the same purpose:
//! bytes are lanes 0 to 15 in memory order, and wider lanes are little-endian
//! groups of two, four or eight neighbouring bytes.

use vstd::prelude::*;

verus! {

/// Sixteen bytes, lane 0 first.
#[derive(Clone, Copy, Debug)]
pub struct Chunk {
    pub bytes: [u8; 16],
}

/// The value of the byte `b` read as a signed 8-bit lane.
pub open spec fn signed8(b: u8) -> int {
    if b < 128 {
        b as int
    } else {
        b - 256
    }
}

/// The value of the 16-bit pattern `w` read as a signed lane.
pub open spec fn signed16(w: int) -> int {
    if w < 0x8000 {
        w
    } else {
        w - 0x1_0000
    }
}

/// The value of the 32-bit pattern `d` read as a signed lane.
pub open spec fn signed32(d: int) -> int {
    if d < 0x8000_0000 {
        d
    } else {
        d - 0x1_0000_0000
    }
}

/// The value of the 64-bit pattern `q` read as a signed lane.
pub open spec fn signed64(q: int) -> int {
    if q < 0x8000_0000_0000_0000 {
        q
    } else {
        q - 0x1_0000_0000_0000_0000
    }
}

/// The byte that holds the signed value `x`.
pub open spec fn byte_of(x: i8) -> u8 {
    if x >= 0 {
        x as u8
    } else {
        (x + 256) as u8
    }
}

/// The 16-bit pattern that holds the signed value `x`.
pub open spec fn word_of(x: i16) -> int {
    if x >= 0 {
        x as int
    } else {
        x + 0x1_0000
    }
}

/// `v` clamped to the range of a signed 16-bit lane.
pub open spec fn saturate_i16(v: int) -> int {
    if v < -0x8000 {
        -0x8000
    } else if v > 0x7fff {
        0x7fff
    } else {
        v
    }
}

/// `v` clamped to the range of an unsigned 16-bit lane.
pub open spec fn saturate_u16(v: int) -> int {
    if v < 0 {
        0
    } else if v > 0xffff {
        0xffff
    } else {
        v
    }
}

/// The 32-bit pattern that is left of `v` when it wraps around.
pub open spec fn wrap32(v: int) -> int {
    v % 0x1_0000_0000
}

/// The unsigned 16-bit lane `i` of the byte sequence `s`.
pub open spec fn word_at(s: Seq<u8>, i: int) -> int {
    s[2 * i] + 0x100 * s[2 * i + 1]
}

/// The unsigned 32-bit lane `i` of the byte sequence `s`.
pub open spec fn dword_at(s: Seq<u8>, i: int) -> int {
    s[4 * i] + 0x100 * s[4 * i + 1] + 0x1_0000 * s[4 * i + 2] + 0x100_0000 * s[4 * i + 3]
}

/// The byte that a load at position `at + i` of `memory` delivers: the byte
/// stored there, or zero beyond the end of `memory`.
pub open spec fn padded(memory: Seq<u8>, at: int) -> u8 {
    if 0 <= at < memory.len() {
        memory[at]
    } else {
        0
    }
}

/// Bit `j` of `m` is set.
pub open spec fn bit(m: u32, j: u32) -> bool {
    (m >> j) & 1 == 1
}

/// The sum of products that one 16-bit lane of [`Chunk::mul_add_bytes`]
/// holds before it is saturated: two neighbouring unsigned bytes of `a`, each
/// times the signed byte of `b` in the same place.
pub open spec fn byte_pair_sum(a: Seq<u8>, b: Seq<u8>, i: int) -> int {
    a[2 * i] * signed8(b[2 * i]) + a[2 * i + 1] * signed8(b[2 * i + 1])
}

/// The sum of products that one 32-bit lane of [`Chunk::mul_add_words`]
/// holds before it wraps: two neighbouring signed 16-bit lanes of `a`, each
/// times the signed 16-bit lane of `b` in the same place.
pub open spec fn word_pair_sum(a: Seq<u8>, b: Seq<u8>, i: int) -> int {
    signed16(word_at(a, 2 * i)) * signed16(word_at(b, 2 * i)) + signed16(word_at(a, 2 * i + 1))
        * signed16(word_at(b, 2 * i + 1))
}

/// Converts a signed lane value to the byte that holds it.
pub fn to_byte(x: i8) -> (b: u8)
    ensures
        b == byte_of(x),
        signed8(b) == x,
{
    if x >= 0 {
        x as u8
    } else {
        (x as i16 + 256) as u8
    }
}

/// Reads a byte as a signed lane value.
pub fn to_signed(b: u8) -> (x: i16)
    ensures
        x == signed8(b),
{
    if b < 128 {
        b as i16
    } else {
        b as i16 - 256
    }
}

/// Converts a signed 16-bit lane value to the pattern that holds it.
pub fn to_word(x: i16) -> (w: u16)
    ensures
        w == word_of(x),
        signed16(w as int) == x,
{
    if x >= 0 {
        x as u16
    } else {
        (x as i32 + 0x1_0000) as u16
    }
}

/// Clamps a signed value to the range of an unsigned 16-bit lane.
fn narrow(v: i64) -> (w: u16)
    ensures
        w == saturate_u16(v as int),
{
    if v < 0 {
        0
    } else if v > 0xffff {
        0xffff
    } else {
        v as u16
    }
}

impl Chunk {
    /// The sixteen bytes, lane 0 first.
    pub open spec fn view(&self) -> Seq<u8> {
        self.bytes@
    }

    /// The unsigned 16-bit lane `i`, for `i` in `0..8`.
    pub open spec fn word(&self, i: int) -> int {
        word_at(self@, i)
    }

    /// The unsigned 32-bit lane `i`, for `i` in `0..4`.
    pub open spec fn dword(&self, i: int) -> int {
        dword_at(self@, i)
    }

    /// The low 64 bits, unsigned.
    pub open spec fn low_qword(&self) -> int {
        self.dword(0) + 0x1_0000_0000 * self.dword(1)
    }

    /// All lanes hold the byte `b`.
    pub fn splat(b: u8) -> (r: Chunk)
        ensures
            forall|i: int| 0 <= i < 16 ==> r@[i] == b,
    {
        Chunk { bytes: [b; 16] }
    }

    /// The chunk with the given sixteen bytes.
    pub fn from_bytes(bytes: [u8; 16]) -> (r: Chunk)
        ensures
            r@ == bytes@,
    {
        Chunk { bytes }
    }

    /// The sixteen bytes of the chunk.
    pub fn to_bytes(&self) -> (r: [u8; 16])
        ensures
            r@ == self@,
    {
        self.bytes
    }

    /// The chunk whose eight 16-bit lanes hold `words`, lane 0 first.
    pub fn from_words(words: [u16; 8]) -> (r: Chunk)
        ensures
            forall|i: int| 0 <= i < 8 ==> #[trigger] r.word(i) == words@[i],
    {
        let mut out: [u8; 16] = [0u8; 16];
        let mut i: usize = 0;
        while i < 8
            invariant
                i <= 8,
                forall|j: int| 0 <= j < i ==> #[trigger] word_at(out@, j) == words@[j],
            decreases 8 - i,
        {
            let ghost before = out@;
            let w: u16 = words[i];
            out[2 * i] = (w % 0x100) as u8;
            out[2 * i + 1] = (w / 0x100) as u8;
            proof {
                assert forall|j: int| 0 <= j < i + 1 implies #[trigger] word_at(out@, j)
                    == words@[j] by {
                    if j < i {
                        assert(word_at(before, j) == words@[j]);
                    }
                }
            }
            i += 1;
        }
        Chunk { bytes: out }
    }

    /// The chunk whose four 32-bit lanes hold `dwords`, lane 0 first.
    pub fn from_dwords(dwords: [u32; 4]) -> (r: Chunk)
        ensures
            forall|i: int| 0 <= i < 4 ==> #[trigger] r.dword(i) == dwords@[i],
    {
        let mut out: [u8; 16] = [0u8; 16];
        let mut i: usize = 0;
        while i < 4
            invariant
                i <= 4,
                forall|j: int| 0 <= j < i ==> #[trigger] dword_at(out@, j) == dwords@[j],
            decreases 4 - i,
        {
            let ghost before = out@;
            let d: u32 = dwords[i];
            out[4 * i] = (d % 0x100) as u8;
            out[4 * i + 1] = (d / 0x100 % 0x100) as u8;
            out[4 * i + 2] = (d / 0x1_0000 % 0x100) as u8;
            out[4 * i + 3] = (d / 0x100_0000) as u8;
            proof {
                assert forall|j: int| 0 <= j < i + 1 implies #[trigger] dword_at(out@, j)
                    == dwords@[j] by {
                    if j < i {
                        assert(dword_at(before, j) == dwords@[j]);
                    }
                }
            }
            i += 1;
        }
        Chunk { bytes: out }
    }

    /// Loads the sixteen bytes of `memory` that start at `at`. Lanes that lie
    /// beyond the end of `memory` are zero.
    pub fn load(memory: &[u8], at: usize) -> (r: Chunk)
        ensures
            forall|i: int| 0 <= i < 16 ==> r@[i] == padded(memory@, at + i),
    {
        let mut out: [u8; 16] = [0u8; 16];
        let mut i: usize = 0;
        while i < 16
            invariant
                i <= 16,
                forall|j: int| 0 <= j < i ==> out@[j] == padded(memory@, at + j),
            decreases 16 - i,
        {
            if at < memory.len() && i < memory.len() - at {
                out[i] = memory[at + i];
            } else {
                out[i] = 0;
            }
            i += 1;
        }
        Chunk { bytes: out }
    }

    /// Loads the sixteen entries of `table` that start at `at`, each as the
    /// byte that holds it.
    pub fn load_signed(table: &[i8; 32], at: usize) -> (r: Chunk)
        requires
            at <= 16,
        ensures
            forall|i: int| 0 <= i < 16 ==> r@[i] == byte_of(table@[at + i]),
    {
        let mut out: [u8; 16] = [0u8; 16];
        let mut i: usize = 0;
        while i < 16
            invariant
                i <= 16,
                at <= 16,
                forall|j: int| 0 <= j < i ==> out@[j] == byte_of(table@[at + j]),
            decreases 16 - i,
        {
            out[i] = to_byte(table[at + i]);
            i += 1;
        }
        Chunk { bytes: out }
    }

    /// Reads the unsigned 16-bit lane `i`.
    pub fn word_lane(&self, i: usize) -> (w: u16)
        requires
            i < 8,
        ensures
            w == self.word(i as int),
    {
        let lo: u16 = self.bytes[2 * i] as u16;
        let hi: u16 = self.bytes[2 * i + 1] as u16;
        lo + 0x100 * hi
    }

    /// Reads the 16-bit lane `i` as a signed value.
    pub fn signed_word_lane(&self, i: usize) -> (w: i32)
        requires
            i < 8,
        ensures
            w == signed16(self.word(i as int)),
    {
        let w: i32 = self.word_lane(i) as i32;
        if w < 0x8000 {
            w
        } else {
            w - 0x1_0000
        }
    }

    /// Reads the unsigned 32-bit lane `i`.
    pub fn dword_lane(&self, i: usize) -> (d: u32)
        requires
            i < 4,
        ensures
            d == self.dword(i as int),
    {
        let b0: u32 = self.bytes[4 * i] as u32;
        let b1: u32 = self.bytes[4 * i + 1] as u32;
        let b2: u32 = self.bytes[4 * i + 2] as u32;
        let b3: u32 = self.bytes[4 * i + 3] as u32;
        b0 + 0x100 * b1 + 0x1_0000 * b2 + 0x100_0000 * b3
    }

    /// Reads the 32-bit lane `i` as a signed value.
    pub fn signed_dword_lane(&self, i: usize) -> (d: i64)
        requires
            i < 4,
        ensures
            d == signed32(self.dword(i as int)),
    {
        let d: i64 = self.dword_lane(i) as i64;
        if d < 0x8000_0000 {
            d
        } else {
            d - 0x1_0000_0000
        }
    }

    /// The low 64 bits of the chunk as a signed integer.
    pub fn low_i64(&self) -> (r: i64)
        ensures
            r == signed64(self.low_qword()),
    {
        let lo: u64 = self.dword_lane(0) as u64;
        let hi: u64 = self.dword_lane(1) as u64;
        if hi < 0x8000_0000 {
            (lo + 0x1_0000_0000 * hi) as i64
        } else {
            let top: i64 = hi as i64 - 0x1_0000_0000;
            lo as i64 + 0x1_0000_0000 * top
        }
    }

    /// Lane by lane `self - other`, wrapping around.
    pub fn sub_bytes(&self, other: &Chunk) -> (r: Chunk)
        ensures
            forall|i: int| 0 <= i < 16 ==> r@[i] == self@[i].wrapping_sub(other@[i]),
    {
        let mut out: [u8; 16] = [0u8; 16];
        let mut i: usize = 0;
        while i < 16
            invariant
                i <= 16,
                forall|j: int| 0 <= j < i ==> out@[j] == self@[j].wrapping_sub(other@[j]),
            decreases 16 - i,
        {
            out[i] = self.bytes[i].wrapping_sub(other.bytes[i]);
            i += 1;
        }
        Chunk { bytes: out }
    }

    /// Lane by lane `self + other`, wrapping around.
    pub fn add_bytes(&self, other: &Chunk) -> (r: Chunk)
        ensures
            forall|i: int| 0 <= i < 16 ==> r@[i] == self@[i].wrapping_add(other@[i]),
    {
        let mut out: [u8; 16] = [0u8; 16];
        let mut i: usize = 0;
        while i < 16
            invariant
                i <= 16,
                forall|j: int| 0 <= j < i ==> out@[j] == self@[j].wrapping_add(other@[j]),
            decreases 16 - i,
        {
            out[i] = self.bytes[i].wrapping_add(other.bytes[i]);
            i += 1;
        }
        Chunk { bytes: out }
    }

    /// Lane by lane signed comparison: a lane of the result is `0xff` where
    /// the lane of `self`, read as a signed byte, is greater than that of
    /// `other`, and zero elsewhere.
    pub fn greater_signed(&self, other: &Chunk) -> (r: Chunk)
        ensures
            forall|i: int|
                0 <= i < 16 ==> r@[i] == if signed8(self@[i]) > signed8(other@[i]) {
                    0xffu8
                } else {
                    0u8
                },
    {
        let mut out: [u8; 16] = [0u8; 16];
        let mut i: usize = 0;
        while i < 16
            invariant
                i <= 16,
                forall|j: int|
                    0 <= j < i ==> out@[j] == if signed8(self@[j]) > signed8(other@[j]) {
                        0xffu8
                    } else {
                        0u8
                    },
            decreases 16 - i,
        {
            if to_signed(self.bytes[i]) > to_signed(other.bytes[i]) {
                out[i] = 0xff;
            } else {
                out[i] = 0;
            }
            i += 1;
        }
        Chunk { bytes: out }
    }

    /// Lane by lane bitwise and.
    pub fn and(&self, other: &Chunk) -> (r: Chunk)
        ensures
            forall|i: int| 0 <= i < 16 ==> r@[i] == self@[i] & other@[i],
    {
        let mut out: [u8; 16] = [0u8; 16];
        let mut i: usize = 0;
        while i < 16
            invariant
                i <= 16,
                forall|j: int| 0 <= j < i ==> out@[j] == self@[j] & other@[j],
            decreases 16 - i,
        {
            out[i] = self.bytes[i] & other.bytes[i];
            i += 1;
        }
        Chunk { bytes: out }
    }

    /// Byte shuffle: lane `i` of the result is zero where the top bit of
    /// lane `i` of `control` is set, and otherwise the lane of `self` that the
    /// low four bits of that control byte select.
    pub fn shuffle(&self, control: &Chunk) -> (r: Chunk)
        ensures
            forall|i: int|
                0 <= i < 16 ==> r@[i] == if control@[i] >= 0x80 {
                    0u8
                } else {
                    self@[(control@[i] % 16) as int]
                },
    {
        let mut out: [u8; 16] = [0u8; 16];
        let mut i: usize = 0;
        while i < 16
            invariant
                i <= 16,
                forall|j: int|
                    0 <= j < i ==> out@[j] == if control@[j] >= 0x80 {
                        0u8
                    } else {
                        self@[(control@[j] % 16) as int]
                    },
            decreases 16 - i,
        {
            let c: u8 = control.bytes[i];
            if c >= 0x80 {
                out[i] = 0;
            } else {
                let k: usize = (c % 16) as usize;
                out[i] = self.bytes[k];
            }
            i += 1;
        }
        Chunk { bytes: out }
    }

    /// Gathers the top bit of every lane: bit `j` of the result is the top
    /// bit of lane `j`, and the bits from 16 up are zero.
    pub fn sign_mask(&self) -> (r: u32)
        ensures
            r >> 16 == 0,
            forall|j: u32| 0 <= j < 16 ==> (#[trigger] bit(r, j) <==> self@[j as int] >= 0x80),
    {
        let mut m: u32 = 0;
        let mut i: u32 = 0;
        assert(0u32 >> 0u32 == 0) by (bit_vector);
        while i < 16
            invariant
                i <= 16,
                m >> i == 0,
                forall|j: u32| 0 <= j < i ==> (#[trigger] bit(m, j) <==> self@[j as int] >= 0x80),
            decreases 16 - i,
        {
            let ghost before = m;
            proof {
                lemma_mask_step_top(before, i);
            }
            if self.bytes[i as usize] >= 0x80 {
                m = m | (1u32 << i);
            }
            proof {
                assert forall|j: u32| 0 <= j < i + 1 implies (#[trigger] bit(m, j) <==> self@[j as int]
                    >= 0x80) by {
                    if j < i {
                        lemma_mask_step(before, i, j);
                        assert(bit(before, j) <==> self@[j as int] >= 0x80);
                    }
                }
            }
            i += 1;
        }
        m
    }

    /// Multiplies each unsigned byte of `self` by the signed byte of
    /// `weights` in the same lane and adds neighbouring products: the signed
    /// 16-bit lane `i` of the result is the sum for bytes `2i` and `2i + 1`,
    /// saturated.
    pub fn mul_add_bytes(&self, weights: &Chunk) -> (r: Chunk)
        ensures
            forall|i: int|
                0 <= i < 8 ==> signed16(#[trigger] r.word(i)) == saturate_i16(
                    byte_pair_sum(self@, weights@, i),
                ),
    {
        let mut words: [u16; 8] = [0u16; 8];
        let mut i: usize = 0;
        while i < 8
            invariant
                i <= 8,
                forall|j: int|
                    0 <= j < i ==> signed16(#[trigger] words@[j] as int) == saturate_i16(
                        byte_pair_sum(self@, weights@, j),
                    ),
            decreases 8 - i,
        {
            let a0: i32 = self.bytes[2 * i] as i32;
            let a1: i32 = self.bytes[2 * i + 1] as i32;
            let b0: i32 = to_signed(weights.bytes[2 * i]) as i32;
            let b1: i32 = to_signed(weights.bytes[2 * i + 1]) as i32;
            proof {
                lemma_product_bounds(a0 as int, b0 as int, 0, 255, -128, 127, 32640);
                lemma_product_bounds(a1 as int, b1 as int, 0, 255, -128, 127, 32640);
            }
            let sum: i32 = a0 * b0 + a1 * b1;
            let clamped: i16 = if sum < -0x8000 {
                -0x8000
            } else if sum > 0x7fff {
                0x7fff
            } else {
                sum as i16
            };
            words[i] = to_word(clamped);
            i += 1;
        }
        let r = Chunk::from_words(words);
        proof {
            assert forall|i: int| 0 <= i < 8 implies signed16(#[trigger] r.word(i))
                == saturate_i16(byte_pair_sum(self@, weights@, i)) by {
                assert(r.word(i) == words@[i]);
            }
        }
        r
    }

    /// Multiplies each signed 16-bit lane of `self` by the signed 16-bit lane
    /// of `weights` in the same place and adds neighbouring products: the
    /// 32-bit lane `i` of the result is the sum for the 16-bit lanes `2i` and
    /// `2i + 1`, wrapped around.
    pub fn mul_add_words(&self, weights: &Chunk) -> (r: Chunk)
        ensures
            forall|i: int|
                0 <= i < 4 ==> #[trigger] r.dword(i) == wrap32(
                    word_pair_sum(self@, weights@, i),
                ),
    {
        let mut dwords: [u32; 4] = [0u32; 4];
        let mut i: usize = 0;
        while i < 4
            invariant
                i <= 4,
                forall|j: int|
                    0 <= j < i ==> #[trigger] dwords@[j] == wrap32(
                        word_pair_sum(self@, weights@, j),
                    ),
            decreases 4 - i,
        {
            let a0: i64 = self.signed_word_lane(2 * i) as i64;
            let a1: i64 = self.signed_word_lane(2 * i + 1) as i64;
            let b0: i64 = weights.signed_word_lane(2 * i) as i64;
            let b1: i64 = weights.signed_word_lane(2 * i + 1) as i64;
            proof {
                lemma_product_bounds(
                    a0 as int,
                    b0 as int,
                    -0x8000,
                    0x7fff,
                    -0x8000,
                    0x7fff,
                    0x4000_0000,
                );
                lemma_product_bounds(
                    a1 as int,
                    b1 as int,
                    -0x8000,
                    0x7fff,
                    -0x8000,
                    0x7fff,
                    0x4000_0000,
                );
            }
            let sum: i64 = a0 * b0 + a1 * b1;
            let wrapped: i64 = if sum < 0 {
                sum + 0x1_0000_0000
            } else {
                sum
            };
            dwords[i] = wrapped as u32;
            i += 1;
        }
        let r = Chunk::from_dwords(dwords);
        proof {
            assert forall|i: int| 0 <= i < 4 implies #[trigger] r.dword(i) == wrap32(
                word_pair_sum(self@, weights@, i),
            ) by {
                assert(r.dword(i) == dwords@[i]);
            }
        }
        r
    }

    /// Narrows signed 32-bit lanes to unsigned 16-bit lanes, saturating: the
    /// 16-bit lanes 0 to 3 of the result come from the four lanes of `self`,
    /// the lanes 4 to 7 from the four lanes of `upper`.
    pub fn pack_dwords(&self, upper: &Chunk) -> (r: Chunk)
        ensures
            forall|i: int|
                0 <= i < 4 ==> #[trigger] r.word(i) == saturate_u16(signed32(self.dword(i))),
            forall|i: int|
                0 <= i < 4 ==> #[trigger] r.word(4 + i) == saturate_u16(
                    signed32(upper.dword(i)),
                ),
    {
        let mut words: [u16; 8] = [0u16; 8];
        let mut i: usize = 0;
        while i < 4
            invariant
                i <= 4,
                forall|j: int|
                    0 <= j < i ==> #[trigger] words@[j] == saturate_u16(signed32(self.dword(j))),
                forall|j: int|
                    0 <= j < i ==> #[trigger] words@[4 + j] == saturate_u16(
                        signed32(upper.dword(j)),
                    ),
            decreases 4 - i,
        {
            words[i] = narrow(self.signed_dword_lane(i));
            words[4 + i] = narrow(upper.signed_dword_lane(i));
            i += 1;
        }
        let r = Chunk::from_words(words);
        proof {
            assert forall|i: int| 0 <= i < 4 implies #[trigger] r.word(i) == saturate_u16(
                signed32(self.dword(i)),
            ) by {
                assert(r.word(i) == words@[i]);
            }
            assert forall|i: int| 0 <= i < 4 implies #[trigger] r.word(4 + i) == saturate_u16(
                signed32(upper.dword(i)),
            ) by {
                assert(r.word(4 + i) == words@[4 + i]);
            }
        }
        r
    }
}

/// Setting bit `i` of a mask that has no bit from `i` up leaves the bits
/// below `i` as they were.
proof fn lemma_mask_step(m: u32, i: u32, j: u32)
    by (bit_vector)
    requires
        i < 16,
        m >> i == 0,
        j < i,
    ensures
        (((m | (1u32 << i)) >> j) & 1 == 1) == ((m >> j) & 1 == 1),
{
}

/// A mask that has no bit from `i` up has bit `i` clear; setting that bit
/// gives a mask with bit `i` set; either way no bit above `i` is set.
proof fn lemma_mask_step_top(m: u32, i: u32)
    by (bit_vector)
    requires
        i < 16,
        m >> i == 0,
    ensures
        ((m | (1u32 << i)) >> i) & 1 == 1,
        (m | (1u32 << i)) >> ((i + 1) as u32) == 0,
        (m >> i) & 1 == 0,
        m >> ((i + 1) as u32) == 0,
{
}

/// A product of two numbers from given ranges lies between the smallest and
/// the largest product of the ranges' ends.
proof fn lemma_product_bounds(a: int, b: int, la: int, ha: int, lb: int, hb: int, m: int)
    by (nonlinear_arith)
    requires
        la <= a <= ha,
        lb <= b <= hb,
        la * lb <= m && la * hb <= m && ha * lb <= m && ha * hb <= m,
        -m <= la * lb && -m <= la * hb && -m <= ha * lb && -m <= ha * hb,
    ensures
        -m <= a * b <= m,
{
    assert((a - la) * (b - lb) >= 0);
    assert((ha - a) * (hb - b) >= 0);
    assert((a - la) * (hb - b) >= 0);
    assert((ha - a) * (b - lb) >= 0);
}

} // verus!
