use simd_parse_int::lanes::{to_byte, to_signed, to_word, Chunk};
use simd_parse_int::utils::{
    _mm_set2_epi16, _mm_set2_epi8, shift_left_8x16, shift_right_8x16, POWERS_OF_TEN,
};

const COUNTING: [u8; 16] = [0, 1, 2, 3, 4, 5, 6, 7, 8, 9, 10, 11, 12, 13, 14, 15];

#[test]
fn signed_and_unsigned_bytes() {
    assert_eq!(to_byte(0), 0);
    assert_eq!(to_byte(127), 127);
    assert_eq!(to_byte(-1), 0xff);
    assert_eq!(to_byte(-128), 0x80);
    assert_eq!(to_signed(0), 0);
    assert_eq!(to_signed(0x7f), 127);
    assert_eq!(to_signed(0x80), -128);
    assert_eq!(to_signed(0xff), -1);
    assert_eq!(to_word(100), 100);
    assert_eq!(to_word(-1), 0xffff);
    assert_eq!(to_word(-32768), 0x8000);
}

#[test]
fn splat_and_bytes() {
    assert_eq!(Chunk::splat(0x30).to_bytes(), [0x30; 16]);
    assert_eq!(Chunk::from_bytes(COUNTING).to_bytes(), COUNTING);
}

#[test]
fn load_pads_with_zeros() {
    let memory: Vec<u8> = (1..=20).collect();
    assert_eq!(
        Chunk::load(&memory, 0).to_bytes(),
        [1, 2, 3, 4, 5, 6, 7, 8, 9, 10, 11, 12, 13, 14, 15, 16]
    );
    assert_eq!(
        Chunk::load(&memory, 16).to_bytes(),
        [17, 18, 19, 20, 0, 0, 0, 0, 0, 0, 0, 0, 0, 0, 0, 0]
    );
    assert_eq!(
        Chunk::load(&memory, 7).to_bytes(),
        [8, 9, 10, 11, 12, 13, 14, 15, 16, 17, 18, 19, 20, 0, 0, 0]
    );
    assert_eq!(Chunk::load(&memory, 20).to_bytes(), [0; 16]);
    assert_eq!(Chunk::load(&memory, usize::MAX).to_bytes(), [0; 16]);
    assert_eq!(Chunk::load(&[], 0).to_bytes(), [0; 16]);
}

#[test]
fn load_signed_reads_a_window_of_the_table() {
    let mut table = [0i8; 32];
    for (i, entry) in table.iter_mut().enumerate() {
        *entry = i as i8 - 16;
    }
    assert_eq!(
        Chunk::load_signed(&table, 0).to_bytes(),
        [240, 241, 242, 243, 244, 245, 246, 247, 248, 249, 250, 251, 252, 253, 254, 255]
    );
    assert_eq!(Chunk::load_signed(&table, 16).to_bytes(), COUNTING);
    assert_eq!(
        Chunk::load_signed(&table, 9).to_bytes(),
        [249, 250, 251, 252, 253, 254, 255, 0, 1, 2, 3, 4, 5, 6, 7, 8]
    );
}

#[test]
fn byte_arithmetic_wraps() {
    let a = Chunk::from_bytes([0, 1, 0x2f, 0x30, 0x39, 0x3a, 0x7f, 0x80, 0xff, 5, 6, 7, 8, 9, 10, 11]);
    assert_eq!(
        a.sub_bytes(&Chunk::splat(0x30)).to_bytes(),
        [0xd0, 0xd1, 0xff, 0, 9, 10, 0x4f, 0x50, 0xcf, 0xd5, 0xd6, 0xd7, 0xd8, 0xd9, 0xda, 0xdb]
    );
    assert_eq!(
        a.add_bytes(&Chunk::splat(0x80)).to_bytes(),
        [0x80, 0x81, 0xaf, 0xb0, 0xb9, 0xba, 0xff, 0, 0x7f, 0x85, 0x86, 0x87, 0x88, 0x89, 0x8a, 0x8b]
    );
}

#[test]
fn greater_signed_reads_bytes_as_signed() {
    let a = Chunk::from_bytes([0, 1, 127, 128, 255, 5, 5, 5, 200, 100, 0x89, 0x8a, 0x88, 0, 0, 0]);
    let b = Chunk::from_bytes([1, 0, 128, 127, 0, 5, 4, 6, 100, 200, 0x89, 0x89, 0x89, 255, 128, 0]);
    assert_eq!(
        a.greater_signed(&b).to_bytes(),
        [0, 0xff, 0xff, 0, 0, 0, 0xff, 0, 0, 0xff, 0, 0xff, 0, 0xff, 0xff, 0]
    );
}

#[test]
fn and_is_bitwise() {
    let a = Chunk::from_bytes([0xff, 0xf0, 0x0f, 0xaa, 0x55, 1, 2, 3, 4, 5, 6, 7, 8, 9, 10, 11]);
    let b = Chunk::from_bytes([0x0f, 0x3c, 0x3c, 0xff, 0, 0xff, 0xff, 0, 0, 4, 3, 1, 8, 8, 0xff, 0x0a]);
    assert_eq!(
        a.and(&b).to_bytes(),
        [0x0f, 0x30, 0x0c, 0xaa, 0, 1, 2, 0, 0, 4, 2, 1, 8, 8, 10, 10]
    );
}

#[test]
fn sign_mask_gathers_top_bits() {
    assert_eq!(Chunk::splat(0).sign_mask(), 0);
    assert_eq!(Chunk::splat(0x7f).sign_mask(), 0);
    assert_eq!(Chunk::splat(0x80).sign_mask(), 0xffff);
    let mut bytes = [0u8; 16];
    bytes[0] = 0xff;
    bytes[3] = 0x80;
    bytes[15] = 0x81;
    assert_eq!(Chunk::from_bytes(bytes).sign_mask(), 0x8009);
}

#[test]
fn shuffle_selects_or_zeroes() {
    let a = Chunk::from_bytes([10, 11, 12, 13, 14, 15, 16, 17, 18, 19, 20, 21, 22, 23, 24, 25]);
    let control =
        Chunk::from_bytes([15, 14, 0, 0, 0x80, 0xff, 0x1f, 0x7f, 3, 3, 0x43, 0x90, 1, 2, 8, 0x0a]);
    assert_eq!(
        a.shuffle(&control).to_bytes(),
        [25, 24, 10, 10, 0, 0, 25, 25, 13, 13, 13, 0, 11, 12, 18, 20]
    );
}

#[test]
fn words_and_dwords_are_little_endian() {
    let words = Chunk::from_words([0x0201, 0x0403, 0xffff, 0, 1, 0x8000, 0x1234, 0xabcd]);
    assert_eq!(
        words.to_bytes(),
        [1, 2, 3, 4, 0xff, 0xff, 0, 0, 1, 0, 0, 0x80, 0x34, 0x12, 0xcd, 0xab]
    );
    assert_eq!(words.word_lane(0), 0x0201);
    assert_eq!(words.word_lane(5), 0x8000);
    assert_eq!(words.word_lane(7), 0xabcd);
    assert_eq!(words.signed_word_lane(2), -1);
    assert_eq!(words.signed_word_lane(5), -32768);
    assert_eq!(words.signed_word_lane(6), 0x1234);
    let dwords = Chunk::from_dwords([0x04030201, 0xffffffff, 0x80000000, 99999999]);
    assert_eq!(
        dwords.to_bytes(),
        [1, 2, 3, 4, 0xff, 0xff, 0xff, 0xff, 0, 0, 0, 0x80, 0xff, 0xe0, 0xf5, 0x05]
    );
    assert_eq!(dwords.dword_lane(0), 0x04030201);
    assert_eq!(dwords.dword_lane(3), 99999999);
    assert_eq!(dwords.signed_dword_lane(1), -1);
    assert_eq!(dwords.signed_dword_lane(2), -2147483648);
    assert_eq!(dwords.signed_dword_lane(3), 99999999);
}

#[test]
fn mul_add_bytes_weights_pairs() {
    let digits = Chunk::from_bytes([1, 2, 3, 4, 5, 6, 7, 8, 9, 0, 0, 9, 9, 9, 0, 0]);
    let tens = _mm_set2_epi8(1, 10);
    let pairs = digits.mul_add_bytes(&tens);
    for (lane, expected) in [12, 34, 56, 78, 90, 9, 99, 0].into_iter().enumerate() {
        assert_eq!(pairs.word_lane(lane), expected);
    }
}

#[test]
fn mul_add_bytes_saturates() {
    let a = Chunk::splat(255);
    let up = a.mul_add_bytes(&Chunk::splat(127));
    let down = a.mul_add_bytes(&Chunk::splat(0x80));
    let mixed = a.mul_add_bytes(&_mm_set2_epi8(-1, 1));
    let small = Chunk::splat(100).mul_add_bytes(&Chunk::splat(0x80));
    for lane in 0..8 {
        assert_eq!(up.signed_word_lane(lane), 32767);
        assert_eq!(down.signed_word_lane(lane), -32768);
        assert_eq!(mixed.signed_word_lane(lane), 0);
        assert_eq!(small.signed_word_lane(lane), -25600);
    }
}

#[test]
fn mul_add_words_weights_pairs() {
    let pairs = Chunk::from_words([12, 34, 56, 78, 90, 12, 34, 56]);
    let quads = pairs.mul_add_words(&_mm_set2_epi16(1, 100));
    for (lane, expected) in [1234, 5678, 9012, 3456].into_iter().enumerate() {
        assert_eq!(quads.dword_lane(lane), expected);
    }
    let wide = Chunk::from_words([1234, 5678, 9012, 3456, 1234, 5678, 9012, 3456]);
    let halves = wide.mul_add_words(&Chunk::from_words([10000, 1, 10000, 1, 0, 0, 0, 0]));
    assert_eq!(halves.dword_lane(0), 12345678);
    assert_eq!(halves.dword_lane(1), 90123456);
    assert_eq!(halves.dword_lane(2), 0);
    assert_eq!(halves.dword_lane(3), 0);
}

#[test]
fn mul_add_words_is_signed_and_wraps() {
    let low = Chunk::from_words([0x8000; 8]);
    let wrapped = low.mul_add_words(&low);
    let negative = Chunk::from_words([0xffff, 2, 3, 0xfffe, 0x7fff, 0x7fff, 0x8000, 0x7fff]);
    let weights = Chunk::from_words([5, 0xffff, 0xfffd, 4, 0x7fff, 0x7fff, 1, 1]);
    let sums = negative.mul_add_words(&weights);
    for lane in 0..4 {
        assert_eq!(wrapped.dword_lane(lane), 0x80000000);
        assert_eq!(wrapped.signed_dword_lane(lane), -2147483648);
    }
    assert_eq!(sums.signed_dword_lane(0), -7);
    assert_eq!(sums.signed_dword_lane(1), -17);
    assert_eq!(sums.signed_dword_lane(2), 2147352578);
    assert_eq!(sums.signed_dword_lane(3), -1);
}

#[test]
fn pack_dwords_saturates_to_unsigned() {
    let a = Chunk::from_dwords([0, 9999, 65535, 65536]);
    let b = Chunk::from_dwords([0xffffffff, 0x80000000, 0x7fffffff, 1]);
    let packed = a.pack_dwords(&b);
    for (lane, expected) in [0, 9999, 65535, 65535, 0, 0, 65535, 1].into_iter().enumerate() {
        assert_eq!(packed.word_lane(lane), expected);
    }
}

#[test]
fn low_i64_reads_the_low_half() {
    assert_eq!(Chunk::from_dwords([12345678, 90123456, 7, 7]).low_i64(), 387077296134840654);
    assert_eq!(Chunk::from_dwords([1, 0, 0xffffffff, 0xffffffff]).low_i64(), 1);
    assert_eq!(Chunk::splat(0xff).low_i64(), -1);
    assert_eq!(Chunk::from_dwords([0, 0x80000000, 0, 0]).low_i64(), i64::MIN);
    assert_eq!(Chunk::from_dwords([0xffffffff, 0x7fffffff, 0, 0]).low_i64(), i64::MAX);
}

#[test]
fn alternating_constants() {
    assert_eq!(
        _mm_set2_epi8(1, 10).to_bytes(),
        [10, 1, 10, 1, 10, 1, 10, 1, 10, 1, 10, 1, 10, 1, 10, 1]
    );
    assert_eq!(
        _mm_set2_epi8(-1, -128).to_bytes(),
        [0x80, 0xff, 0x80, 0xff, 0x80, 0xff, 0x80, 0xff, 0x80, 0xff, 0x80, 0xff, 0x80, 0xff, 0x80, 0xff]
    );
    assert_eq!(
        _mm_set2_epi16(1, 100).to_bytes(),
        [100, 0, 1, 0, 100, 0, 1, 0, 100, 0, 1, 0, 100, 0, 1, 0]
    );
    assert_eq!(
        _mm_set2_epi16(-2, 0x1234).to_bytes(),
        [0x34, 0x12, 0xfe, 0xff, 0x34, 0x12, 0xfe, 0xff, 0x34, 0x12, 0xfe, 0xff, 0x34, 0x12, 0xfe, 0xff]
    );
}

#[test]
fn shift_left_moves_bytes_up() {
    let x = Chunk::from_bytes([1, 2, 3, 4, 5, 6, 7, 8, 9, 10, 11, 12, 13, 14, 15, 16]);
    assert_eq!(shift_left_8x16(x, 0).to_bytes(), x.to_bytes());
    assert_eq!(
        shift_left_8x16(x, 1).to_bytes(),
        [0, 1, 2, 3, 4, 5, 6, 7, 8, 9, 10, 11, 12, 13, 14, 15]
    );
    assert_eq!(
        shift_left_8x16(x, 13).to_bytes(),
        [0, 0, 0, 0, 0, 0, 0, 0, 0, 0, 0, 0, 0, 1, 2, 3]
    );
    assert_eq!(shift_left_8x16(x, 16).to_bytes(), [0; 16]);
}

#[test]
fn shift_right_moves_bytes_down() {
    let x = Chunk::from_bytes([1, 2, 3, 4, 5, 6, 7, 8, 9, 10, 11, 12, 13, 14, 15, 16]);
    assert_eq!(shift_right_8x16(x, 0).to_bytes(), x.to_bytes());
    assert_eq!(
        shift_right_8x16(x, 1).to_bytes(),
        [2, 3, 4, 5, 6, 7, 8, 9, 10, 11, 12, 13, 14, 15, 16, 0]
    );
    assert_eq!(
        shift_right_8x16(x, 13).to_bytes(),
        [14, 15, 16, 0, 0, 0, 0, 0, 0, 0, 0, 0, 0, 0, 0, 0]
    );
    assert_eq!(shift_right_8x16(x, 16).to_bytes(), [0; 16]);
}

#[test]
fn powers_of_ten() {
    let mut expected: u64 = 1;
    for k in 0..20 {
        assert_eq!(POWERS_OF_TEN[k], expected);
        if k < 19 {
            expected *= 10;
        }
    }
    assert_eq!(POWERS_OF_TEN[19], 10000000000000000000);
}
