use simd_parse_int::format::push_decimal;
use simd_parse_int::kernel;
use simd_parse_int::oracle::ValidNumber;
use simd_parse_int::scalar::parse_scalar;
use simd_parse_int::{parse, ParseResult};

/// A reference parser written apart from the library, on 128-bit numbers.
fn reference(text: &[u8]) -> (u64, usize) {
    let mut value: u128 = 0;
    let mut len = 0;
    let mut over = false;
    for &byte in text {
        if !byte.is_ascii_digit() {
            break;
        }
        value = value * 10 + (byte - b'0') as u128;
        if value > u64::MAX as u128 {
            over = true;
            value = u64::MAX as u128 + 1;
        }
        len += 1;
    }
    if over {
        (0, 0)
    } else {
        (value as u64, len)
    }
}

/// A small generator of repeatable numbers.
struct Lcg(u64);

impl Lcg {
    fn next(&mut self) -> u64 {
        self.0 = self
            .0
            .wrapping_mul(6364136223846793005)
            .wrapping_add(1442695040888963407);
        self.0 >> 11
    }
}

fn check(text: &[u8]) {
    let (value, len) = reference(text);
    let expected = ParseResult { value, len };
    assert_eq!(parse(text), expected);
    assert_eq!(parse_scalar(text), expected);
}

#[test]
fn scalar_parser_on_the_boundary_cases() {
    assert_eq!(parse_scalar(&[]), ParseResult { value: 0, len: 0 });
    assert_eq!(parse_scalar(b"0"), ParseResult { value: 0, len: 1 });
    assert_eq!(parse_scalar(b"3"), ParseResult { value: 3, len: 1 });
    assert_eq!(parse_scalar(b"123abc"), ParseResult { value: 123, len: 3 });
    assert_eq!(parse_scalar(b"00000000000000000000"), ParseResult { value: 0, len: 20 });
    assert_eq!(
        parse_scalar(b"18446744073709551615"),
        ParseResult { value: 18446744073709551615, len: 20 }
    );
    assert_eq!(parse_scalar(b"18446744073709551616"), ParseResult { value: 0, len: 0 });
    assert_eq!(parse_scalar(b"18446744073709551620"), ParseResult { value: 0, len: 0 });
    assert_eq!(parse_scalar(b"99999999999999999999"), ParseResult { value: 0, len: 0 });
}

#[test]
fn kernel_matches_reference_on_every_length() {
    let mut rng = Lcg(1);
    for len in 0..80 {
        for _ in 0..40 {
            let text: Vec<u8> = (0..len).map(|_| b'0' + (rng.next() % 10) as u8).collect();
            check(&text);
        }
    }
}

#[test]
fn kernel_matches_reference_with_leading_zeros() {
    let mut rng = Lcg(2);
    for zeros in [0usize, 1, 5, 6, 11, 12, 13, 15, 16, 17, 31, 32, 33, 47, 48, 100, 333] {
        for digits in 0..24 {
            for _ in 0..10 {
                let mut text = vec![b'0'; zeros];
                for k in 0..digits {
                    let low = if k == 0 { 1 } else { 0 };
                    text.push(b'0' + (low + rng.next() % (10 - low)) as u8);
                }
                check(&text);
                text.push(b'.');
                text.extend_from_slice(b"7777777777777777777");
                check(&text);
            }
        }
    }
}

#[test]
fn kernel_matches_reference_near_the_largest_value() {
    for last in 0..10u8 {
        for zeros in [0usize, 1, 12, 13, 30, 200] {
            let mut text = vec![b'0'; zeros];
            text.extend_from_slice(b"1844674407370955161");
            text.push(b'0' + last);
            check(&text);
            text.push(b'0');
            check(&text);
        }
    }
}

#[test]
fn kernel_matches_reference_on_arbitrary_bytes() {
    let mut rng = Lcg(3);
    for len in 0..60 {
        for _ in 0..60 {
            let text: Vec<u8> = (0..len)
                .map(|_| {
                    let r = rng.next();
                    if r % 8 == 0 {
                        (r >> 8) as u8
                    } else {
                        b'0' + ((r >> 8) % 10) as u8
                    }
                })
                .collect();
            check(&text);
            let start = (rng.next() % (len as u64 + 1)) as usize;
            let (value, taken) = reference(&text[start..]);
            assert_eq!(
                kernel::parse(&text, start, len - start),
                ParseResult { value, len: taken }
            );
        }
    }
}

#[test]
fn round_trip_through_zero_padded_text() {
    let mut rng = Lcg(4);
    let mut texts: Vec<Vec<u8>> = vec![
        b"0".to_vec(),
        b"007".to_vec(),
        b"123abc".to_vec(),
        b"18446744073709551615".to_vec(),
        b"0000000000000000000000000000000000001x".to_vec(),
    ];
    for len in 1..50 {
        texts.push((0..len).map(|_| b'0' + (rng.next() % 10) as u8).collect());
        let mut small = vec![b'0'; len];
        small.extend_from_slice(rng.next().to_string().as_bytes());
        texts.push(small);
    }
    for text in texts {
        let first = parse(&text);
        if first.len > 0 {
            let written = format!("{:0width$}", first.value, width = first.len);
            assert_eq!(written.len(), first.len);
            assert_eq!(parse(written.as_bytes()), first);
        }
    }
}

#[test]
fn push_decimal_writes_the_digits() {
    for n in [0u64, 1, 9, 10, 11, 99, 100, 12345, 1000000, u64::MAX, u64::MAX / 10] {
        let mut out = b"x=".to_vec();
        push_decimal(&mut out, n);
        assert_eq!(out, format!("x={}", n).into_bytes());
    }
}

#[test]
fn valid_number_text() {
    let number = ValidNumber {
        leading_zero_count: 3,
        number: 1234,
        suffix: b"a0b9 5".to_vec(),
    };
    assert_eq!(number.input(), b"0001234a:bC ?".to_vec());
    assert_eq!(number.expected(), ParseResult { value: 1234, len: 7 });
    assert_eq!(parse(&number.input()), number.expected());
    let wrapped = ValidNumber {
        leading_zero_count: 52,
        number: 0,
        suffix: Vec::new(),
    };
    assert_eq!(wrapped.input(), b"000".to_vec());
    assert_eq!(wrapped.expected(), ParseResult { value: 0, len: 3 });
}

#[test]
fn valid_numbers_parse_to_themselves() {
    let mut rng = Lcg(5);
    for round in 0..2000u64 {
        let shift = rng.next() % 64;
        let number = ValidNumber {
            leading_zero_count: rng.next() as usize,
            number: (rng.next() << 11 | rng.next() >> 42) >> shift,
            suffix: (0..rng.next() % 40).map(|_| (rng.next() >> 3) as u8).collect(),
        };
        let input = number.input();
        let expected = number.expected();
        assert_eq!(expected.value, number.number);
        assert_eq!(parse(&input), expected, "round {}", round);
        assert_eq!(parse_scalar(&input), expected);
        let copy = number.clone();
        assert_eq!(copy.input(), input);
    }
    let largest = ValidNumber {
        leading_zero_count: 24,
        number: u64::MAX,
        suffix: b"0123456789".to_vec(),
    };
    assert_eq!(
        parse(&largest.input()),
        ParseResult { value: u64::MAX, len: 44 }
    );
    assert_eq!(largest.expected(), ParseResult { value: u64::MAX, len: 44 });
}
