use jsone::decimal::{
    format_signed, format_unsigned, parse_i128, parse_i16, parse_i32, parse_i64, parse_i8,
    parse_u128, parse_u16, parse_u32, parse_u64, parse_u8, IntParseError,
};
use std::num::IntErrorKind;

fn kind_of(e: &std::num::ParseIntError) -> IntParseError {
    match e.kind() {
        IntErrorKind::Empty => IntParseError::Empty,
        IntErrorKind::InvalidDigit => IntParseError::InvalidDigit,
        IntErrorKind::PosOverflow => IntParseError::PosOverflow,
        IntErrorKind::NegOverflow => IntParseError::NegOverflow,
        other => panic!("unexpected kind {other:?}"),
    }
}

const TEXTS: &[&str] = &[
    "", "+", "-", "0", "-0", "+0", "007", "+5", "-5", "12a", "a12", " 1", "1 ", "--1", "+-1",
    "127", "128", "-128", "-129", "255", "256", "32767", "32768", "-32769", "65535", "65536",
    "2147483647", "2147483648", "-2147483648", "-2147483649", "4294967295", "4294967296",
    "9223372036854775807", "9223372036854775808", "-9223372036854775808",
    "-9223372036854775809", "18446744073709551615", "18446744073709551616",
    "170141183460469231731687303715884105727", "170141183460469231731687303715884105728",
    "-170141183460469231731687303715884105728", "-170141183460469231731687303715884105729",
    "340282366920938463463374607431768211455", "340282366920938463463374607431768211456",
    "99999999999999999999999999999999999999999x", "-99999999999999999999999999999999999999999x",
    "\u{0661}", "1\u{00e9}", "12345678901234567890",
];

#[test]
fn parse_agrees_with_std_for_every_integer_type() {
    for s in TEXTS {
        assert_eq!(parse_i8(s), s.parse::<i8>().map_err(|e| kind_of(&e)), "i8 {s:?}");
        assert_eq!(parse_i16(s), s.parse::<i16>().map_err(|e| kind_of(&e)), "i16 {s:?}");
        assert_eq!(parse_i32(s), s.parse::<i32>().map_err(|e| kind_of(&e)), "i32 {s:?}");
        assert_eq!(parse_i64(s), s.parse::<i64>().map_err(|e| kind_of(&e)), "i64 {s:?}");
        assert_eq!(parse_i128(s), s.parse::<i128>().map_err(|e| kind_of(&e)), "i128 {s:?}");
        assert_eq!(parse_u8(s), s.parse::<u8>().map_err(|e| kind_of(&e)), "u8 {s:?}");
        assert_eq!(parse_u16(s), s.parse::<u16>().map_err(|e| kind_of(&e)), "u16 {s:?}");
        assert_eq!(parse_u32(s), s.parse::<u32>().map_err(|e| kind_of(&e)), "u32 {s:?}");
        assert_eq!(parse_u64(s), s.parse::<u64>().map_err(|e| kind_of(&e)), "u64 {s:?}");
        assert_eq!(parse_u128(s), s.parse::<u128>().map_err(|e| kind_of(&e)), "u128 {s:?}");
    }
}

#[test]
fn parse_error_kinds() {
    assert_eq!(parse_i32(""), Err(IntParseError::Empty));
    assert_eq!(parse_i32("+"), Err(IntParseError::InvalidDigit));
    assert_eq!(parse_i32("12a"), Err(IntParseError::InvalidDigit));
    assert_eq!(parse_u8("-1"), Err(IntParseError::InvalidDigit));
    assert_eq!(parse_i8("128"), Err(IntParseError::PosOverflow));
    assert_eq!(parse_i8("-129"), Err(IntParseError::NegOverflow));
    assert_eq!(parse_i32("99999999999x"), Err(IntParseError::PosOverflow));
    assert_eq!(parse_i32("+42"), Ok(42));
    assert_eq!(parse_i32("-0"), Ok(0));
    assert_eq!(parse_u64("007"), Ok(7));
}

#[test]
fn error_messages_match_std() {
    let cases: [(&str, IntParseError); 4] = [
        ("", IntParseError::Empty),
        ("x", IntParseError::InvalidDigit),
        ("300", IntParseError::PosOverflow),
        ("-300", IntParseError::NegOverflow),
    ];
    for (text, kind) in cases {
        let std_err = text.parse::<i8>().unwrap_err();
        assert_eq!(kind.message(), std_err.to_string());
    }
}

#[test]
fn format_agrees_with_to_string() {
    let signed: [i128; 12] = [
        0,
        1,
        -1,
        9,
        10,
        -10,
        123,
        -5,
        i64::MAX as i128,
        i64::MIN as i128,
        i128::MAX,
        i128::MIN,
    ];
    for v in signed {
        assert_eq!(format_signed(v), v.to_string());
    }
    let unsigned: [u128; 7] = [0, 1, 9, 10, 456, u64::MAX as u128, u128::MAX];
    for v in unsigned {
        assert_eq!(format_unsigned(v), v.to_string());
    }
    for v in -2000i128..2000 {
        assert_eq!(format_signed(v), v.to_string());
    }
}

#[test]
fn decimal_text_reads_back_as_the_same_integer() {
    for v in [-5i32, 0, 7, 123, i32::MIN, i32::MAX] {
        assert_eq!(parse_i32(&format_signed(v as i128)), Ok(v));
    }
    for v in [0u64, 123, 456, u64::MAX] {
        assert_eq!(parse_u64(&format_unsigned(v as u128)), Ok(v));
    }
    assert_eq!(parse_i128(&format_signed(i128::MIN)), Ok(i128::MIN));
    assert_eq!(parse_u128(&format_unsigned(u128::MAX)), Ok(u128::MAX));
    assert_eq!(parse_i8(&format_signed(-128)), Ok(-128));
    assert_eq!(parse_u8(&format_unsigned(255)), Ok(255));
}
