//! Decimal text of integers, written and read back exactly.

use vstd::prelude::*;

verus! {

/// The character of the decimal digit `d`.
pub open spec fn digit_char(d: nat) -> char {
    (d + 48) as char
}

/// Decimal digits of `n`, most significant first, no leading zero.
pub open spec fn decimal_digits(n: nat) -> Seq<char>
    decreases n,
{
    if n < 10 {
        seq![digit_char(n)]
    } else {
        decimal_digits(n / 10).push(digit_char(n % 10))
    }
}

/// Calls `String::push`, trusted to append `c` to the characters of `s`, as
/// its documentation states.
#[verifier::external_body]
fn push_char(s: &mut String, c: char)
    ensures
        final(s)@ == old(s)@.push(c),
{
    s.push(c);
}

fn digit(d: u8) -> (c: char)
    requires
        d < 10,
    ensures
        c == digit_char(d as nat),
{
    (d + 48) as char
}

fn push_digits(out: &mut String, n: u128)
    ensures
        final(out)@ == old(out)@ + decimal_digits(n as nat),
    decreases n,
{
    if n >= 10 {
        push_digits(out, n / 10);
    }
    let d = (n % 10) as u8;
    push_char(out, digit(d));
}

/// The characters of `s`, in order.
fn chars_of(s: &str) -> (v: Vec<char>)
    ensures
        v@ == s@,
{
    let mut v: Vec<char> = Vec::new();
    for c in it: s.chars()
        invariant
            v@ == it.seq().take(it.index() as int),
    {
        v.push(c);
    }
    v
}

/// Decimal text of `v`: a `-` before the digits of a negative value.
pub open spec fn decimal_text(v: int) -> Seq<char> {
    if v < 0 {
        seq!['-'] + decimal_digits((-v) as nat)
    } else {
        decimal_digits(v as nat)
    }
}

/// Decimal text of `n`, as `n.to_string()` writes it.
pub fn format_unsigned(n: u128) -> (s: String)
    ensures
        s@ == decimal_text(n as int),
{
    let mut s = String::new();
    push_digits(&mut s, n);
    s
}

/// Decimal text of `n`, as `n.to_string()` writes it.
pub fn format_signed(n: i128) -> (s: String)
    ensures
        s@ == decimal_text(n as int),
{
    let mut s = String::new();
    if n < 0 {
        push_char(&mut s, '-');
        let magnitude: u128 = ((-(n + 1)) as u128) + 1;
        push_digits(&mut s, magnitude);
    } else {
        push_digits(&mut s, n as u128);
    }
    s
}

proof fn lemma_decimal_digits_shape(m: nat)
    ensures
        decimal_digits(m).len() >= 1,
        is_digit(decimal_digits(m)[0]),
    decreases m,
{
    if m >= 10 {
        lemma_decimal_digits_shape(m / 10);
    }
}

proof fn lemma_scan_decimal_digits(m: nat, negative: bool, min: int, max: int)
    requires
        min <= 0 <= max,
        negative ==> min <= -m,
        !negative ==> m <= max,
    ensures
        scan_digits(decimal_digits(m), negative, min, max) == Ok::<int, IntParseError>(
            if negative {
                -m
            } else {
                m as int
            },
        ),
    decreases m,
{
    let s = decimal_digits(m);
    if m < 10 {
        assert(s.drop_last() =~= Seq::<char>::empty());
    } else {
        lemma_scan_decimal_digits(m / 10, negative, min, max);
        assert(s.drop_last() =~= decimal_digits(m / 10));
    }
}

/// Reading back the decimal text of an integer gives the integer: for every
/// range `min..=max` that holds zero and `v`, `parse_decimal` of
/// `decimal_text(v)` is `v`.
pub proof fn lemma_decimal_round_trip(v: int, min: int, max: int)
    requires
        min <= v <= max,
        min <= 0 <= max,
    ensures
        parse_decimal(decimal_text(v), min, max) == Ok::<int, IntParseError>(v),
{
    let s = decimal_text(v);
    if v < 0 {
        let m = (-v) as nat;
        lemma_decimal_digits_shape(m);
        lemma_scan_decimal_digits(m, true, min, max);
        assert(s.drop_first() =~= decimal_digits(m));
    } else {
        lemma_decimal_digits_shape(v as nat);
        lemma_scan_decimal_digits(v as nat, false, min, max);
    }
}

/// Why a text is not the decimal form of an integer of the requested range,
/// in the kinds that `str::parse` reports.
#[derive(Debug, Clone, Copy, PartialEq, Eq)]
pub enum IntParseError {
    /// The text is empty.
    Empty,
    /// A character that is not a digit, or a sign with no digit after it.
    InvalidDigit,
    /// The value is above the largest value of the range.
    PosOverflow,
    /// The value is below the smallest value of the range.
    NegOverflow,
}

/// The text that `str::parse` gives for the error `e`.
pub open spec fn error_text(e: IntParseError) -> Seq<char> {
    match e {
        IntParseError::Empty => "cannot parse integer from empty string"@,
        IntParseError::InvalidDigit => "invalid digit found in string"@,
        IntParseError::PosOverflow => "number too large to fit in target type"@,
        IntParseError::NegOverflow => "number too small to fit in target type"@,
    }
}

impl IntParseError {
    /// The error text, worded as `str::parse` words it.
    pub fn message(&self) -> (m: &'static str)
        ensures
            m@ == error_text(*self),
    {
        match self {
            IntParseError::Empty => "cannot parse integer from empty string",
            IntParseError::InvalidDigit => "invalid digit found in string",
            IntParseError::PosOverflow => "number too large to fit in target type",
            IntParseError::NegOverflow => "number too small to fit in target type",
        }
    }
}

/// Whether `c` is one of `0` to `9`.
pub open spec fn is_digit(c: char) -> bool {
    '0' <= c <= '9'
}

/// The value of the digit character `c`.
pub open spec fn digit_value(c: char) -> int {
    c as int - 48
}

/// Reads `body` left to right, each digit moving the value away from zero
/// (down when `negative`), and stops at the first character that is not a
/// digit or the first value outside `min..=max`.
pub open spec fn scan_digits(body: Seq<char>, negative: bool, min: int, max: int) -> Result<
    int,
    IntParseError,
>
    decreases body.len(),
{
    if body.len() == 0 {
        Ok(0)
    } else {
        match scan_digits(body.drop_last(), negative, min, max) {
            Err(e) => Err(e),
            Ok(v) => {
                let c = body.last();
                if !is_digit(c) {
                    Err(IntParseError::InvalidDigit)
                } else if negative {
                    if v * 10 - digit_value(c) < min {
                        Err(IntParseError::NegOverflow)
                    } else {
                        Ok(v * 10 - digit_value(c))
                    }
                } else {
                    if v * 10 + digit_value(c) > max {
                        Err(IntParseError::PosOverflow)
                    } else {
                        Ok(v * 10 + digit_value(c))
                    }
                }
            },
        }
    }
}

/// The integer that the text `s` denotes in the range `min..=max`, read as
/// `str::parse` reads integers: an optional `+` (or `-`, where the range holds
/// negative values) and then one or more decimal digits.
pub open spec fn parse_decimal(s: Seq<char>, min: int, max: int) -> Result<int, IntParseError> {
    if s.len() == 0 {
        Err(IntParseError::Empty)
    } else if s.len() == 1 && (s[0] == '+' || s[0] == '-') {
        Err(IntParseError::InvalidDigit)
    } else if s[0] == '+' {
        scan_digits(s.drop_first(), false, min, max)
    } else if s[0] == '-' && min < 0 {
        scan_digits(s.drop_first(), true, min, max)
    } else {
        scan_digits(s, false, min, max)
    }
}

/// Once a prefix of `body` fails, the whole of `body` fails the same way.
proof fn lemma_scan_error_persists(body: Seq<char>, k: int, negative: bool, min: int, max: int)
    requires
        0 <= k <= body.len(),
        scan_digits(body.take(k), negative, min, max) is Err,
    ensures
        scan_digits(body, negative, min, max) == scan_digits(body.take(k), negative, min, max),
    decreases body.len() - k,
{
    if k < body.len() {
        assert(body.take(k + 1).drop_last() =~= body.take(k));
        lemma_scan_error_persists(body, k + 1, negative, min, max);
    } else {
        assert(body.take(k) =~= body);
    }
}

/// Reads the digits `chars[start..]` into a value of `min..=max`.
fn scan_signed(chars: &Vec<char>, start: usize, negative: bool, min: i128, max: i128) -> (r: Result<
    i128,
    IntParseError,
>)
    requires
        start <= chars.len(),
        min <= 0 <= max,
    ensures
        match r {
            Ok(v) => scan_digits(chars@.skip(start as int), negative, min as int, max as int) == Ok::<
                int,
                IntParseError,
            >(v as int),
            Err(e) => scan_digits(chars@.skip(start as int), negative, min as int, max as int)
                == Err::<int, IntParseError>(e),
        },
        r matches Ok(v) ==> min <= v <= max,
{
    let ghost body = chars@.skip(start as int);
    let mut value: i128 = 0;
    let mut i: usize = start;
    assert(body.take(0).len() == 0);
    while i < chars.len()
        invariant
            start <= i <= chars.len(),
            body == chars@.skip(start as int),
            min <= value <= max,
            min <= 0 <= max,
            negative ==> value <= 0,
            !negative ==> value >= 0,
            scan_digits(body.take(i - start), negative, min as int, max as int) == Ok::<
                int,
                IntParseError,
            >(value as int),
        decreases chars.len() - i,
    {
        let c = chars[i];
        let ghost k: int = i - start;
        assert(body.take(k + 1).drop_last() =~= body.take(k));
        assert(body.take(k + 1).last() == c);
        if !('0' <= c && c <= '9') {
            proof {
                lemma_scan_error_persists(body, k + 1, negative, min as int, max as int);
            }
            return Err(IntParseError::InvalidDigit);
        }
        let d = (c as u32 - 48) as i128;
        let next = if negative {
            match value.checked_mul(10) {
                Some(m) => if m >= min + d {
                    Some(m - d)
                } else {
                    None
                },
                None => None,
            }
        } else {
            match value.checked_mul(10) {
                Some(m) => if m <= max - d {
                    Some(m + d)
                } else {
                    None
                },
                None => None,
            }
        };
        match next {
            Some(w) => {
                value = w;
            },
            None => {
                proof {
                    lemma_scan_error_persists(body, k + 1, negative, min as int, max as int);
                }
                return Err(
                    if negative {
                        IntParseError::NegOverflow
                    } else {
                        IntParseError::PosOverflow
                    },
                );
            },
        }
        i = i + 1;
    }
    assert(body.take(i - start) =~= body);
    Ok(value)
}

/// Reads the digits `chars[start..]` into a value of `0..=max`.
fn scan_unsigned(chars: &Vec<char>, start: usize, max: u128) -> (r: Result<u128, IntParseError>)
    requires
        start <= chars.len(),
    ensures
        match r {
            Ok(v) => scan_digits(chars@.skip(start as int), false, 0, max as int) == Ok::<
                int,
                IntParseError,
            >(v as int),
            Err(e) => scan_digits(chars@.skip(start as int), false, 0, max as int) == Err::<
                int,
                IntParseError,
            >(e),
        },
{
    let ghost body = chars@.skip(start as int);
    let mut value: u128 = 0;
    let mut i: usize = start;
    while i < chars.len()
        invariant
            start <= i <= chars.len(),
            body == chars@.skip(start as int),
            value <= max,
            scan_digits(body.take(i - start), false, 0, max as int) == Ok::<int, IntParseError>(
                value as int,
            ),
        decreases chars.len() - i,
    {
        let c = chars[i];
        let ghost k: int = i - start;
        assert(body.take(k + 1).drop_last() =~= body.take(k));
        assert(body.take(k + 1).last() == c);
        if !('0' <= c && c <= '9') {
            proof {
                lemma_scan_error_persists(body, k + 1, false, 0, max as int);
            }
            return Err(IntParseError::InvalidDigit);
        }
        let d = (c as u32 - 48) as u128;
        let next = match value.checked_mul(10) {
            Some(m) => if d <= max && m <= max - d {
                Some(m + d)
            } else {
                None
            },
            None => None,
        };
        match next {
            Some(w) => {
                value = w;
            },
            None => {
                proof {
                    lemma_scan_error_persists(body, k + 1, false, 0, max as int);
                }
                return Err(IntParseError::PosOverflow);
            },
        }
        i = i + 1;
    }
    assert(body.take(i - start) =~= body);
    Ok(value)
}

/// Reads `s` as an integer of `min..=max`, a range that holds negative values.
fn parse_signed(s: &str, min: i128, max: i128) -> (r: Result<i128, IntParseError>)
    requires
        min < 0 <= max,
    ensures
        match r {
            Ok(v) => parse_decimal(s@, min as int, max as int) == Ok::<int, IntParseError>(v as int),
            Err(e) => parse_decimal(s@, min as int, max as int) == Err::<int, IntParseError>(e),
        },
        r matches Ok(v) ==> min <= v <= max,
{
    let chars = chars_of(s);
    let n = chars.len();
    if n == 0 {
        return Err(IntParseError::Empty);
    }
    let first = chars[0];
    if n == 1 && (first == '+' || first == '-') {
        return Err(IntParseError::InvalidDigit);
    }
    if first == '+' {
        assert(chars@.skip(1) =~= s@.drop_first());
        scan_signed(&chars, 1, false, min, max)
    } else if first == '-' {
        assert(chars@.skip(1) =~= s@.drop_first());
        scan_signed(&chars, 1, true, min, max)
    } else {
        assert(chars@.skip(0) =~= s@);
        scan_signed(&chars, 0, false, min, max)
    }
}

/// Reads `s` as an integer of `0..=max`.
fn parse_unsigned(s: &str, max: u128) -> (r: Result<u128, IntParseError>)
    ensures
        match r {
            Ok(v) => parse_decimal(s@, 0, max as int) == Ok::<int, IntParseError>(v as int),
            Err(e) => parse_decimal(s@, 0, max as int) == Err::<int, IntParseError>(e),
        },
{
    let chars = chars_of(s);
    let n = chars.len();
    if n == 0 {
        return Err(IntParseError::Empty);
    }
    let first = chars[0];
    if n == 1 && (first == '+' || first == '-') {
        return Err(IntParseError::InvalidDigit);
    }
    if first == '+' {
        assert(chars@.skip(1) =~= s@.drop_first());
        scan_unsigned(&chars, 1, max)
    } else {
        assert(chars@.skip(0) =~= s@);
        scan_unsigned(&chars, 0, max)
    }
}

/// Reads `s` as a `i8`, as `s.parse::<i8>()` does.
pub fn parse_i8(s: &str) -> (r: Result<i8, IntParseError>)
    ensures
        r matches Ok(v) ==> parse_decimal(s@, i8::MIN as int, i8::MAX as int) == Ok::<int, IntParseError>(
            v as int,
        ),
        r matches Err(e) ==> parse_decimal(s@, i8::MIN as int, i8::MAX as int) == Err::<int, IntParseError>(
            e,
        ),
{
    match parse_signed(s, i8::MIN as i128, i8::MAX as i128) {
        Ok(v) => Ok(v as i8),
        Err(e) => Err(e),
    }
}

/// Reads `s` as a `i16`, as `s.parse::<i16>()` does.
pub fn parse_i16(s: &str) -> (r: Result<i16, IntParseError>)
    ensures
        r matches Ok(v) ==> parse_decimal(s@, i16::MIN as int, i16::MAX as int) == Ok::<int, IntParseError>(
            v as int,
        ),
        r matches Err(e) ==> parse_decimal(s@, i16::MIN as int, i16::MAX as int) == Err::<int, IntParseError>(
            e,
        ),
{
    match parse_signed(s, i16::MIN as i128, i16::MAX as i128) {
        Ok(v) => Ok(v as i16),
        Err(e) => Err(e),
    }
}

/// Reads `s` as a `i32`, as `s.parse::<i32>()` does.
pub fn parse_i32(s: &str) -> (r: Result<i32, IntParseError>)
    ensures
        r matches Ok(v) ==> parse_decimal(s@, i32::MIN as int, i32::MAX as int) == Ok::<int, IntParseError>(
            v as int,
        ),
        r matches Err(e) ==> parse_decimal(s@, i32::MIN as int, i32::MAX as int) == Err::<int, IntParseError>(
            e,
        ),
{
    match parse_signed(s, i32::MIN as i128, i32::MAX as i128) {
        Ok(v) => Ok(v as i32),
        Err(e) => Err(e),
    }
}

/// Reads `s` as a `i64`, as `s.parse::<i64>()` does.
pub fn parse_i64(s: &str) -> (r: Result<i64, IntParseError>)
    ensures
        r matches Ok(v) ==> parse_decimal(s@, i64::MIN as int, i64::MAX as int) == Ok::<int, IntParseError>(
            v as int,
        ),
        r matches Err(e) ==> parse_decimal(s@, i64::MIN as int, i64::MAX as int) == Err::<int, IntParseError>(
            e,
        ),
{
    match parse_signed(s, i64::MIN as i128, i64::MAX as i128) {
        Ok(v) => Ok(v as i64),
        Err(e) => Err(e),
    }
}

/// Reads `s` as a `i128`, as `s.parse::<i128>()` does.
pub fn parse_i128(s: &str) -> (r: Result<i128, IntParseError>)
    ensures
        r matches Ok(v) ==> parse_decimal(s@, i128::MIN as int, i128::MAX as int) == Ok::<int, IntParseError>(
            v as int,
        ),
        r matches Err(e) ==> parse_decimal(s@, i128::MIN as int, i128::MAX as int) == Err::<int, IntParseError>(
            e,
        ),
{
    match parse_signed(s, i128::MIN as i128, i128::MAX as i128) {
        Ok(v) => Ok(v as i128),
        Err(e) => Err(e),
    }
}

/// Reads `s` as a `u8`, as `s.parse::<u8>()` does.
pub fn parse_u8(s: &str) -> (r: Result<u8, IntParseError>)
    ensures
        r matches Ok(v) ==> parse_decimal(s@, 0, u8::MAX as int) == Ok::<int, IntParseError>(
            v as int,
        ),
        r matches Err(e) ==> parse_decimal(s@, 0, u8::MAX as int) == Err::<int, IntParseError>(
            e,
        ),
{
    match parse_unsigned(s, u8::MAX as u128) {
        Ok(v) => Ok(v as u8),
        Err(e) => Err(e),
    }
}

/// Reads `s` as a `u16`, as `s.parse::<u16>()` does.
pub fn parse_u16(s: &str) -> (r: Result<u16, IntParseError>)
    ensures
        r matches Ok(v) ==> parse_decimal(s@, 0, u16::MAX as int) == Ok::<int, IntParseError>(
            v as int,
        ),
        r matches Err(e) ==> parse_decimal(s@, 0, u16::MAX as int) == Err::<int, IntParseError>(
            e,
        ),
{
    match parse_unsigned(s, u16::MAX as u128) {
        Ok(v) => Ok(v as u16),
        Err(e) => Err(e),
    }
}

/// Reads `s` as a `u32`, as `s.parse::<u32>()` does.
pub fn parse_u32(s: &str) -> (r: Result<u32, IntParseError>)
    ensures
        r matches Ok(v) ==> parse_decimal(s@, 0, u32::MAX as int) == Ok::<int, IntParseError>(
            v as int,
        ),
        r matches Err(e) ==> parse_decimal(s@, 0, u32::MAX as int) == Err::<int, IntParseError>(
            e,
        ),
{
    match parse_unsigned(s, u32::MAX as u128) {
        Ok(v) => Ok(v as u32),
        Err(e) => Err(e),
    }
}

/// Reads `s` as a `u64`, as `s.parse::<u64>()` does.
pub fn parse_u64(s: &str) -> (r: Result<u64, IntParseError>)
    ensures
        r matches Ok(v) ==> parse_decimal(s@, 0, u64::MAX as int) == Ok::<int, IntParseError>(
            v as int,
        ),
        r matches Err(e) ==> parse_decimal(s@, 0, u64::MAX as int) == Err::<int, IntParseError>(
            e,
        ),
{
    match parse_unsigned(s, u64::MAX as u128) {
        Ok(v) => Ok(v as u64),
        Err(e) => Err(e),
    }
}

/// Reads `s` as a `u128`, as `s.parse::<u128>()` does.
pub fn parse_u128(s: &str) -> (r: Result<u128, IntParseError>)
    ensures
        r matches Ok(v) ==> parse_decimal(s@, 0, u128::MAX as int) == Ok::<int, IntParseError>(
            v as int,
        ),
        r matches Err(e) ==> parse_decimal(s@, 0, u128::MAX as int) == Err::<int, IntParseError>(
            e,
        ),
{
    match parse_unsigned(s, u128::MAX as u128) {
        Ok(v) => Ok(v as u128),
        Err(e) => Err(e),
    }
}

} // verus!
