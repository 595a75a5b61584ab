use jsone::read::{float_input, integer_input, EntryCursor, FloatInput, IntegerInput, MissingValue};
use jsone::remap::{float_remap, remap_key, special_float, unwrap_remapped_values, FloatRemap, SpecialFloat};
use jsone::value::{JsonNumber, JsonValue};
use jsone::decimal::{format_signed, format_unsigned, parse_i32};
use jsone::BigInt;

fn text(s: &str) -> JsonValue {
    JsonValue::String(s.to_string())
}

fn wrapped(inner: JsonValue) -> JsonValue {
    JsonValue::Object(vec![("$$jsone$remap$$".to_string(), inner)])
}

fn object(entries: Vec<(&str, JsonValue)>) -> JsonValue {
    JsonValue::Object(entries.into_iter().map(|(k, v)| (k.to_string(), v)).collect())
}

fn nested(id: u64, label: &str, count: i32, active: bool) -> JsonValue {
    object(vec![
        ("id", wrapped(text(&format_unsigned(id as u128)))),
        ("label", text(label)),
        (
            "child",
            object(vec![
                ("count", wrapped(text(&format_signed(count as i128)))),
                ("active", JsonValue::Bool(active)),
            ]),
        ),
    ])
}

fn nested_as_text(id: &str, label: &str, count: &str, active: bool) -> JsonValue {
    object(vec![
        ("id", text(id)),
        ("label", text(label)),
        ("child", object(vec![("count", text(count)), ("active", JsonValue::Bool(active))])),
    ])
}

#[test]
fn remap_key_is_the_marker() {
    assert_eq!(remap_key(), "$$jsone$remap$$");
}

#[test]
fn integer_is_written_as_wrapped_decimal_text() {
    assert_eq!(wrapped(text(&format_signed(123))), wrapped(text("123")));
    assert_eq!(format_signed(-5), "-5");
}

#[test]
fn wrapped_text_is_read_back_as_the_integer() {
    let read = unwrap_remapped_values(wrapped(text("123")));
    assert_eq!(read, text("123"));
    match integer_input(read) {
        IntegerInput::Text(s) => assert_eq!(parse_i32(&s), Ok(123)),
        IntegerInput::Other(v) => panic!("expected text, got {v:?}"),
    }
}

#[test]
fn nested_object_numbers_are_unwrapped_in_place() {
    let read = unwrap_remapped_values(object(vec![("value", nested(123, "unchanged", -5, true))]));
    assert_eq!(read, object(vec![("value", nested_as_text("123", "unchanged", "-5", true))]));
}

#[test]
fn nested_array_numbers_are_unwrapped_in_place() {
    let written = JsonValue::Array(vec![nested(123, "first", -5, true), nested(456, "second", 7, false)]);
    let read = unwrap_remapped_values(written);
    assert_eq!(
        read,
        JsonValue::Array(vec![
            nested_as_text("123", "first", "-5", true),
            nested_as_text("456", "second", "7", false),
        ])
    );
}

#[test]
fn special_codes_are_written_for_non_finite_doubles() {
    assert_eq!(float_remap(f64::NAN.to_bits()), FloatRemap::Code(1));
    assert_eq!(float_remap(f64::INFINITY.to_bits()), FloatRemap::Code(2));
    assert_eq!(float_remap(f64::NEG_INFINITY.to_bits()), FloatRemap::Code(3));
    assert_eq!(float_remap((-f64::NAN).to_bits()), FloatRemap::Code(1));
    assert_eq!(float_remap(f64::from(f32::NAN).to_bits()), FloatRemap::Code(1));
    assert_eq!(float_remap(f64::from(f32::NEG_INFINITY).to_bits()), FloatRemap::Code(3));
    assert_eq!(float_remap(1.5f64.to_bits()), FloatRemap::Text);
    assert_eq!(float_remap(f64::MAX.to_bits()), FloatRemap::Text);
    assert_eq!(float_remap(0.0f64.to_bits()), FloatRemap::Text);
}

#[test]
fn special_codes_are_read_back_as_non_finite_values() {
    for (code, expected) in [(1u64, SpecialFloat::Nan), (2, SpecialFloat::Infinity), (3, SpecialFloat::NegInfinity)] {
        let read = unwrap_remapped_values(wrapped(JsonValue::Number(JsonNumber::PosInt(code))));
        assert_eq!(read, JsonValue::Number(JsonNumber::PosInt(code)));
        assert_eq!(float_input(read), FloatInput::Special(expected));
        assert_eq!(special_float(JsonNumber::PosInt(code)), Some(expected));
    }
    assert_eq!(special_float(JsonNumber::PosInt(0)), None);
    assert_eq!(special_float(JsonNumber::NegInt(-1)), None);
}

#[test]
fn other_wrapped_numbers_stay_wrapped() {
    let four = wrapped(JsonValue::Number(JsonNumber::PosInt(4)));
    let read = unwrap_remapped_values(wrapped(JsonValue::Number(JsonNumber::PosInt(4))));
    assert_eq!(read, four);
    assert_eq!(float_input(read), FloatInput::Other(wrapped(JsonValue::Number(JsonNumber::PosInt(4)))));
    let neg = unwrap_remapped_values(wrapped(JsonValue::Number(JsonNumber::NegInt(-2))));
    assert_eq!(neg, wrapped(JsonValue::Number(JsonNumber::NegInt(-2))));
}

#[test]
fn objects_without_the_marker_are_left_alone() {
    let unknown = object(vec![("unknown", text("123"))]);
    let read = unwrap_remapped_values(object(vec![("unknown", text("123"))]));
    assert_eq!(read, unknown);
    assert_eq!(integer_input(read), IntegerInput::Other(object(vec![("unknown", text("123"))])));
    let empty = unwrap_remapped_values(JsonValue::Object(Vec::new()));
    assert_eq!(empty, JsonValue::Object(Vec::new()));
    let two = object(vec![("$$jsone$remap$$", text("1")), ("x", text("2"))]);
    assert_eq!(
        unwrap_remapped_values(object(vec![("$$jsone$remap$$", text("1")), ("x", text("2"))])),
        two
    );
}

#[test]
fn wrapped_containers_are_unwrapped_deeply() {
    let written = wrapped(JsonValue::Array(vec![wrapped(text("1")), wrapped(wrapped(text("2")))]));
    assert_eq!(unwrap_remapped_values(written), JsonValue::Array(vec![text("1"), text("2")]));
}

#[test]
fn unwrapping_twice_is_unwrapping_once() {
    let once = unwrap_remapped_values(wrapped(wrapped(JsonValue::Number(JsonNumber::PosInt(9)))));
    assert_eq!(once, wrapped(JsonValue::Number(JsonNumber::PosInt(9))));
    let twice = unwrap_remapped_values(wrapped(JsonValue::Number(JsonNumber::PosInt(9))));
    assert_eq!(twice, once);
}

#[test]
fn inputs_are_chosen_by_kind() {
    assert_eq!(integer_input(text("7")), IntegerInput::Text("7".to_string()));
    assert_eq!(integer_input(JsonValue::Null), IntegerInput::Other(JsonValue::Null));
    assert_eq!(float_input(text("1.5")), FloatInput::Text("1.5".to_string()));
    assert_eq!(
        float_input(JsonValue::Number(JsonNumber::Float(2.5f64.to_bits()))),
        FloatInput::Other(JsonValue::Number(JsonNumber::Float(2.5f64.to_bits())))
    );
    assert_eq!(float_input(JsonValue::Bool(true)), FloatInput::Other(JsonValue::Bool(true)));
}

#[test]
fn entry_cursor_hands_out_keys_then_values_in_order() {
    let mut cursor = EntryCursor::new(vec![
        ("a".to_string(), JsonValue::Null),
        ("b".to_string(), JsonValue::Bool(true)),
    ]);
    assert_eq!(cursor.next_value(), Err(MissingValue));
    assert_eq!(cursor.next_key(), Some("a".to_string()));
    assert_eq!(cursor.next_value(), Ok(JsonValue::Null));
    assert_eq!(cursor.next_value(), Err(MissingValue));
    assert_eq!(cursor.next_key(), Some("b".to_string()));
    assert_eq!(cursor.next_value(), Ok(JsonValue::Bool(true)));
    assert_eq!(cursor.next_key(), None);
    assert_eq!(MissingValue.message(), "value is missing for map key");
}

#[test]
fn big_int_wraps_a_value() {
    let b = BigInt(42i32);
    assert_eq!(b.0, 42);
    assert_eq!(BigInt::<u8>::default(), BigInt(0));
    assert!(BigInt(1) < BigInt(2));
}
