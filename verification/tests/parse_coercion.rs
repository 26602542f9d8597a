//! Value coercion matrix. Each value is checked through `parse` of `k=<value>`.

use rc9::value::clone_value;
use rc9::{FloatNumber, RcNumber, RcOptions, RcValue};

fn s(x: &str) -> RcValue {
    RcValue::String(x.to_string())
}

fn num(x: i64) -> RcValue {
    if x < 0 {
        RcValue::Number(RcNumber::NegInt(x))
    } else {
        RcValue::Number(RcNumber::PosInt(x as u64))
    }
}

/// A double given by its value and the shortest text that reads back as it.
fn float(x: f64, text: &str) -> RcValue {
    RcValue::Number(RcNumber::Float(FloatNumber { bits: x.to_bits(), text: text.to_string() }))
}

fn obj(entries: Vec<(&str, RcValue)>) -> RcValue {
    RcValue::Object(entries.into_iter().map(|(k, v)| (k.to_string(), v)).collect())
}

/// Parse `k=<value>` and return the coerced value at `k`.
fn coerce(value: &str) -> RcValue {
    let line = format!("k={value}");
    let parsed = rc9::parse(&line, &RcOptions::default());
    match parsed.get("k") {
        Some(v) => clone_value(v),
        None => RcValue::Null,
    }
}

#[test]
fn plain_words_stay_strings() {
    assert_eq!(coerce("bar"), s("bar"));
    assert_eq!(coerce("baz"), s("baz"));
    assert_eq!(coerce("multi word"), s("multi word"));
}

#[test]
fn integers_and_floats() {
    assert_eq!(coerce("123"), num(123));
    assert_eq!(coerce("12.5"), float(12.5, "12.5"));
    assert_eq!(coerce("123.45"), float(123.45, "123.45"));
    assert_eq!(coerce("-7"), num(-7));
    assert_eq!(coerce("0"), num(0));
}

#[test]
fn exponent_form() {
    // 1e3 parses to 1000.
    assert_eq!(coerce("1e3"), num(1000));
}

#[test]
fn float_at_u64_rounding_boundary_stays_float() {
    let value = coerce("1.8446744073709552e19");
    match value {
        RcValue::Number(RcNumber::Float(f)) => {
            assert_eq!(f64::from_bits(f.bits), 1.8446744073709552e19);
        }
        other => panic!("expected a float, got {other:?}"),
    }
}

#[test]
fn booleans_and_null() {
    assert_eq!(coerce("true"), RcValue::Bool(true));
    assert_eq!(coerce("false"), RcValue::Bool(false));
    assert_eq!(coerce("null"), RcValue::Null);
}

#[test]
fn empty_value_is_empty_string() {
    assert_eq!(coerce(""), s(""));
}

#[test]
fn quoted_values_stay_strings() {
    assert_eq!(coerce("\"123\""), s("123"));
    assert_eq!(coerce("\"hello\""), s("hello"));
}

#[test]
fn json_object_and_array() {
    assert_eq!(coerce("{\"a\":1}"), obj(vec![("a", num(1))]));
    assert_eq!(coerce("[1,2,3]"), RcValue::Array(vec![num(1), num(2), num(3)]));
    assert_eq!(coerce("[1,2,\"three\"]"), RcValue::Array(vec![num(1), num(2), s("three")]));
}

#[test]
fn leading_zero_stays_string() {
    assert_eq!(coerce("0123"), s("0123"));
    assert_eq!(coerce("01"), s("01"));
}

#[test]
fn sixteen_digit_int_parses_seventeen_does_not() {
    assert_eq!(coerce("1234567890123456"), num(1_234_567_890_123_456));
    assert_eq!(coerce("12345678901234567"), s("12345678901234567"));
}

#[test]
fn non_number_shapes_stay_strings() {
    assert_eq!(coerce("0x1F"), s("0x1F"));
    assert_eq!(coerce("+5"), s("+5"));
    assert_eq!(coerce(".5"), s(".5"));
}

#[test]
fn nan_and_infinity_become_null() {
    assert_eq!(coerce("nan"), RcValue::Null);
    assert_eq!(coerce("NaN"), RcValue::Null);
    assert_eq!(coerce("infinity"), RcValue::Null);
    assert_eq!(coerce("-infinity"), RcValue::Null);
}

#[test]
fn undefined_keyword_reads_as_null() {
    assert_eq!(coerce("undefined"), RcValue::Null);
}

#[test]
fn keyword_case_insensitive() {
    assert_eq!(coerce("TRUE"), RcValue::Bool(true));
    assert_eq!(coerce("False"), RcValue::Bool(false));
    assert_eq!(coerce("NULL"), RcValue::Null);
}
