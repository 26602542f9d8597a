//! Edge cases of coercion and merging, pinned to exact results.

use rc9::value::clone_value;
use rc9::{FloatNumber, RcNumber, RcOptions, RcValue};

fn s(x: &str) -> RcValue {
    RcValue::String(x.to_string())
}

fn num(x: i64) -> RcValue {
    if x < 0 {
        RcValue::Number(RcNumber::NegInt(x))
    } else {
        RcValue::Number(RcNumber::PosInt(x as u64))
    }
}

/// A double given by its value and the shortest text that reads back as it.
fn float(x: f64, text: &str) -> RcValue {
    RcValue::Number(RcNumber::Float(FloatNumber { bits: x.to_bits(), text: text.to_string() }))
}

fn obj(entries: Vec<(&str, RcValue)>) -> RcValue {
    RcValue::Object(entries.into_iter().map(|(k, v)| (k.to_string(), v)).collect())
}

fn arr(items: Vec<RcValue>) -> RcValue {
    RcValue::Array(items)
}

/// Parse `k=<value>` and return the coerced value at `k`.
fn coerce(value: &str) -> RcValue {
    let line = format!("k={value}");
    match rc9::parse(&line, &RcOptions::default()).get("k") {
        Some(v) => clone_value(v),
        None => RcValue::Null,
    }
}

#[test]
fn negative_zero_reads_as_zero() {
    assert_eq!(coerce("-0"), num(0));
}

#[test]
fn zero_exponent_reads_as_zero() {
    assert_eq!(coerce("0e0"), num(0));
}

#[test]
fn integral_float_reads_as_integer() {
    assert_eq!(coerce("1.0"), num(1));
}

#[test]
fn finite_large_exponent_stays_number() {
    assert!(matches!(coerce("1e308"), RcValue::Number(_)));
}

#[test]
fn seventeen_fraction_digits_parse() {
    assert_eq!(coerce("1.12345678901234567"), float(1.1234567890123457, "1.1234567890123457"));
}

#[test]
fn eighteen_fraction_digits_stay_string() {
    let value = "1.123456789012345678";
    assert_eq!(coerce(value), s(value));
}

#[test]
fn trailing_junk_after_number_stays_string() {
    assert_eq!(coerce("123abc"), s("123abc"));
}

#[test]
fn whitespace_only_value_after_quote_strip_stays_string() {
    assert_eq!(coerce("   "), s(""));
}

#[test]
fn cr_only_separator_splits_lines() {
    let parsed = rc9::parse("a=1\rb=2", &RcOptions::default());
    assert_eq!(parsed, obj(vec![("a", num(1)), ("b", num(2))]));
}

#[test]
fn numeric_top_level_keys_stay_object_keys() {
    let parsed = rc9::parse("0=a\n1=b", &RcOptions::default());
    assert_eq!(parsed, obj(vec![("0", s("a")), ("1", s("b"))]));
}

#[test]
fn sparse_numeric_segment_pads_with_null() {
    let parsed = rc9::parse("a.2=c", &RcOptions::default());
    assert_eq!(parsed, obj(vec![("a", arr(vec![RcValue::Null, RcValue::Null, s("c")]))]));
}

#[test]
fn array_index_collision_with_name_keeps_array() {
    let parsed = rc9::parse("x.0=a\nx.y=b", &RcOptions::default());
    assert_eq!(parsed, obj(vec![("x", arr(vec![s("a")]))]));
}

#[test]
fn nested_then_scalar_scalar_wins() {
    let parsed = rc9::parse("x.y=2\nx=1", &RcOptions::default());
    assert_eq!(parsed, obj(vec![("x", num(1))]));
}

#[test]
fn double_bracket_strips_only_last_suffix() {
    let parsed = rc9::parse("k[][]=A", &RcOptions::default());
    assert_eq!(parsed, obj(vec![("k[]", arr(vec![s("A")]))]));
}

#[test]
fn bracket_in_key_middle_is_a_literal_key() {
    let parsed = rc9::parse("a[]b=1", &RcOptions::default());
    assert_eq!(parsed, obj(vec![("a[]b", num(1))]));
}

#[test]
fn two_quote_chars_read_as_empty_string() {
    assert_eq!(coerce("\"\""), s(""));
}

#[test]
fn serialize_top_level_array_uses_index_keys() {
    assert_eq!(rc9::serialize(&arr(vec![s("a"), s("b")])), "0=\"a\"\n1=\"b\"");
}

#[test]
fn push_onto_existing_string_concatenates() {
    let parsed = rc9::parse("k=hello\nk[]=A", &RcOptions::default());
    assert_eq!(parsed, obj(vec![("k", s("helloA"))]));
}

#[test]
fn push_onto_null_starts_array() {
    let parsed = rc9::parse("k=null\nk[]=A", &RcOptions::default());
    assert_eq!(parsed, obj(vec![("k", arr(vec![s("A")]))]));
}

#[test]
fn push_onto_empty_string_starts_array() {
    let parsed = rc9::parse("k=\nk[]=A", &RcOptions::default());
    assert_eq!(parsed, obj(vec![("k", arr(vec![s("A")]))]));
}

#[test]
fn lone_quote_strips_to_empty() {
    assert_eq!(coerce("\""), s(""));
}

#[test]
fn exponent_overflow_coerces_to_null() {
    assert_eq!(coerce("1e400"), RcValue::Null);
    assert_eq!(coerce("-1e400"), RcValue::Null);
    assert_eq!(rc9::serialize(&obj(vec![("k", coerce("1e400"))])), "k=null");
}

#[test]
fn serialize_negative_zero_is_bare_zero() {
    assert_eq!(rc9::serialize(&obj(vec![("x", float(-0.0, "-0.0"))])), "x=0");
}

#[test]
fn undefined_keyword_keeps_key_as_null() {
    let parsed = rc9::parse("a=undefined\nb=1", &RcOptions::default());
    assert_eq!(parsed, obj(vec![("a", RcValue::Null), ("b", num(1))]));
}

#[test]
fn large_numeric_segment_becomes_object_key() {
    let parsed = rc9::parse("a.1000000=x", &RcOptions::default());
    assert_eq!(parsed, obj(vec![("a", obj(vec![("1000000", s("x"))]))]));
}

#[test]
fn signed_and_radix_segments_become_object_keys() {
    let signed = rc9::parse("a.-1=x", &RcOptions::default());
    assert_eq!(signed, obj(vec![("a", obj(vec![("-1", s("x"))]))]));
    let hex = rc9::parse("a.0x10=x", &RcOptions::default());
    assert_eq!(hex, obj(vec![("a", obj(vec![("0x10", s("x"))]))]));
    let bin = rc9::parse("a.0b10=x", &RcOptions::default());
    assert_eq!(bin, obj(vec![("a", obj(vec![("0b10", s("x"))]))]));
}
