//! Prototype-pollution guards across the three layers that filter dangerous keys.

use rc9::{RcNumber, RcOptions, RcValue};

fn num(x: u64) -> RcValue {
    RcValue::Number(RcNumber::PosInt(x))
}

fn obj(entries: Vec<(&str, RcValue)>) -> RcValue {
    RcValue::Object(entries.into_iter().map(|(k, v)| (k.to_string(), v)).collect())
}

#[test]
fn parse_drops_proto_key() {
    let parsed = rc9::parse("__proto__=evil\nok=1", &RcOptions::default());
    assert!(parsed.get("__proto__").is_none());
    assert_eq!(parsed.get("ok"), Some(&num(1)));
}

#[test]
fn parse_drops_constructor_key() {
    let parsed = rc9::parse("constructor=evil\nok=1", &RcOptions::default());
    assert!(parsed.get("constructor").is_none());
    assert_eq!(parsed.get("ok"), Some(&num(1)));
}

#[test]
fn destr_drops_proto_in_json_object() {
    let parsed = rc9::parse("o={\"__proto__\":{\"x\":1},\"a\":2}", &RcOptions::default());
    assert_eq!(parsed.get("o"), Some(&obj(vec![("a", num(2))])));
}

#[test]
fn destr_drops_constructor_with_prototype() {
    let parsed = rc9::parse("o={\"constructor\":{\"prototype\":{}}}", &RcOptions::default());
    assert_eq!(parsed.get("o"), Some(&obj(vec![])));
}

#[test]
fn destr_keeps_constructor_without_prototype() {
    let parsed = rc9::parse("o={\"constructor\":{\"x\":1}}", &RcOptions::default());
    assert_eq!(
        parsed.get("o"),
        Some(&obj(vec![("constructor", obj(vec![("x", num(1))]))]))
    );
}

#[test]
fn unflatten_skips_proto_segment_keeps_prior_container() {
    let parsed = rc9::parse("a.__proto__.x=1\nb=2", &RcOptions::default());
    assert_eq!(parsed, obj(vec![("a", obj(vec![])), ("b", num(2))]));
}

#[test]
fn unflatten_skips_leading_proto_segment() {
    let parsed = rc9::parse(
        "__proto__.x=1\nb=2",
        &RcOptions {
            flat: None,
            ..Default::default()
        },
    );
    assert_eq!(parsed, obj(vec![("b", num(2))]));
}

#[test]
fn unflatten_skips_trailing_proto_segment() {
    let parsed = rc9::parse("a.__proto__=1\nb=2", &RcOptions::default());
    assert_eq!(parsed, obj(vec![("a", obj(vec![])), ("b", num(2))]));
}
