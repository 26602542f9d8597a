//! Concrete instances of the library's laws.

use rc9::flat::{flatten, unflatten};
use rc9::{FloatNumber, RcNumber, RcOptions, RcValue};

fn s(x: &str) -> RcValue {
    RcValue::String(x.to_string())
}

fn obj(entries: Vec<(&str, RcValue)>) -> RcValue {
    RcValue::Object(entries.into_iter().map(|(k, v)| (k.to_string(), v)).collect())
}

fn arr(items: Vec<RcValue>) -> RcValue {
    RcValue::Array(items)
}

fn plain_config() -> RcValue {
    obj(vec![
        (
            "server",
            obj(vec![
                ("host", s("example.org")),
                ("tags", arr(vec![s("a b"), RcValue::Bool(true), RcValue::Null])),
            ]),
        ),
        ("debug", RcValue::Bool(false)),
        ("motto", s("x = y, \u{e9}t\u{e9}")),
        ("matrix", arr(vec![arr(vec![s("0.0")]), obj(vec![("k", s(""))])])),
    ])
}

#[test]
fn plain_config_reads_back_nested() {
    let v = plain_config();
    let text = rc9::serialize(&v);
    assert_eq!(rc9::parse(&text, &RcOptions::default()), v);
}

#[test]
fn edge_keys_read_back() {
    let v = obj(vec![
        ("0", s("x")),
        ("list]", RcValue::Bool(true)),
        ("o", obj(vec![("constructor", s("c")), ("k", RcValue::Null)])),
        ("constructor", obj(vec![("a", s("b"))])),
    ]);
    let text = rc9::serialize(&v);
    assert_eq!(
        text,
        "0=\"x\"\nlist]=true\no.constructor=\"c\"\no.k=null\nconstructor.a=\"b\""
    );
    assert_eq!(rc9::parse(&text, &RcOptions::default()), v);
}

#[test]
fn plain_config_reads_back_flat_as_its_flattening() {
    let v = plain_config();
    let text = rc9::serialize(&v);
    let flat = RcOptions { name: None, dir: None, flat: Some(true) };
    assert_eq!(rc9::parse(&text, &flat), RcValue::Object(flatten(&v)));
}

#[test]
fn flattened_config_unflattens_back() {
    let v = obj(vec![
        ("n", RcValue::Number(RcNumber::PosInt(42))),
        ("neg", RcValue::Number(RcNumber::NegInt(-7))),
        ("f", RcValue::Number(RcNumber::parse("1.5").unwrap())),
        ("a b", s("quote \" and\nnewline")),
        ("constructor", RcValue::Null),
        ("list[]", obj(vec![("x=y", arr(vec![]))])),
        ("nested", arr(vec![obj(vec![]), arr(vec![RcValue::Bool(true)])])),
    ]);
    let flat = RcValue::Object(flatten(&v));
    assert_eq!(unflatten(&flat), v);
}

#[test]
fn serialized_text_has_no_trailing_newline() {
    let text = rc9::serialize(&plain_config());
    assert!(!text.ends_with('\n'));
    assert_eq!(rc9::serialize(&obj(vec![])), "");
}

#[test]
fn quoted_value_stays_string() {
    assert_eq!(rc9::destr::destr("\"123\""), s("123"));
    assert_eq!(rc9::destr::destr("\"true\""), s("true"));
    assert_eq!(rc9::destr::destr("\"a=b\""), s("a=b"));
}

#[test]
fn flattened_keys_are_distinct() {
    let flat = flatten(&plain_config());
    for i in 0..flat.len() {
        for j in (i + 1)..flat.len() {
            assert_ne!(flat[i].0, flat[j].0);
        }
    }
    assert_eq!(flat.len(), 8);
}

#[test]
fn numbers_and_escaped_strings_read_back() {
    let v = obj(vec![
        ("n", RcValue::Number(RcNumber::PosInt(42))),
        ("neg", RcValue::Number(RcNumber::NegInt(-1234567890123456))),
        ("q", s("say \"hi\"\\n\ttab\u{1}")),
        ("x", obj(vec![("f", RcValue::Number(RcNumber::Float(FloatNumber { bits: 0.25f64.to_bits(), text: "0.25".to_string() })))])),
    ]);
    let text = rc9::serialize(&v);
    assert_eq!(rc9::parse(&text, &RcOptions::default()), v);
}
