//! Exact-byte serialize contracts. The serialized form is a hard interface.

use rc9::{FloatNumber, RcNumber, RcValue};

fn s(x: &str) -> RcValue {
    RcValue::String(x.to_string())
}

fn num(x: u64) -> RcValue {
    RcValue::Number(RcNumber::PosInt(x))
}

/// A double given by its value and the shortest text that reads back as it.
fn float(x: f64, text: &str) -> RcValue {
    RcValue::Number(RcNumber::Float(FloatNumber { bits: x.to_bits(), text: text.to_string() }))
}

fn obj(entries: Vec<(&str, RcValue)>) -> RcValue {
    RcValue::Object(entries.into_iter().map(|(k, v)| (k.to_string(), v)).collect())
}

fn arr(items: Vec<RcValue>) -> RcValue {
    RcValue::Array(items)
}

/// Assert that `serialize` produces exactly `expected` for `input`.
fn check(input: RcValue, expected: &str) {
    assert_eq!(rc9::serialize(&input), expected);
}

#[test]
fn nested_object_with_string_bool() {
    check(
        obj(vec![(
            "db",
            obj(vec![
                ("username", s("db username")),
                ("password", s("db pass")),
                ("enabled", RcValue::Bool(false)),
            ]),
        )]),
        "db.username=\"db username\"\ndb.password=\"db pass\"\ndb.enabled=false",
    );
}

#[test]
fn empty_string_value() {
    check(obj(vec![("db", obj(vec![("password", s(""))]))]), "db.password=\"\"");
}

#[test]
fn flat_literal_keys() {
    check(obj(vec![("x", num(1)), ("x.y", num(2))]), "x=1\nx.y=2");
}

#[test]
fn nested_array_numeric_keys() {
    check(
        obj(vec![("x", obj(vec![("foo", arr(vec![s("A"), s("B")]))]))]),
        "x.foo.0=\"A\"\nx.foo.1=\"B\"",
    );
}

#[test]
fn numbers_are_bare() {
    check(obj(vec![("count", num(123))]), "count=123");
    check(obj(vec![("ratio", float(12.5, "12.5"))]), "ratio=12.5");
}

#[test]
fn null_writes_as_null() {
    check(obj(vec![("x", RcValue::Null)]), "x=null");
}

#[test]
fn forward_slash_not_escaped() {
    check(obj(vec![("url", s("http://a/b"))]), "url=\"http://a/b\"");
}

#[test]
fn control_chars_escaped() {
    check(obj(vec![("s", s("tab\tnl\n"))]), "s=\"tab\\tnl\\n\"");
}

#[test]
fn empty_object_and_array_are_leaves() {
    check(obj(vec![("a", obj(vec![]))]), "a={}");
    check(obj(vec![("a", arr(vec![]))]), "a=[]");
}

#[test]
fn no_trailing_newline() {
    let text = rc9::serialize(&obj(vec![("a", num(1)), ("b", num(2))]));
    assert!(!text.ends_with('\n'));
    assert_eq!(text, "a=1\nb=2");
}

#[test]
fn insertion_order_is_preserved() {
    let input = obj(vec![("zebra", num(1)), ("alpha", num(2)), ("mango", num(3))]);
    assert_eq!(rc9::serialize(&input), "zebra=1\nalpha=2\nmango=3");
}
