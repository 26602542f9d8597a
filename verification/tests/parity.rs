//! Behavioral parity cases that do not touch the filesystem.

use rc9::{RcOptions, RcValue};

fn s(x: &str) -> RcValue {
    RcValue::String(x.to_string())
}

fn obj(entries: Vec<(&str, RcValue)>) -> RcValue {
    RcValue::Object(entries.into_iter().map(|(k, v)| (k.to_string(), v)).collect())
}

/// Assert that every key and value in `expected` is present in `actual`.
fn assert_matches_subset(actual: &RcValue, expected: &RcValue) {
    match (actual, expected) {
        (RcValue::Object(_), RcValue::Object(e)) => {
            for (key, exp_val) in e {
                let act_val = actual
                    .get(key)
                    .unwrap_or_else(|| panic!("missing key {key:?} in {actual:?}"));
                assert_matches_subset(act_val, exp_val);
            }
        }
        _ => assert_eq!(actual, expected, "value mismatch"),
    }
}

#[test]
fn parse_ignore_invalid_lines() {
    let input = "
      foo=bar
      __proto__=no
      # test
      bar = baz
      empty =
    ";
    let parsed = rc9::parse(input, &RcOptions::default());
    assert_matches_subset(&parsed, &obj(vec![("foo", s("bar")), ("bar", s("baz"))]));
    assert!(parsed.get("__proto__").is_none());
}

#[test]
fn parse_indexless_arrays() {
    let input = "
      x.foo[]=A
      x.foo[]=B
    ";
    let parsed = rc9::parse(input, &RcOptions::default());
    assert_matches_subset(
        &parsed,
        &obj(vec![("x", obj(vec![("foo", RcValue::Array(vec![s("A"), s("B")]))]))]),
    );
}
