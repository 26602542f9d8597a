//! Flatten and unflatten behavior, flat mode, line handling, and array push.

use rc9::{RcNumber, RcOptions, RcValue};

fn s(x: &str) -> RcValue {
    RcValue::String(x.to_string())
}

fn num(x: u64) -> RcValue {
    RcValue::Number(RcNumber::PosInt(x))
}

fn obj(entries: Vec<(&str, RcValue)>) -> RcValue {
    RcValue::Object(entries.into_iter().map(|(k, v)| (k.to_string(), v)).collect())
}

fn arr(items: Vec<RcValue>) -> RcValue {
    RcValue::Array(items)
}

fn flat_opts() -> RcOptions {
    RcOptions {
        flat: Some(true),
        ..Default::default()
    }
}

#[test]
fn dotted_keys_nest_on_read() {
    let parsed = rc9::parse("db.username=alice\ndb.port=5432", &RcOptions::default());
    assert_eq!(parsed, obj(vec![("db", obj(vec![("username", s("alice")), ("port", num(5432))]))]));
}

#[test]
fn numeric_segment_builds_array() {
    let parsed = rc9::parse("tags.0=A\ntags.1=B", &RcOptions::default());
    assert_eq!(parsed, obj(vec![("tags", arr(vec![s("A"), s("B")]))]));
}

#[test]
fn flat_true_keeps_literal_keys() {
    let parsed = rc9::parse("x=1\nx.y=2", &flat_opts());
    assert_eq!(parsed, obj(vec![("x", num(1)), ("x.y", num(2))]));
}

#[test]
fn overwrite_collision_deeper_path_wins() {
    let parsed = rc9::parse("x=1\nx.y=2", &RcOptions::default());
    assert_eq!(parsed, obj(vec![("x", obj(vec![("y", num(2))]))]));
}

#[test]
fn serialize_round_trips_nested() {
    let value = obj(vec![
        ("a", obj(vec![("b", obj(vec![("c", s("deep"))]))])),
        ("n", num(42)),
        ("flag", RcValue::Bool(true)),
    ]);
    let text = rc9::serialize(&value);
    let back = rc9::parse(&text, &RcOptions::default());
    assert_eq!(back, value);
}

#[test]
fn flatten_unflatten_inverse_for_arrays() {
    let value = obj(vec![("x", obj(vec![("foo", arr(vec![s("A"), s("B"), s("C")]))]))]);
    let text = rc9::serialize(&value);
    assert_eq!(text, "x.foo.0=\"A\"\nx.foo.1=\"B\"\nx.foo.2=\"C\"");
    assert_eq!(rc9::parse(&text, &RcOptions::default()), value);
}

#[test]
fn array_push_multiple() {
    let parsed = rc9::parse("list[]=A\nlist[]=B\nlist[]=C", &RcOptions::default());
    assert_eq!(parsed, obj(vec![("list", arr(vec![s("A"), s("B"), s("C")]))]));
}

#[test]
fn interleaved_array_push_keeps_insertion_order() {
    let parsed = rc9::parse("a[]=1\nb=2\na[]=3", &RcOptions::default());
    assert_eq!(rc9::serialize(&parsed), "a.0=1\na.1=3\nb=2");
}

#[test]
fn array_push_single_onto_fresh_key() {
    let parsed = rc9::parse("list[]=only", &RcOptions::default());
    assert_eq!(parsed, obj(vec![("list", arr(vec![s("only")]))]));
}

#[test]
fn array_push_spreads_array_value() {
    let parsed = rc9::parse("list[]=[1,2]\nlist[]=3", &RcOptions::default());
    assert_eq!(parsed, obj(vec![("list", arr(vec![num(1), num(2), num(3)]))]));
}

#[test]
fn dotted_array_push_nests() {
    let parsed = rc9::parse("x.foo[]=A\nx.foo[]=B", &RcOptions::default());
    assert_eq!(parsed, obj(vec![("x", obj(vec![("foo", arr(vec![s("A"), s("B")]))]))]));
}

#[test]
fn comment_line_skipped() {
    let parsed = rc9::parse("# this is a comment\nkey=val", &RcOptions::default());
    assert_eq!(parsed, obj(vec![("key", s("val"))]));
}

#[test]
fn line_without_equals_skipped() {
    let parsed = rc9::parse("flag\nkey=val", &RcOptions::default());
    assert_eq!(parsed, obj(vec![("key", s("val"))]));
    assert!(parsed.get("flag").is_none());
}

#[test]
fn blank_lines_skipped() {
    let parsed = rc9::parse("\n\nkey=val\n\n", &RcOptions::default());
    assert_eq!(parsed, obj(vec![("key", s("val"))]));
}

#[test]
fn value_may_contain_equals() {
    let parsed = rc9::parse("url=http://a.com/?x=1", &RcOptions::default());
    assert_eq!(parsed, obj(vec![("url", s("http://a.com/?x=1"))]));
}

#[test]
fn whitespace_trimmed_around_equals() {
    let parsed = rc9::parse("  key  =  value  ", &RcOptions::default());
    assert_eq!(parsed, obj(vec![("key", s("value"))]));
}

#[test]
fn crlf_and_cr_split_lines() {
    let lf = rc9::parse("a=1\nb=2", &RcOptions::default());
    let crlf = rc9::parse("a=1\r\nb=2", &RcOptions::default());
    let cr = rc9::parse("a=1\rb=2", &RcOptions::default());
    let expected = obj(vec![("a", num(1)), ("b", num(2))]);
    assert_eq!(lf, expected);
    assert_eq!(crlf, expected);
    assert_eq!(cr, expected);
}

#[test]
fn last_write_wins_for_duplicate_keys() {
    let parsed = rc9::parse("k=first\nk=second", &RcOptions::default());
    assert_eq!(parsed, obj(vec![("k", s("second"))]));
}
