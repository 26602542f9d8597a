//! Merge, update, path and number behavior of the library's pure functions.

use rc9::value::clone_value;
use rc9::{FloatNumber, RcNumber, RcOptions, RcValue};

fn s(x: &str) -> RcValue {
    RcValue::String(x.to_string())
}

fn num(x: u64) -> RcValue {
    RcValue::Number(RcNumber::PosInt(x))
}

/// A double given by its value and the shortest text that reads back as it.
fn float(x: f64, text: &str) -> RcValue {
    RcValue::Number(RcNumber::Float(FloatNumber { bits: x.to_bits(), text: text.to_string() }))
}

fn obj(entries: Vec<(&str, RcValue)>) -> RcValue {
    RcValue::Object(entries.into_iter().map(|(k, v)| (k.to_string(), v)).collect())
}

fn arr(items: Vec<RcValue>) -> RcValue {
    RcValue::Array(items)
}

fn sample_config() -> RcValue {
    obj(vec![(
        "db",
        obj(vec![
            ("username", s("db username")),
            ("password", s("db pass")),
            ("enabled", RcValue::Bool(false)),
        ]),
    )])
}

/// What the file holds after writing `value`, read back.
fn written(value: &RcValue) -> RcValue {
    rc9::parse(&rc9::serialize(value), &RcOptions::default())
}

#[test]
fn write_then_read_round_trip_text() {
    assert_eq!(written(&sample_config()), sample_config());
}

#[test]
fn update_merges_with_existing_config() {
    let existing = written(&sample_config());
    let merged = rc9::update_config(
        &obj(vec![("db.password", s("updated"))]),
        &existing,
        &RcOptions::default(),
    );
    let db = merged.get("db").unwrap();
    assert_eq!(db.get("password"), Some(&s("updated")));
    assert_eq!(db.get("username"), Some(&s("db username")));
    assert_eq!(db.get("enabled"), Some(&RcValue::Bool(false)));
    assert_eq!(written(&merged).get("db").unwrap().get("password"), Some(&s("updated")));
}

#[test]
fn update_of_empty_existing_is_incoming() {
    let merged = rc9::update_config(
        &obj(vec![("a.b", num(1))]),
        &obj(vec![]),
        &RcOptions::default(),
    );
    assert_eq!(merged, obj(vec![("a", obj(vec![("b", num(1))]))]));
}

#[test]
fn update_incoming_wins() {
    let existing = obj(vec![("x", s("old")), ("keep", s("me"))]);
    let merged = rc9::update_config(&obj(vec![("x", s("new"))]), &existing, &RcOptions::default());
    assert_eq!(merged, obj(vec![("x", s("new")), ("keep", s("me"))]));
}

#[test]
fn update_arrays_concatenate_incoming_first_pure() {
    let existing = obj(vec![("arr", arr(vec![num(1), num(2)]))]);
    let merged = rc9::update_config(
        &obj(vec![("arr", arr(vec![num(3), num(4)]))]),
        &existing,
        &RcOptions::default(),
    );
    assert_eq!(merged.get("arr"), Some(&arr(vec![num(3), num(4), num(1), num(2)])));
}

#[test]
fn update_object_elements_concatenate_without_deep_merge() {
    let existing = obj(vec![("items", arr(vec![obj(vec![("b", num(2))])]))]);
    let merged = rc9::update_config(
        &obj(vec![("items", arr(vec![obj(vec![("a", num(1))])]))]),
        &existing,
        &RcOptions::default(),
    );
    assert_eq!(
        merged.get("items"),
        Some(&arr(vec![obj(vec![("a", num(1))]), obj(vec![("b", num(2))])]))
    );
}

#[test]
fn update_null_does_not_clobber_pure() {
    let existing = obj(vec![("x", s("keep"))]);
    let merged = rc9::update_config(
        &obj(vec![("x", RcValue::Null), ("y", s("added"))]),
        &existing,
        &RcOptions::default(),
    );
    assert_eq!(merged, obj(vec![("x", s("keep")), ("y", s("added"))]));
}

#[test]
fn update_empty_string_does_clobber_pure() {
    let existing = obj(vec![("x", s("old"))]);
    let merged = rc9::update_config(&obj(vec![("x", s(""))]), &existing, &RcOptions::default());
    assert_eq!(merged, obj(vec![("x", s(""))]));
}

#[test]
fn update_flat_keeps_literal_keys_pure() {
    let opts = RcOptions {
        flat: Some(true),
        ..Default::default()
    };
    let merged = rc9::update_config(&obj(vec![("x.y", num(2))]), &obj(vec![]), &opts);
    assert_eq!(merged, obj(vec![("x.y", num(2))]));
    assert_eq!(rc9::serialize(&merged), "x.y=2");
}

#[test]
fn flat_mode_update_reads_back_flat() {
    let object = obj(vec![("x", num(1)), ("x.y", num(2))]);
    let opts = RcOptions {
        flat: Some(true),
        ..Default::default()
    };
    let merged = rc9::update_config(&object, &obj(vec![]), &opts);
    assert_eq!(rc9::parse(&rc9::serialize(&merged), &opts), object);
}

#[test]
fn defu_skips_guarded_keys() {
    let base = obj(vec![("__proto__", s("x")), ("constructor", s("y")), ("a", num(1))]);
    let merged = rc9::defu::defu(&base, &obj(vec![("b", num(2))]));
    assert_eq!(merged, obj(vec![("b", num(2)), ("a", num(1))]));
}

#[test]
fn defu_deep_merges_objects() {
    let base = obj(vec![("db", obj(vec![("user", s("bob"))]))]);
    let defaults = obj(vec![("db", obj(vec![("user", s("alice")), ("port", num(5))]))]);
    let merged = rc9::defu::defu(&base, &defaults);
    assert_eq!(merged, obj(vec![("db", obj(vec![("user", s("bob")), ("port", num(5))]))]));
}

#[test]
fn defu_with_scalar_sides() {
    assert_eq!(rc9::defu::defu(&num(1), &obj(vec![("a", num(2))])), obj(vec![("a", num(2))]));
    assert_eq!(rc9::defu::defu(&obj(vec![("a", num(1))]), &num(2)), obj(vec![("a", num(1))]));
}

#[test]
fn config_path_defaults() {
    let p = rc9::config_path(&RcOptions::default(), "/work");
    assert_eq!(p, "/work/.conf");
    let p = rc9::config_path(&RcOptions::name("/abs/.rc"), "/work");
    assert_eq!(p, "/abs/.rc");
    let p = rc9::config_path(
        &RcOptions {
            name: Some("x.rc".to_string()),
            dir: Some("sub/../other/./d".to_string()),
            flat: None,
        },
        "/work",
    );
    assert_eq!(p, "/work/other/d/x.rc");
}

#[test]
fn resolve_normalizes_components() {
    assert_eq!(rc9::resolve::resolve("/cwd", "/a//b/", "../c"), "/a/c");
    assert_eq!(rc9::resolve::resolve("/cwd", "rel", "n"), "/cwd/rel/n");
    assert_eq!(rc9::resolve::resolve("/", "..", "n"), "/n");
    assert_eq!(rc9::resolve::resolve_from("/", ".."), "/");
    assert_eq!(rc9::resolve::resolve_from("/a", "../../b"), "/b");
    assert_eq!(rc9::resolve::resolve_from("", "../../a"), "../../a");
    assert_eq!(rc9::resolve::resolve_from("", "a/./b/../../../c"), "../c");
    assert_eq!(rc9::resolve::resolve_from("", "/a/./b/../c"), "/a/c");
    assert_eq!(rc9::resolve::resolve_from("/home/u", ".config"), "/home/u/.config");
    assert_eq!(rc9::resolve::resolve_from("/home/u", "/etc"), "/etc");
}

#[test]
fn user_dirs_choose_xdg_when_non_empty() {
    assert_eq!(rc9::xdg_config_dir(Some("/x".to_string()), "/home/u"), "/x");
    assert_eq!(rc9::xdg_config_dir(Some(String::new()), "/home/u"), "/home/u/.config");
    assert_eq!(rc9::xdg_config_dir(None, "/home/u"), "/home/u/.config");
    assert_eq!(rc9::legacy_user_dir(Some("/x".to_string()), "/home/u"), "/x");
    assert_eq!(rc9::legacy_user_dir(Some(String::new()), "/home/u"), "/home/u");
    assert_eq!(rc9::legacy_user_dir(None, "/home/u"), "/home/u");
}

#[test]
fn push_array_value_onto_string_joins_items() {
    let parsed = rc9::parse("k=hello\nk[]=[1,2]", &RcOptions::default());
    assert_eq!(parsed, obj(vec![("k", s("hello1,2"))]));
    let parsed = rc9::parse("k=hi\nk[]=[1,\"a\"]", &RcOptions::default());
    assert_eq!(parsed, obj(vec![("k", s("hi1,a"))]));
    let parsed =
        rc9::parse("k=s\nk[]=[[1,2],null,{\"a\":1},true]", &RcOptions::default());
    assert_eq!(parsed, obj(vec![("k", s("s1,2,,[object Object],true"))]));
}

#[test]
fn push_object_or_null_onto_string_uses_js_text() {
    let parsed = rc9::parse("k=s\nk[]={\"a\":1}", &RcOptions::default());
    assert_eq!(parsed, obj(vec![("k", s("s[object Object]"))]));
    let parsed = rc9::parse("k=s\nk[]=null\nk[]=true", &RcOptions::default());
    assert_eq!(parsed, obj(vec![("k", s("snulltrue"))]));
}

#[test]
fn push_number_onto_string_appends_plain_text() {
    let parsed = rc9::parse("k=v\nk[]=1e3\nk[]=2.5", &RcOptions::default());
    assert_eq!(parsed, obj(vec![("k", s("v10002.5"))]));
}

#[test]
fn push_onto_true_keeps_it() {
    let parsed = rc9::parse("k=true\nk[]=A", &RcOptions::default());
    assert_eq!(parsed, obj(vec![("k", RcValue::Bool(true))]));
}

#[test]
fn push_onto_zero_starts_array() {
    let parsed = rc9::parse("k=0\nk[]=A", &RcOptions::default());
    assert_eq!(parsed, obj(vec![("k", arr(vec![s("A")]))]));
}

#[test]
fn whole_floats_print_plain_below_ten_to_the_21() {
    assert_eq!(rc9::serialize(&obj(vec![("a", float(1e20, "1e20"))])), "a=100000000000000000000");
    assert_eq!(rc9::serialize(&obj(vec![("a", float(-2e19, "-2e19"))])), "a=-20000000000000000000");
    assert_eq!(rc9::serialize(&obj(vec![("a", float(1e21, "1e+21"))])), "a=1e+21");
    assert_eq!(rc9::serialize(&obj(vec![("a", float(1000.0, "1000.0"))])), "a=1000");
    assert_eq!(rc9::serialize(&obj(vec![("a", float(0.5, "0.5"))])), "a=0.5");
}

#[test]
fn whole_floats_normalize_to_integers_on_read() {
    assert_eq!(rc9::destr::destr("-1e3"), RcValue::Number(RcNumber::NegInt(-1000)));
    assert_eq!(rc9::destr::destr("1.5e1"), num(15));
    assert_eq!(rc9::destr::destr("-9.22337203685477581e18"), RcValue::Number(RcNumber::NegInt(i64::MIN)));
    assert!(matches!(rc9::destr::destr("1e19"), RcValue::Number(RcNumber::PosInt(10000000000000000000))));
    assert!(matches!(rc9::destr::destr("-1e19"), RcValue::Number(RcNumber::Float(_))));
}

#[test]
fn destr_keeps_non_json_and_strips_quotes() {
    assert_eq!(rc9::destr::destr("\"a b\""), s("a b"));
    assert_eq!(rc9::destr::destr("\"a\\\"b\""), s("a\"b"));
    assert_eq!(rc9::destr::destr("{bad"), s("{bad"));
    assert_eq!(rc9::destr::destr(" Infinity "), RcValue::Null);
    assert_eq!(rc9::destr::destr("[1e400]"), s("[1e400]"));
}

#[test]
fn control_characters_use_unicode_escapes() {
    assert_eq!(rc9::serialize(&obj(vec![("c", s("\u{1}\u{1f}\"\\"))])), "c=\"\\u0001\\u001f\\\"\\\\\"");
}

#[test]
fn non_ascii_text_round_trips() {
    let value = obj(vec![("k", s("héllo wörld"))]);
    assert_eq!(written(&value), value);
}

#[test]
fn flatten_and_unflatten_directly() {
    let nested = obj(vec![("a", obj(vec![("b", arr(vec![num(1), obj(vec![("c", num(2))])]))]))]);
    let flat = rc9::flat::flatten(&nested);
    let keys: Vec<&str> = flat.iter().map(|(k, _)| k.as_str()).collect();
    assert_eq!(keys, vec!["a.b.0", "a.b.1.c"]);
    assert_eq!(rc9::flat::unflatten(&RcValue::Object(flat)), nested);
    assert_eq!(rc9::flat::flatten(&s("x")), vec![]);
    assert_eq!(rc9::flat::unflatten(&arr(vec![num(1)])), arr(vec![num(1)]));
}

#[test]
fn unflatten_expands_nested_dotted_keys() {
    let v = obj(vec![("o", obj(vec![("a.b", num(1))]))]);
    assert_eq!(
        rc9::flat::unflatten(&v),
        obj(vec![("o", obj(vec![("a", obj(vec![("b", num(1))]))]))])
    );
}

#[test]
fn name_segment_under_array_is_dropped_deeper() {
    let parsed = rc9::parse("x.0=a\nx.y.z=b", &RcOptions::default());
    assert_eq!(parsed, obj(vec![("x", arr(vec![s("a")]))]));
}

#[test]
fn index_segment_forms() {
    let parsed = rc9::parse("a.007=x\nb.1e3=y\nc..=z", &RcOptions::default());
    assert_eq!(
        parsed,
        obj(vec![
            ("a", arr(vec![RcValue::Null, RcValue::Null, RcValue::Null, RcValue::Null, RcValue::Null, RcValue::Null, RcValue::Null, s("x")])),
            ("b", obj(vec![("1e3", s("y"))])),
            ("c", arr(vec![arr(vec![s("z")])])),
        ])
    );
}

#[test]
fn options_name_and_default() {
    let o = RcOptions::name(".myrc");
    assert_eq!(o.name.as_deref(), Some(".myrc"));
    assert!(o.dir.is_none() && o.flat.is_none());
    assert_eq!(RcOptions::default(), RcOptions { name: None, dir: None, flat: None });
    let d = rc9::with_dir(&o, "/d".to_string());
    assert_eq!(d.dir.as_deref(), Some("/d"));
    assert_eq!(clone_value(&num(3)), num(3));
}

#[test]
fn out_of_range_number_reads_null_only_when_otherwise_json() {
    let e = "number out of range at line 1 column 6".to_string();
    assert_eq!(rc9::destr::coerce_decoded("1e400 ", Err(e.clone())), RcValue::Null);
    assert_eq!(rc9::destr::coerce_decoded("1e400\u{a0}", Err(e.clone())), s("1e400\u{a0}"));
    assert_eq!(rc9::destr::coerce_decoded("1e400", Err("trailing characters".to_string())), s("1e400"));
    assert_eq!(rc9::destr::coerce_decoded("abc", Err(e)), s("abc"));
    assert_eq!(rc9::destr::destr("1e400\u{a0}"), s("1e400\u{a0}"));
    assert_eq!(rc9::destr::destr("1e400"), RcValue::Null);
}

#[test]
fn decoded_values_lose_dangerous_keys_and_normalize() {
    let decoded = obj(vec![
        ("__proto__", num(1)),
        ("a", float(2.0, "2.0")),
        ("b", float(2.5, "2.5")),
    ]);
    assert_eq!(
        rc9::destr::coerce_decoded("{}", Ok(decoded)),
        obj(vec![("a", num(2)), ("b", float(2.5, "2.5"))])
    );
}
