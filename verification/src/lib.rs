//! Read and write flat rc-style dotfile config.
//!
//! A config file is a list of `key=value` lines. Keys may use dot notation
//! (`db.username`) to express nested objects and a `[]` suffix (`modules[]`)
//! to push onto arrays. Values coerce to native types on read and serialize
//! back to JSON-quoted text on write.
//!
//! Each line matches `key=value`. The key is a run of non-whitespace,
//! non-`=` characters. Only the first `=` splits the line, so a value may
//! contain further `=` signs. Lines that do not match, including blanks and
//! comments, are skipped.
//!
//! This crate holds the text-to-value and value-to-text logic; reading and
//! writing files and looking up the user's directories is done by the caller
//! with the paths and texts that [`config_path`], [`parse`], [`serialize`] and
//! [`update_config`] compute.
use vstd::prelude::*;

pub mod defu;
pub mod destr;
pub mod flat;
pub mod json;
pub mod laws;
pub mod number;
pub mod resolve;
pub mod roundtrip;
pub mod text;
pub mod value;

pub use value::{RcValue, RcNumber, FloatNumber};

use text::{
    chars_of, string_from_chars, slice_chars, skip_ws, trim, trim_chars, ws_run, is_js_ws,
    chars_eq,
};
use value::{
    JValue, NumView, Obj, obj_get, obj_insert, obj_insert_exec, entries_view, items_view,
    lemma_object_view, lemma_array_view, find_key, clone_value,
};
use destr::{destr_spec, destr_chars, lit_proto, lit_constructor, literal};
use flat::{unflatten_spec, unflatten, flatten, flatten_spec, segs_view};
use json::{json_text, push_json_text, push_str};
use number::{encode_number, push_encoded_number, float_whole_magnitude};
use defu::{merge_spec, defu};
use resolve::{resolve, resolve_spec, resolve_from, is_abs, normalize_spec, path_join};

verus! {

/// The configuration file name used when no name is given.
pub const DEFAULT_NAME: &'static str = ".conf";

/// Options that control where a config file lives and how it parses.
///
/// All fields are optional. A missing field falls back to its default: name
/// `.conf`, directory the current working directory, and nested (not flat)
/// mode.
#[derive(Debug, Clone, PartialEq, Eq)]
pub struct RcOptions {
    /// The name of the configuration file.
    pub name: Option<String>,
    /// The directory that holds the configuration file.
    pub dir: Option<String>,
    /// Treat the configuration as a flat map of literal dotted keys.
    pub flat: Option<bool>,
}

impl Default for RcOptions {
    fn default() -> (r: Self)
        ensures
            r.name is None,
            r.dir is None,
            r.flat is None,
    {
        RcOptions { name: None, dir: None, flat: None }
    }
}

impl RcOptions {
    /// Build options from a file name, leaving the other fields at their
    /// defaults.
    pub fn name(name: &str) -> (r: Self)
        ensures
            r.name is Some && r.name->0@ == name@,
            r.dir is None,
            r.flat is None,
    {
        RcOptions { name: Some(name.to_owned()), dir: None, flat: None }
    }
}

/// Whether the options ask for flat mode.
pub open spec fn is_flat(options: RcOptions) -> bool {
    options.flat == Some(true)
}

/// Options with every field resolved to a concrete value.
pub struct Resolved {
    pub name: String,
    pub dir: String,
    pub flat: bool,
}

/// Fill missing option fields with their defaults; `cwd` is the directory
/// used when none is given.
pub fn with_defaults(options: &RcOptions, cwd: &str) -> (r: Resolved)
    ensures
        r.name@ == match options.name {
            Some(n) => n@,
            None => DEFAULT_NAME@,
        },
        r.dir@ == match options.dir {
            Some(d) => d@,
            None => cwd@,
        },
        r.flat == is_flat(*options),
{
    let name = match &options.name {
        Some(n) => n.clone(),
        None => DEFAULT_NAME.to_owned(),
    };
    let dir = match &options.dir {
        Some(d) => d.clone(),
        None => cwd.to_owned(),
    };
    let flat = match options.flat {
        Some(f) => f,
        None => false,
    };
    Resolved { name, dir, flat }
}

/// The path of the configured file: `name` resolved against `dir` (default:
/// the working directory `cwd`), normalized.
pub fn config_path(options: &RcOptions, cwd: &str) -> (r: String)
    ensures
        r@ == resolve_spec(
            cwd@,
            match options.dir {
                Some(d) => d@,
                None => cwd@,
            },
            match options.name {
                Some(n) => n@,
                None => DEFAULT_NAME@,
            },
        ),
{
    let resolved = with_defaults(options, cwd);
    resolve(cwd, resolved.dir.as_str(), resolved.name.as_str())
}

// ---------------------------------------------------------------------------
// Parsing.
/// Whether `c` ends a line.
pub open spec fn is_line_sep(c: char) -> bool {
    c == '\n' || c == '\r'
}

/// The lines of a text, split on `\n` and on `\r` (so `\r\n` leaves an empty
/// line between the two).
pub open spec fn split_lines(s: Seq<char>) -> Seq<Seq<char>>
    decreases s.len(),
{
    if s.len() == 0 {
        seq![Seq::empty()]
    } else {
        let r = split_lines(s.drop_last());
        if is_line_sep(s.last()) {
            r.push(Seq::empty())
        } else {
            r.update(r.len() - 1, r.last().push(s.last()))
        }
    }
}

/// The end of the key that starts at `i`: the first whitespace or `=`.
pub open spec fn key_end(s: Seq<char>, i: int) -> int
    decreases s.len() - i,
{
    if 0 <= i < s.len() && !is_js_ws(s[i]) && s[i] != '=' {
        key_end(s, i + 1)
    } else {
        i
    }
}

/// Match a line against `^\s*([^\s=]+)\s*=\s*(.*)$`: the key, and the value
/// with its leading whitespace stripped.
pub open spec fn match_key_val(line: Seq<char>) -> Option<(Seq<char>, Seq<char>)> {
    let a = ws_run(line, 0);
    let e = key_end(line, a);
    let r = ws_run(line, e);
    if e == a || !(r < line.len() && line[r] == '=') {
        None
    } else {
        Some((line.subrange(a, e), line.skip(ws_run(line, r + 1))))
    }
}

/// Whether a value is falsy by JS rules: null, false, zero or the empty
/// string.
pub open spec fn is_falsy(v: JValue) -> bool {
    match v {
        JValue::Null => true,
        JValue::Bool(b) => !b,
        JValue::Number(n) => match n {
            NumView::PosInt(u) => u == 0,
            NumView::NegInt(i) => i == 0,
            NumView::Float(bits, _) => float_whole_magnitude(bits) == Some(0nat),
        },
        JValue::Str(s) => s.len() == 0,
        _ => false,
    }
}

/// A value rendered as JS string concatenation (`String(value)`) renders it:
/// a string as itself, a number as it serializes, `null`, `true` and `false`
/// as words, an array as its elements joined by `,` (a `null` element as
/// nothing), and an object as `[object Object]`.
pub open spec fn js_string(v: JValue) -> Seq<char>
    decreases v, 1int,
{
    match v {
        JValue::Str(s) => s,
        JValue::Number(n) => encode_number(n),
        JValue::Null => seq!['n', 'u', 'l', 'l'],
        JValue::Bool(b) => if b {
            seq!['t', 'r', 'u', 'e']
        } else {
            seq!['f', 'a', 'l', 's', 'e']
        },
        JValue::Array(items) => js_join(items, 0),
        JValue::Object(_) => object_text(),
    }
}

/// The text JS gives an object in string concatenation.
pub open spec fn object_text() -> Seq<char> {
    seq!['[', 'o', 'b', 'j', 'e', 'c', 't', ' ', 'O', 'b', 'j', 'e', 'c', 't', ']']
}

/// The items from index `i` joined by `,` as `Array.prototype.join` joins
/// them: a `null` item renders as nothing, any other as [`js_string`].
pub open spec fn js_join(items: Seq<JValue>, i: int) -> Seq<char>
    decreases items, items.len() - i,
{
    if 0 <= i < items.len() {
        (if i > 0 {
            seq![',']
        } else {
            Seq::empty()
        }) + (if items[i] is Null {
            Seq::empty()
        } else {
            js_string(items[i])
        }) + js_join(items, i + 1)
    } else {
        Seq::empty()
    }
}

/// `Array.concat` onto `base`: an array value spreads, a scalar is appended.
pub open spec fn concat_onto(base: Seq<JValue>, value: JValue) -> JValue {
    match value {
        JValue::Array(items) => JValue::Array(base + items),
        _ => JValue::Array(base.push(value)),
    }
}

/// The array-push rule `(existing || []).concat(value)` for a `[]` key. A
/// missing or falsy existing value starts a fresh array, an array extends, a
/// string appends the pushed value's string form, and any other existing
/// value (which has no `concat`) stays as it is.
pub open spec fn push_concat_spec(existing: Option<JValue>, value: JValue) -> JValue {
    match existing {
        None => concat_onto(Seq::empty(), value),
        Some(cur) => if is_falsy(cur) {
            concat_onto(Seq::empty(), value)
        } else {
            match cur {
                JValue::Array(arr) => concat_onto(arr, value),
                JValue::Str(s) => JValue::Str(s + js_string(value)),
                _ => cur,
            }
        },
    }
}

/// Whether a key ends in `[]`.
pub open spec fn is_push_key(key: Seq<char>) -> bool {
    key.len() >= 2 && key[key.len() - 2] == '[' && key[key.len() - 1] == ']'
}

/// The config after one line: a non-matching line, an empty key, `__proto__`
/// and `constructor` change nothing; a `[]` key pushes onto the stripped key;
/// any other key takes the coerced value (an existing key keeps its place).
pub open spec fn parse_line(config: Obj, line: Seq<char>) -> Obj {
    match match_key_val(line) {
        None => config,
        Some((key, raw)) => if key.len() == 0 || key == lit_proto() || key == lit_constructor() {
            config
        } else {
            let value = destr_spec(trim(raw));
            if is_push_key(key) {
                let nk = key.subrange(0, key.len() - 2);
                obj_insert(config, nk, push_concat_spec(obj_get(config, nk), value))
            } else {
                obj_insert(config, key, value)
            }
        },
    }
}

/// The config after the lines from index `i`.
pub open spec fn parse_lines(config: Obj, lines: Seq<Seq<char>>, i: int) -> Obj
    decreases lines.len() - i,
{
    if 0 <= i < lines.len() {
        parse_lines(parse_line(config, lines[i]), lines, i + 1)
    } else {
        config
    }
}

/// The literal-key map of a config text.
pub open spec fn parse_flat(contents: Seq<char>) -> Obj {
    parse_lines(Seq::empty(), split_lines(contents), 0)
}

/// The value a config text parses to: the literal-key map in flat mode, its
/// unflattened form otherwise.
pub open spec fn parse_spec(contents: Seq<char>, flat: bool) -> JValue {
    if flat {
        JValue::Object(parse_flat(contents))
    } else {
        unflatten_spec(JValue::Object(parse_flat(contents)))
    }
}

fn split_lines_exec(s: &Vec<char>) -> (r: Vec<Vec<char>>)
    ensures
        segs_view(r@) == split_lines(s@),
{
    let mut segs: Vec<Vec<char>> = Vec::new();
    let mut cur: Vec<char> = Vec::new();
    let mut i: usize = 0;
    assert(s@.take(0) =~= Seq::<char>::empty());
    assert(segs_view(segs@).push(cur@) =~= seq![Seq::<char>::empty()]);
    while i < s.len()
        invariant
            0 <= i <= s@.len(),
            segs_view(segs@).push(cur@) == split_lines(s@.take(i as int)),
        decreases s@.len() - i,
    {
        let ghost prev = split_lines(s@.take(i as int));
        assert(s@.take(i as int + 1).drop_last() =~= s@.take(i as int));
        assert(s@.take(i as int + 1).last() == s@[i as int]);
        let c = s[i];
        if c == '\n' || c == '\r' {
            let done = cur;
            segs.push(done);
            cur = Vec::new();
            assert(segs_view(segs@).push(cur@) =~= prev.push(Seq::empty()));
        } else {
            cur.push(c);
            assert(segs_view(segs@).push(cur@) =~= prev.update(
                prev.len() - 1,
                prev.last().push(c),
            ));
        }
        i += 1;
    }
    assert(s@.take(i as int) =~= s@);
    segs.push(cur);
    segs
}

fn key_end_exec(s: &Vec<char>, i: usize) -> (r: usize)
    requires
        i <= s@.len(),
    ensures
        r == key_end(s@, i as int),
        i <= r <= s@.len(),
{
    let mut k = i;
    while k < s.len() && !text::js_whitespace(s[k]) && s[k] != '='
        invariant
            i <= k <= s@.len(),
            key_end(s@, i as int) == key_end(s@, k as int),
        decreases s@.len() - k,
    {
        k += 1;
    }
    k
}

fn match_key_val_exec(line: &Vec<char>) -> (r: Option<(Vec<char>, Vec<char>)>)
    ensures
        match r {
            Some((k, v)) => match_key_val(line@) == Some((k@, v@)),
            None => match_key_val(line@) is None,
        },
{
    let a = skip_ws(line, 0);
    let e = key_end_exec(line, a);
    let r = skip_ws(line, e);
    if e == a || !(r < line.len() && line[r] == '=') {
        return None;
    }
    let vs = skip_ws(line, r + 1);
    let key = slice_chars(line, a, e);
    let value = slice_chars(line, vs, line.len());
    assert(value@ =~= line@.skip(vs as int));
    Some((key, value))
}

fn is_falsy_exec(v: &RcValue) -> (r: bool)
    ensures
        r == is_falsy(v@),
{
    match v {
        RcValue::Null => true,
        RcValue::Bool(b) => !*b,
        RcValue::Number(n) => match n {
            RcNumber::PosInt(u) => *u == 0,
            RcNumber::NegInt(i) => *i == 0,
            RcNumber::Float(f) => match number::whole_magnitude(f.bits) {
                Some(m) => m == 0,
                None => false,
            },
        },
        RcValue::String(s) => s.as_str().unicode_len() == 0,
        _ => false,
    }
}

fn push_js_string(out: &mut Vec<char>, v: &RcValue)
    ensures
        final(out)@ == old(out)@ + js_string(v@),
    decreases v, 1int,
{
    match v {
        RcValue::String(s) => push_str(out, s.as_str()),
        RcValue::Number(n) => push_encoded_number(out, n),
        RcValue::Null => {
            push_str(out, "null");
            proof {
                reveal_strlit("null");
            }
        },
        RcValue::Bool(b) => {
            if *b {
                push_str(out, "true");
                proof {
                    reveal_strlit("true");
                }
            } else {
                push_str(out, "false");
                proof {
                    reveal_strlit("false");
                }
            }
        },
        RcValue::Array(_) => push_js_join(out, v),
        RcValue::Object(_) => {
            push_str(out, "[object Object]");
            proof {
                reveal_strlit("[object Object]");
                assert("[object Object]"@ =~= object_text());
            }
        },
    }
}

#[verifier::loop_isolation(false)]
fn push_js_join(out: &mut Vec<char>, v: &RcValue)
    requires
        v is Array,
    ensures
        final(out)@ == old(out)@ + js_string(v@),
    decreases v, 0int,
{
    if let RcValue::Array(items) = v {
        proof {
            lemma_array_view(*items);
        }
        let ghost iv = items_view(items@);
        let ghost start = out@;
        let mut i: usize = 0;
        while i < items.len()
            invariant
                0 <= i <= items.len(),
                out@ + js_join(iv, i as int) == start + js_join(iv, 0),
            decreases items.len() - i,
        {
            proof {
                vstd::std_specs::vec::axiom_vec_index_decreases(*items, i as int);
                assert(decreases_to!(*v => items[i as int]));
            }
            let ghost before = out@;
            if i > 0 {
                out.push(',');
            }
            match &items[i] {
                RcValue::Null => {},
                x => push_js_string(out, x),
            }
            i += 1;
            assert(before + js_join(iv, i - 1) =~= out@ + js_join(iv, i as int));
        }
        assert(out@ =~= old(out)@ + js_string(v@));
    }
}

fn js_string_exec(v: &RcValue) -> (r: Vec<char>)
    ensures
        r@ == js_string(v@),
{
    let mut out: Vec<char> = Vec::new();
    push_js_string(&mut out, v);
    assert(out@ =~= js_string(v@));
    out
}

fn concat_onto_exec(base: Vec<RcValue>, value: RcValue) -> (r: RcValue)
    ensures
        r@ == concat_onto(items_view(base@), value@),
{
    let mut out = base;
    let ghost b = items_view(out@);
    match value {
        RcValue::Array(items) => {
            proof {
                lemma_array_view(items);
            }
            let ghost iv = items_view(items@);
            let mut i: usize = 0;
            while i < items.len()
                invariant
                    0 <= i <= items@.len(),
                    items_view(out@) == b + iv.take(i as int),
                    iv == items_view(items@),
                decreases items@.len() - i,
            {
                let c = clone_value(&items[i]);
                let ghost before = items_view(out@);
                out.push(c);
                assert(items_view(out@) =~= before.push(c@));
                i += 1;
                assert(items_view(out@) =~= b + iv.take(i as int));
            }
            assert(iv.take(i as int) =~= iv);
            proof {
                lemma_array_view(out);
            }
            RcValue::Array(out)
        },
        other => {
            let ghost ov = other@;
            out.push(other);
            proof {
                lemma_array_view(out);
                assert(items_view(out@) =~= b.push(ov));
            }
            RcValue::Array(out)
        },
    }
}

fn push_concat(existing: Option<&RcValue>, value: RcValue) -> (r: RcValue)
    ensures
        r@ == push_concat_spec(
            match existing {
                Some(e) => Some(e@),
                None => None,
            },
            value@,
        ),
{
    let empty: Vec<RcValue> = Vec::new();
    assert(items_view(empty@) =~= Seq::<JValue>::empty());
    match existing {
        None => concat_onto_exec(empty, value),
        Some(cur) => {
            if is_falsy_exec(cur) {
                return concat_onto_exec(empty, value);
            }
            match cur {
                RcValue::Array(arr) => {
                    let c = clone_value(cur);
                    match c {
                        RcValue::Array(a2) => {
                            proof {
                                lemma_array_view(*arr);
                                lemma_array_view(a2);
                            }
                            concat_onto_exec(a2, value)
                        },
                        _ => {
                            assert(false);
                            clone_value(cur)
                        },
                    }
                },
                RcValue::String(s) => {
                    let mut out = chars_of(s.as_str());
                    let tail = js_string_exec(&value);
                    let mut k: usize = 0;
                    let ghost base = out@;
                    while k < tail.len()
                        invariant
                            0 <= k <= tail@.len(),
                            out@ == base + tail@.take(k as int),
                        decreases tail@.len() - k,
                    {
                        out.push(tail[k]);
                        k += 1;
                        assert(out@ =~= base + tail@.take(k as int));
                    }
                    assert(tail@.take(k as int) =~= tail@);
                    RcValue::String(string_from_chars(out.as_slice()))
                },
                _ => clone_value(cur),
            }
        },
    }
}

fn parse_line_exec(config: &mut Vec<(String, RcValue)>, line: &Vec<char>)
    ensures
        entries_view(final(config)@) == parse_line(entries_view(old(config)@), line@),
{
    let m = match_key_val_exec(line);
    match m {
        None => {},
        Some((key, raw)) => {
            proof {
                reveal_strlit("__proto__");
                reveal_strlit("constructor");
                assert(lit_proto() =~= "__proto__"@);
                assert(lit_constructor() =~= "constructor"@);
            }
            if key.len() == 0 || chars_eq(&key, &literal("__proto__")) || chars_eq(
                &key,
                &literal("constructor"),
            ) {
                return ;
            }
            let t = trim_chars(&raw);
            let value = destr_chars(&t);
            let n = key.len();
            if n >= 2 && key[n - 2] == '[' && key[n - 1] == ']' {
                let nk = slice_chars(&key, 0, n - 2);
                let nks = string_from_chars(nk.as_slice());
                let merged = {
                    let cur = match find_key(config, &nks) {
                        Some(j) => Some(&config[j].1),
                        None => None,
                    };
                    push_concat(cur, value)
                };
                obj_insert_exec(config, nks, merged);
            } else {
                obj_insert_exec(config, string_from_chars(key.as_slice()), value);
            }
        },
    }
}

/// The literal-key map of a config text.
fn parse_flat_exec(contents: &str) -> (r: Vec<(String, RcValue)>)
    ensures
        entries_view(r@) == parse_flat(contents@),
{
    let cs = chars_of(contents);
    let lines = split_lines_exec(&cs);
    let ghost lv = segs_view(lines@);
    let mut config: Vec<(String, RcValue)> = Vec::new();
    assert(entries_view(config@) =~= Seq::<(Seq<char>, JValue)>::empty());
    let mut i: usize = 0;
    while i < lines.len()
        invariant
            0 <= i <= lines@.len(),
            lv == segs_view(lines@),
            parse_lines(entries_view(config@), lv, i as int) == parse_lines(
                Seq::empty(),
                lv,
                0,
            ),
        decreases lines@.len() - i,
    {
        assert(lv[i as int] == lines@[i as int]@);
        parse_line_exec(&mut config, &lines[i]);
        i += 1;
    }
    config
}

/// Parse config text into a value tree.
///
/// Splits on line breaks, extracts `key=value` pairs, coerces values to
/// native types, and either nests dotted keys or keeps them flat. Skips lines
/// that do not match and keys equal to `__proto__`, `constructor` or the
/// empty string. A key ending in `[]` pushes its value onto an array at the
/// stripped key. With `flat` unset or false the result is unflattened into
/// nested objects and arrays.
pub fn parse(contents: &str, options: &RcOptions) -> (r: RcValue)
    ensures
        r@ == parse_spec(contents@, is_flat(*options)),
{
    let config = parse_flat_exec(contents);
    proof {
        lemma_object_view(config);
    }
    let v = RcValue::Object(config);
    let flat = match options.flat {
        Some(f) => f,
        None => false,
    };
    if flat {
        v
    } else {
        unflatten(&v)
    }
}

// ---------------------------------------------------------------------------
// Serializing.
/// The text a leaf value serializes to: numbers as [`encode_number`] prints
/// them, every other value as its JSON text.
pub open spec fn encode_value(v: JValue) -> Seq<char> {
    match v {
        JValue::Number(n) => encode_number(n),
        _ => json_text(v),
    }
}

/// The `key=value` lines of the entries from index `i`, joined by `\n`.
pub open spec fn lines_from(m: Obj, i: int) -> Seq<char>
    decreases m.len() - i,
{
    if 0 <= i < m.len() {
        (if i > 0 {
            seq!['\n']
        } else {
            Seq::empty()
        }) + m[i].0 + seq!['='] + encode_value(m[i].1) + lines_from(m, i + 1)
    } else {
        Seq::empty()
    }
}

/// The rc text of a config value: one `key=value` line per flattened entry,
/// joined by `\n`, with no trailing newline.
pub open spec fn serialize_spec(v: JValue) -> Seq<char> {
    lines_from(flatten_spec(v), 0)
}

/// Serialize a config value into rc-format text.
///
/// Flattens the value into dotted keys, then emits each entry as
/// `key=<json>`. Strings are quoted, numbers and booleans are bare, and
/// `null` writes as `null`. Lines join with `\n` and there is no trailing
/// newline.
pub fn serialize(config: &RcValue) -> (r: String)
    ensures
        r@ == serialize_spec(config@),
{
    let flat = flatten(config);
    let ghost fv = entries_view(flat@);
    let mut out: Vec<char> = Vec::new();
    let mut i: usize = 0;
    while i < flat.len()
        invariant
            0 <= i <= flat@.len(),
            fv == entries_view(flat@),
            out@ + lines_from(fv, i as int) == lines_from(fv, 0),
        decreases flat@.len() - i,
    {
        let ghost before = out@;
        if i > 0 {
            out.push('\n');
        }
        push_str(&mut out, flat[i].0.as_str());
        out.push('=');
        match &flat[i].1 {
            RcValue::Number(n) => push_encoded_number(&mut out, n),
            other => push_json_text(&mut out, other),
        }
        i += 1;
        assert(before + lines_from(fv, i - 1) =~= out@ + lines_from(fv, i as int));
    }
    assert(out@ =~= lines_from(fv, 0));
    string_from_chars(out.as_slice())
}

// ---------------------------------------------------------------------------
// Updating and user directories.
/// The merged config that an update writes: the incoming value (unflattened
/// unless in flat mode) merged over the existing config, incoming first.
pub open spec fn update_spec(config: JValue, existing: JValue, flat: bool) -> JValue {
    let incoming = if flat {
        config
    } else {
        unflatten_spec(config)
    };
    merge_spec(incoming, existing)
}

/// Merge an incoming config over the config already on disk.
///
/// The incoming value wins, arrays concatenate incoming-first, nested objects
/// deep-merge and `null` is skipped. With `flat` unset or false the incoming
/// value is unflattened first, so callers may pass dotted keys.
pub fn update_config(config: &RcValue, existing: &RcValue, options: &RcOptions) -> (r: RcValue)
    ensures
        r@ == update_spec(config@, existing@, is_flat(*options)),
{
    let flat = match options.flat {
        Some(f) => f,
        None => false,
    };
    let incoming = if flat {
        clone_value(config)
    } else {
        unflatten(config)
    };
    defu(&incoming, existing)
}

/// The user-config directory: `$XDG_CONFIG_HOME` when it is set and
/// non-empty, else `~/.config`.
pub fn xdg_config_dir(xdg: Option<String>, home: &str) -> (r: String)
    ensures
        match xdg {
            Some(x) if x@.len() > 0 => r@ == x@,
            _ => r@ == normalize_spec(path_join(home@, seq!['.', 'c', 'o', 'n', 'f', 'i', 'g'])),
        },
{
    match xdg {
        Some(x) => {
            if x.as_str().unicode_len() > 0 {
                return x;
            }
        },
        None => {},
    }
    proof {
        reveal_strlit(".config");
    }
    let r = resolve_from(home, ".config");
    assert(!is_abs(".config"@));
    assert(".config"@ =~= seq!['.', 'c', 'o', 'n', 'f', 'i', 'g']);
    r
}

/// The legacy user-config directory: `$XDG_CONFIG_HOME` when it is set and
/// non-empty, else the home directory.
pub fn legacy_user_dir(xdg: Option<String>, home: &str) -> (r: String)
    ensures
        match xdg {
            Some(x) if x@.len() > 0 => r@ == x@,
            _ => r@ == home@,
        },
{
    match xdg {
        Some(x) => {
            if x.as_str().unicode_len() > 0 {
                return x;
            }
        },
        None => {},
    }
    home.to_owned()
}

/// The options with the directory replaced.
pub fn with_dir(options: &RcOptions, dir: String) -> (r: RcOptions)
    ensures
        r.name == options.name,
        r.dir == Some(dir),
        r.flat == options.flat,
{
    RcOptions { name: options.name.clone(), dir: Some(dir), flat: options.flat }
}

} // verus!
