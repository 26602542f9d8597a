//! Value coercion that turns a raw config string into a native value.
//!
//! Coercion order:
//! 1. A value that opens and closes with `"` and holds no backslash returns the
//!    text between the quotes, without unescaping.
//! 2. The keywords `true`, `false`, `null`, `undefined`, `nan`, `infinity` and
//!    `-infinity` map to their values (case-insensitive, trimmed length 9 or
//!    less). `undefined` and the non-finite keywords read as null.
//! 3. A value that looks like JSON (starts with `"`, `[` or `{`, or has the
//!    number shape) is decoded as JSON, with prototype-polluting keys dropped
//!    and whole doubles normalized to integers. A number that overflows the
//!    double range reads as null; any other decode failure keeps the string.
//! 4. Everything else returns unchanged as a string.
use vstd::prelude::*;
use crate::text::{
    is_js_ws, ws_run, trim, digit_run, skip_ws, skip_digits, trim_chars, chars_eq, chars_of,
    string_from_chars,
};
use crate::value::{
    RcValue, JValue, Obj, obj_get, obj_insert, obj_insert_exec, items_view, entries_view,
    lemma_array_view, lemma_object_view, clone_value, find_key,
};
use crate::number::{normalize_number_spec, normalize_number};
use crate::json::{json_decode, decode_json};

verus! {

// ---------------------------------------------------------------------------
// Literal texts.
pub open spec fn lit_proto() -> Seq<char> {
    seq!['_', '_', 'p', 'r', 'o', 't', 'o', '_', '_']
}

pub open spec fn lit_constructor() -> Seq<char> {
    seq!['c', 'o', 'n', 's', 't', 'r', 'u', 'c', 't', 'o', 'r']
}

pub open spec fn lit_prototype() -> Seq<char> {
    seq!['p', 'r', 'o', 't', 'o', 't', 'y', 'p', 'e']
}

/// The message serde_json gives for a number outside the double range.
pub open spec fn lit_out_of_range() -> Seq<char> {
    seq!['n', 'u', 'm', 'b', 'e', 'r', ' ', 'o', 'u', 't', ' ', 'o', 'f', ' ', 'r', 'a', 'n', 'g', 'e']
}

/// The characters of `s` as a vector.
pub fn literal(s: &str) -> (r: Vec<char>)
    ensures
        r@ == s@,
{
    chars_of(s)
}

// ---------------------------------------------------------------------------
// Keywords.
/// `c` lowercased in the ASCII range.
pub open spec fn ascii_lower(c: char) -> char {
    if 'A' <= c && c <= 'Z' {
        ((c as u32) + 32) as char
    } else {
        c
    }
}

/// `s` lowercased in the ASCII range.
pub open spec fn lower(s: Seq<char>) -> Seq<char> {
    Seq::new(s.len(), |i: int| ascii_lower(s[i]))
}

/// The value of a keyword, matched on the ASCII-lowercased text.
pub open spec fn keyword_value(t: Seq<char>) -> Option<JValue> {
    let l = lower(t);
    if l == seq!['t', 'r', 'u', 'e'] {
        Some(JValue::Bool(true))
    } else if l == seq!['f', 'a', 'l', 's', 'e'] {
        Some(JValue::Bool(false))
    } else if l == seq!['u', 'n', 'd', 'e', 'f', 'i', 'n', 'e', 'd'] || l == seq![
        'n',
        'u',
        'l',
        'l',
    ] || l == seq!['n', 'a', 'n'] || l == seq!['i', 'n', 'f', 'i', 'n', 'i', 't', 'y'] || l
        == seq!['-', 'i', 'n', 'f', 'i', 'n', 'i', 't', 'y'] {
        Some(JValue::Null)
    } else {
        None
    }
}

fn lower_chars(s: &Vec<char>) -> (r: Vec<char>)
    ensures
        r@ == lower(s@),
{
    let mut out: Vec<char> = Vec::new();
    let mut k: usize = 0;
    while k < s.len()
        invariant
            0 <= k <= s@.len(),
            out@ == lower(s@).take(k as int),
        decreases s@.len() - k,
    {
        let c = s[k];
        let l = if 'A' <= c && c <= 'Z' {
            ((c as u8) + 32) as char
        } else {
            c
        };
        out.push(l);
        k += 1;
        assert(out@ =~= lower(s@).take(k as int));
    }
    assert(out@ =~= lower(s@));
    out
}

fn keyword(t: &Vec<char>) -> (r: Option<RcValue>)
    ensures
        match r {
            Some(x) => keyword_value(t@) == Some(x@),
            None => keyword_value(t@) is None,
        },
{
    let l = lower_chars(t);
    proof {
        reveal_strlit("true");
        reveal_strlit("false");
        reveal_strlit("undefined");
        reveal_strlit("null");
        reveal_strlit("nan");
        reveal_strlit("infinity");
        reveal_strlit("-infinity");
    }
    if chars_eq(&l, &literal("true")) {
        assert(l@ =~= seq!['t', 'r', 'u', 'e']);
        return Some(RcValue::Bool(true));
    }
    assert(l@ != seq!['t', 'r', 'u', 'e']) by {
        if l@ == seq!['t', 'r', 'u', 'e'] {
            assert("true"@ =~= l@);
        }
    }
    if chars_eq(&l, &literal("false")) {
        assert(l@ =~= seq!['f', 'a', 'l', 's', 'e']);
        return Some(RcValue::Bool(false));
    }
    assert(l@ != seq!['f', 'a', 'l', 's', 'e']) by {
        if l@ == seq!['f', 'a', 'l', 's', 'e'] {
            assert("false"@ =~= l@);
        }
    }
    if chars_eq(&l, &literal("undefined")) || chars_eq(&l, &literal("null")) || chars_eq(
        &l,
        &literal("nan"),
    ) || chars_eq(&l, &literal("infinity")) || chars_eq(&l, &literal("-infinity")) {
        assert(l@ =~= seq!['u', 'n', 'd', 'e', 'f', 'i', 'n', 'e', 'd'] || l@ =~= seq![
            'n',
            'u',
            'l',
            'l',
        ] || l@ =~= seq!['n', 'a', 'n'] || l@ =~= seq!['i', 'n', 'f', 'i', 'n', 'i', 't', 'y']
            || l@ =~= seq!['-', 'i', 'n', 'f', 'i', 'n', 'i', 't', 'y']);
        return Some(RcValue::Null);
    }
    assert(keyword_value(t@) is None) by {
        if l@ == seq!['u', 'n', 'd', 'e', 'f', 'i', 'n', 'e', 'd'] {
            assert("undefined"@ =~= l@);
        }
        if l@ == seq!['n', 'u', 'l', 'l'] {
            assert("null"@ =~= l@);
        }
        if l@ == seq!['n', 'a', 'n'] {
            assert("nan"@ =~= l@);
        }
        if l@ == seq!['i', 'n', 'f', 'i', 'n', 'i', 't', 'y'] {
            assert("infinity"@ =~= l@);
        }
        if l@ == seq!['-', 'i', 'n', 'f', 'i', 'n', 'i', 't', 'y'] {
            assert("-infinity"@ =~= l@);
        }
    }
    None
}

// ---------------------------------------------------------------------------
// The JSON signature gate.
/// Whether the value starts, after leading whitespace, with `"`, `[` or `{`.
pub open spec fn json_sig_open(v: Seq<char>) -> bool {
    let p = ws_run(v, 0);
    p < v.len() && (v[p] == '"' || v[p] == '[' || v[p] == '{')
}

/// Whether the value has the number shape
/// `^\s*-?\d{1,16}(\.\d{1,17})?([Ee][+-]?\d+)?\s*$`.
pub open spec fn json_sig_number(v: Seq<char>) -> bool {
    let p0 = ws_run(v, 0);
    let p1 = if p0 < v.len() && v[p0] == '-' {
        p0 + 1
    } else {
        p0
    };
    let p2 = digit_run(v, p1);
    if p2 - p1 == 0 || p2 - p1 > 16 {
        false
    } else {
        let frac_ok = !(p2 < v.len() && v[p2] == '.') || (1 <= digit_run(v, p2 + 1) - (p2 + 1)
            <= 17);
        let p3 = if p2 < v.len() && v[p2] == '.' {
            digit_run(v, p2 + 1)
        } else {
            p2
        };
        let has_exp = p3 < v.len() && (v[p3] == 'e' || v[p3] == 'E');
        let b = if has_exp && p3 + 1 < v.len() && (v[p3 + 1] == '+' || v[p3 + 1] == '-') {
            p3 + 2
        } else {
            p3 + 1
        };
        let exp_ok = !has_exp || digit_run(v, b) > b;
        let p4 = if has_exp {
            digit_run(v, b)
        } else {
            p3
        };
        frac_ok && exp_ok && ws_run(v, p4) == v.len()
    }
}

/// Whether the value looks like JSON.
pub open spec fn json_sig(v: Seq<char>) -> bool {
    json_sig_open(v) || json_sig_number(v)
}

fn json_sig_number_exec(v: &Vec<char>) -> (r: bool)
    ensures
        r == json_sig_number(v@),
{
    let p0 = skip_ws(v, 0);
    let p1 = if p0 < v.len() && v[p0] == '-' {
        p0 + 1
    } else {
        p0
    };
    let p2 = skip_digits(v, p1);
    if p2 - p1 == 0 || p2 - p1 > 16 {
        return false;
    }
    let mut p3 = p2;
    if p2 < v.len() && v[p2] == '.' {
        let q = skip_digits(v, p2 + 1);
        if q - (p2 + 1) == 0 || q - (p2 + 1) > 17 {
            return false;
        }
        p3 = q;
    }
    let mut p4 = p3;
    if p3 < v.len() && (v[p3] == 'e' || v[p3] == 'E') {
        let b = if p3 + 1 < v.len() && (v[p3 + 1] == '+' || v[p3 + 1] == '-') {
            p3 + 2
        } else {
            p3 + 1
        };
        let q = skip_digits(v, b);
        if q == b {
            return false;
        }
        p4 = q;
    }
    skip_ws(v, p4) == v.len()
}

fn json_sig_exec(v: &Vec<char>) -> (r: bool)
    ensures
        r == json_sig(v@),
{
    let p = skip_ws(v, 0);
    if p < v.len() && (v[p] == '"' || v[p] == '[' || v[p] == '{') {
        return true;
    }
    json_sig_number_exec(v)
}

// ---------------------------------------------------------------------------
// Prototype-pollution filter and number normalization on decoded JSON.
/// Whether an object entry is dropped by the prototype-pollution filter:
/// `__proto__` always, `constructor` when its value is an object with a
/// `prototype` key.
pub open spec fn dangerous_entry(k: Seq<char>, x: JValue) -> bool {
    k == lit_proto() || (k == lit_constructor() && match x {
        JValue::Object(m) => obj_get(m, lit_prototype()) is Some,
        _ => false,
    })
}

/// Recursively drop the object keys that the filter removes.
pub open spec fn strip_spec(v: JValue) -> JValue
    decreases v, 0int,
{
    match v {
        JValue::Object(es) => JValue::Object(strip_entries(Seq::empty(), es, 0)),
        JValue::Array(items) => JValue::Array(strip_items(items, 0)),
        _ => v,
    }
}

/// Filtered entries of `es` from `i`, inserted into `acc`.
pub open spec fn strip_entries(acc: Obj, es: Obj, i: int) -> Obj
    decreases es, es.len() - i,
{
    if 0 <= i < es.len() {
        let next = if dangerous_entry(es[i].0, es[i].1) {
            acc
        } else {
            obj_insert(acc, es[i].0, strip_spec(es[i].1))
        };
        strip_entries(next, es, i + 1)
    } else {
        acc
    }
}

/// Filtered items of `items` from `i`.
pub open spec fn strip_items(items: Seq<JValue>, i: int) -> Seq<JValue>
    decreases items, items.len() - i,
{
    if 0 <= i < items.len() {
        seq![strip_spec(items[i])] + strip_items(items, i + 1)
    } else {
        Seq::empty()
    }
}

/// Recursively normalize every number in a value.
pub open spec fn normalize_spec(v: JValue) -> JValue
    decreases v, 0int,
{
    match v {
        JValue::Number(n) => JValue::Number(normalize_number_spec(n)),
        JValue::Object(es) => JValue::Object(normalize_entries(Seq::empty(), es, 0)),
        JValue::Array(items) => JValue::Array(normalize_items(items, 0)),
        _ => v,
    }
}

/// Normalized entries of `es` from `i`, inserted into `acc`.
pub open spec fn normalize_entries(acc: Obj, es: Obj, i: int) -> Obj
    decreases es, es.len() - i,
{
    if 0 <= i < es.len() {
        normalize_entries(obj_insert(acc, es[i].0, normalize_spec(es[i].1)), es, i + 1)
    } else {
        acc
    }
}

/// Normalized items of `items` from `i`.
pub open spec fn normalize_items(items: Seq<JValue>, i: int) -> Seq<JValue>
    decreases items, items.len() - i,
{
    if 0 <= i < items.len() {
        seq![normalize_spec(items[i])] + normalize_items(items, i + 1)
    } else {
        Seq::empty()
    }
}

fn has_prototype_key(x: &RcValue) -> (r: bool)
    ensures
        r == match x@ {
            JValue::Object(m) => obj_get(m, lit_prototype()) is Some,
            _ => false,
        },
{
    match x {
        RcValue::Object(m) => {
            proof {
                lemma_object_view(*m);
                reveal_strlit("prototype");
            }
            let k = string_from_chars(literal("prototype").as_slice());
            let r = find_key(m, &k);
            assert(k@ =~= lit_prototype());
            r.is_some()
        },
        _ => false,
    }
}

fn strip_dangerous_keys(v: &RcValue) -> (r: RcValue)
    ensures
        r@ == strip_spec(v@),
    decreases v, 1int,
{
    match v {
        RcValue::Object(_) => strip_object(v),
        RcValue::Array(_) => strip_array(v),
        _ => clone_value(v),
    }
}

#[verifier::loop_isolation(false)]
fn strip_object(v: &RcValue) -> (r: RcValue)
    requires
        v is Object,
    ensures
        r@ == strip_spec(v@),
    decreases v, 0int,
{
    let mut out: Vec<(String, RcValue)> = Vec::new();
    if let RcValue::Object(es) = v {
        proof {
            lemma_object_view(*es);
            reveal_strlit("__proto__");
            reveal_strlit("constructor");
        }
        let ghost ev = entries_view(es@);
        let mut i: usize = 0;
        assert(entries_view(out@) =~= Seq::<(Seq<char>, JValue)>::empty());
        while i < es.len()
            invariant
                0 <= i <= es.len(),
                strip_entries(entries_view(out@), ev, i as int) == strip_entries(
                    Seq::empty(),
                    ev,
                    0,
                ),
            decreases es.len() - i,
        {
            proof {
                vstd::std_specs::vec::axiom_vec_index_decreases(*es, i as int);
                assert(decreases_to!(es[i as int] => es[i as int].1));
                assert(decreases_to!(*v => es[i as int].1));
            }
            let is_proto = crate::value::key_is(&es[i].0, "__proto__");
            let is_ctor = crate::value::key_is(&es[i].0, "constructor");
            let drop = is_proto || (is_ctor && has_prototype_key(&es[i].1));
            proof {
                assert(lit_proto() =~= "__proto__"@);
                assert(lit_constructor() =~= "constructor"@);
                assert(drop == dangerous_entry(ev[i as int].0, ev[i as int].1));
            }
            if !drop {
                let x = strip_dangerous_keys(&es[i].1);
                let k = es[i].0.clone();
                obj_insert_exec(&mut out, k, x);
            }
            i += 1;
        }
        proof {
            lemma_object_view(out);
        }
    }
    RcValue::Object(out)
}

#[verifier::loop_isolation(false)]
fn strip_array(v: &RcValue) -> (r: RcValue)
    requires
        v is Array,
    ensures
        r@ == strip_spec(v@),
    decreases v, 0int,
{
    let mut out: Vec<RcValue> = Vec::new();
    if let RcValue::Array(items) = v {
        proof {
            lemma_array_view(*items);
        }
        let ghost iv = items_view(items@);
        let mut i: usize = 0;
        while i < items.len()
            invariant
                0 <= i <= items.len(),
                items_view(out@) + strip_items(iv, i as int) == strip_items(iv, 0),
            decreases items.len() - i,
        {
            proof {
                vstd::std_specs::vec::axiom_vec_index_decreases(*items, i as int);
                assert(decreases_to!(*v => items[i as int]));
            }
            let x = strip_dangerous_keys(&items[i]);
            let ghost before = items_view(out@);
            out.push(x);
            i += 1;
            assert(items_view(out@) =~= before.push(x@));
            assert(items_view(out@) + strip_items(iv, i as int) =~= before + strip_items(
                iv,
                i - 1,
            ));
        }
        proof {
            lemma_array_view(out);
            assert(items_view(out@) =~= strip_items(iv, 0));
        }
    }
    RcValue::Array(out)
}

fn normalize(v: &RcValue) -> (r: RcValue)
    ensures
        r@ == normalize_spec(v@),
    decreases v, 1int,
{
    match v {
        RcValue::Number(n) => RcValue::Number(normalize_number(crate::value::clone_number(n))),
        RcValue::Object(_) => normalize_object(v),
        RcValue::Array(_) => normalize_array(v),
        _ => clone_value(v),
    }
}

#[verifier::loop_isolation(false)]
fn normalize_object(v: &RcValue) -> (r: RcValue)
    requires
        v is Object,
    ensures
        r@ == normalize_spec(v@),
    decreases v, 0int,
{
    let mut out: Vec<(String, RcValue)> = Vec::new();
    if let RcValue::Object(es) = v {
        proof {
            lemma_object_view(*es);
        }
        let ghost ev = entries_view(es@);
        let mut i: usize = 0;
        assert(entries_view(out@) =~= Seq::<(Seq<char>, JValue)>::empty());
        while i < es.len()
            invariant
                0 <= i <= es.len(),
                normalize_entries(entries_view(out@), ev, i as int) == normalize_entries(
                    Seq::empty(),
                    ev,
                    0,
                ),
            decreases es.len() - i,
        {
            proof {
                vstd::std_specs::vec::axiom_vec_index_decreases(*es, i as int);
                assert(decreases_to!(es[i as int] => es[i as int].1));
                assert(decreases_to!(*v => es[i as int].1));
            }
            let x = normalize(&es[i].1);
            let k = es[i].0.clone();
            obj_insert_exec(&mut out, k, x);
            i += 1;
        }
        proof {
            lemma_object_view(out);
        }
    }
    RcValue::Object(out)
}

#[verifier::loop_isolation(false)]
fn normalize_array(v: &RcValue) -> (r: RcValue)
    requires
        v is Array,
    ensures
        r@ == normalize_spec(v@),
    decreases v, 0int,
{
    let mut out: Vec<RcValue> = Vec::new();
    if let RcValue::Array(items) = v {
        proof {
            lemma_array_view(*items);
        }
        let ghost iv = items_view(items@);
        let mut i: usize = 0;
        while i < items.len()
            invariant
                0 <= i <= items.len(),
                items_view(out@) + normalize_items(iv, i as int) == normalize_items(iv, 0),
            decreases items.len() - i,
        {
            proof {
                vstd::std_specs::vec::axiom_vec_index_decreases(*items, i as int);
                assert(decreases_to!(*v => items[i as int]));
            }
            let x = normalize(&items[i]);
            let ghost before = items_view(out@);
            out.push(x);
            i += 1;
            assert(items_view(out@) =~= before.push(x@));
            assert(items_view(out@) + normalize_items(iv, i as int) =~= before + normalize_items(
                iv,
                i - 1,
            ));
        }
        proof {
            lemma_array_view(out);
            assert(items_view(out@) =~= normalize_items(iv, 0));
        }
    }
    RcValue::Array(out)
}

// ---------------------------------------------------------------------------
// The coercion.
/// Whether the value takes the quoted-string fast path: it opens and closes
/// with `"` and holds no backslash.
pub open spec fn quoted_fast_path(v: Seq<char>) -> bool {
    v.len() >= 1 && v[0] == '"' && v[v.len() - 1] == '"' && !v.contains('\\')
}

/// The text between the quotes (empty for a lone quote).
pub open spec fn quoted_inner(v: Seq<char>) -> Seq<char> {
    if v.len() >= 2 {
        v.subrange(1, v.len() - 1)
    } else {
        Seq::empty()
    }
}

/// Whether `c` is whitespace in JSON text: space, tab, line feed or carriage
/// return.
pub open spec fn is_json_ws(c: char) -> bool {
    c == ' ' || c == '\t' || c == '\n' || c == '\r'
}

/// Whether every whitespace character of `v` is JSON whitespace.
pub open spec fn json_ws_only(v: Seq<char>) -> bool {
    forall|i: int| 0 <= i < v.len() && is_js_ws(#[trigger] v[i]) ==> is_json_ws(v[i])
}

/// The value a JSON-looking text coerces to, given what decoding it gave: a
/// decoded value loses its dangerous keys and has its numbers normalized. A
/// number-shaped text whose only fault is a magnitude beyond the double range
/// (it is otherwise valid JSON: its surrounding whitespace is JSON
/// whitespace) reads as `null`, as an infinity would; any other failure keeps
/// the text as a string.
pub open spec fn decoded_value(v: Seq<char>, decoded: Result<JValue, Seq<char>>) -> JValue {
    match decoded {
        Ok(j) => normalize_spec(strip_spec(j)),
        Err(m) => if json_sig_number(v) && lit_out_of_range().is_prefix_of(m) && json_ws_only(v) {
            JValue::Null
        } else {
            JValue::Str(v)
        },
    }
}

/// The value a raw config string coerces to.
pub open spec fn destr_spec(v: Seq<char>) -> JValue {
    if quoted_fast_path(v) {
        JValue::Str(quoted_inner(v))
    } else if trim(v).len() <= 9 && keyword_value(trim(v)) is Some {
        keyword_value(trim(v))->0
    } else if !json_sig(v) {
        JValue::Str(v)
    } else {
        decoded_value(v, json_decode(v))
    }
}

fn json_ws_only_exec(v: &Vec<char>) -> (r: bool)
    ensures
        r == json_ws_only(v@),
{
    let mut k: usize = 0;
    while k < v.len()
        invariant
            0 <= k <= v@.len(),
            forall|m: int| 0 <= m < k && is_js_ws(#[trigger] v@[m]) ==> is_json_ws(v@[m]),
        decreases v@.len() - k,
    {
        let c = v[k];
        if crate::text::js_whitespace(c) && !(c == ' ' || c == '\t' || c == '\n' || c == '\r') {
            return false;
        }
        k += 1;
    }
    true
}

/// The view of a decoding result.
pub open spec fn decoded_view(d: Result<RcValue, String>) -> Result<JValue, Seq<char>> {
    match d {
        Ok(x) => Ok(x@),
        Err(m) => Err(m@),
    }
}

/// Coerce a JSON-looking text (as characters) from what decoding it gave.
fn coerce_decoded_chars(v: &Vec<char>, decoded: Result<RcValue, String>) -> (r: RcValue)
    ensures
        r@ == decoded_value(v@, decoded_view(decoded)),
{
    match decoded {
        Ok(j) => {
            let s = strip_dangerous_keys(&j);
            normalize(&s)
        },
        Err(m) => {
            let mc = chars_of(m.as_str());
            let lit = literal("number out of range");
            proof {
                reveal_strlit("number out of range");
                assert(lit@ =~= lit_out_of_range());
            }
            if json_sig_number_exec(v) && starts_with(&mc, &lit) && json_ws_only_exec(v) {
                RcValue::Null
            } else {
                RcValue::String(string_from_chars(v.as_slice()))
            }
        },
    }
}

/// Coerce a JSON-looking text from what decoding it gave (the decoded value,
/// or the decoder's error message); see [`decoded_value`].
pub fn coerce_decoded(value: &str, decoded: Result<RcValue, String>) -> (r: RcValue)
    ensures
        r@ == decoded_value(value@, decoded_view(decoded)),
{
    let cs = chars_of(value);
    coerce_decoded_chars(&cs, decoded)
}

fn has_backslash(v: &Vec<char>) -> (r: bool)
    ensures
        r == v@.contains('\\'),
{
    let mut k: usize = 0;
    while k < v.len()
        invariant
            0 <= k <= v@.len(),
            forall|m: int| 0 <= m < k ==> v@[m] != '\\',
        decreases v@.len() - k,
    {
        if v[k] == '\\' {
            return true;
        }
        k += 1;
    }
    false
}

fn starts_with(s: &Vec<char>, prefix: &Vec<char>) -> (r: bool)
    ensures
        r == prefix@.is_prefix_of(s@),
{
    if prefix.len() > s.len() {
        return false;
    }
    let mut k: usize = 0;
    while k < prefix.len()
        invariant
            prefix@.len() <= s@.len(),
            0 <= k <= prefix@.len(),
            forall|m: int| 0 <= m < k ==> prefix@[m] == s@[m],
        decreases prefix@.len() - k,
    {
        if prefix[k] != s[k] {
            return false;
        }
        k += 1;
    }
    true
}

/// Coerce a raw config string (as characters) into a value.
pub fn destr_chars(v: &Vec<char>) -> (r: RcValue)
    ensures
        r@ == destr_spec(v@),
{
    let n = v.len();
    if n >= 1 && v[0] == '"' && v[n - 1] == '"' && !has_backslash(v) {
        let inner = if n >= 2 {
            crate::text::slice_chars(v, 1, n - 1)
        } else {
            Vec::new()
        };
        assert(inner@ =~= quoted_inner(v@));
        return RcValue::String(string_from_chars(inner.as_slice()));
    }
    let t = trim_chars(v);
    if t.len() <= 9 {
        match keyword(&t) {
            Some(x) => return x,
            None => {},
        }
    }
    if !json_sig_exec(v) {
        return RcValue::String(string_from_chars(v.as_slice()));
    }
    let text = string_from_chars(v.as_slice());
    let decoded = decode_json(text.as_str());
    assert(decoded_view(decoded) == json_decode(v@));
    coerce_decoded_chars(v, decoded)
}

/// Coerce a raw config string into a value. Never fails: on any problem the
/// input comes back as a string value.
pub fn destr(value: &str) -> (r: RcValue)
    ensures
        r@ == destr_spec(value@),
{
    let cs = chars_of(value);
    destr_chars(&cs)
}

} // verus!
