//! Reading back what was written: a flattened config unflattens back to
//! itself, a serialized plain config parses back to itself, and serialized
//! text has no trailing line break.
use vstd::prelude::*;
use crate::value::{JValue, NumView, Obj, obj_insert, key_index, keys_unique, lemma_key_index};
use crate::flat::{
    flat_into, flat_child, flat_obj_from, flat_arr_from, join_key, non_empty_container,
    is_container, place_spec, place_all, set_child, child_get, child_is_container,
    fresh_container, lemma_split_by_len, expand_from, flatten_spec, unflatten_spec, split_by,
    digits_value, all_digits, get_key_spec, PathKey, key_text, max_array_index,
};
use crate::destr::{
    lit_proto, lit_constructor, destr_spec, keyword_value, lower, quoted_fast_path, quoted_inner,
    json_sig_number,
};
use crate::{
    encode_value, lines_from, serialize_spec, parse_spec, parse_flat, parse_lines, parse_line,
    match_key_val, key_end, is_push_key, is_line_sep, split_lines,
};
use crate::text::{decimal, digit_char, is_digit, is_js_ws, ws_run, ws_run_back, trim};
use crate::json::{escape_char, escape_str, json_decode};
use crate::number::{float_whole_magnitude, plain_bound, normalize_number_spec};

verus! {

// ---------------------------------------------------------------------------
// Splitting.
proof fn lemma_split_by_concat(a: Seq<char>, b: Seq<char>, sep: char)
    ensures
        split_by(a + seq![sep] + b, sep) == split_by(a, sep) + split_by(b, sep),
    decreases b.len(),
{
    crate::flat::lemma_split_by_len(a, sep);
    if b.len() == 0 {
        assert(a + seq![sep] + b =~= a.push(sep));
        assert((a + seq![sep] + b).drop_last() =~= a);
        assert(split_by(b, sep) =~= seq![Seq::<char>::empty()]);
        assert(split_by(a, sep).push(Seq::empty()) =~= split_by(a, sep) + split_by(b, sep));
    } else {
        let b2 = b.drop_last();
        let c = b.last();
        lemma_split_by_concat(a, b2, sep);
        crate::flat::lemma_split_by_len(b2, sep);
        let whole = a + seq![sep] + b;
        assert(whole.drop_last() =~= a + seq![sep] + b2);
        assert(whole.last() == c);
        let r = split_by(a + seq![sep] + b2, sep);
        let la = split_by(a, sep);
        let lb = split_by(b2, sep);
        assert(r == la + lb);
        if c == sep {
            assert(r.push(Seq::empty()) =~= la + lb.push(Seq::empty()));
        } else {
            assert(r.update(r.len() - 1, r.last().push(c)) =~= la + lb.update(
                lb.len() - 1,
                lb.last().push(c),
            ));
        }
    }
}

proof fn lemma_split_by_single(a: Seq<char>, sep: char)
    requires
        !a.contains(sep),
    ensures
        split_by(a, sep) == seq![a],
    decreases a.len(),
{
    if a.len() == 0 {
        assert(a =~= Seq::<char>::empty());
    } else {
        assert(!a.drop_last().contains(sep)) by {
            if a.drop_last().contains(sep) {
                let j = choose|j: int| 0 <= j < a.drop_last().len() && a.drop_last()[j] == sep;
                assert(a[j] == sep);
            }
        }
        lemma_split_by_single(a.drop_last(), sep);
        assert(a.last() != sep) by {
            assert(a[a.len() - 1] == a.last());
        }
        assert(a.drop_last().push(a.last()) =~= a);
        assert(seq![a.drop_last()].update(0, a.drop_last().push(a.last())) =~= seq![a]);
    }
}

pub(crate) proof fn lemma_split_lines_concat(a: Seq<char>, b: Seq<char>)
    ensures
        split_lines(a + seq!['\n'] + b) == split_lines(a) + split_lines(b),
    decreases b.len(),
{
    lemma_split_lines_len(a);
    if b.len() == 0 {
        assert(a + seq!['\n'] + b =~= a.push('\n'));
        assert((a + seq!['\n'] + b).drop_last() =~= a);
        assert(split_lines(b) =~= seq![Seq::<char>::empty()]);
        assert(split_lines(a).push(Seq::empty()) =~= split_lines(a) + split_lines(b));
    } else {
        let b2 = b.drop_last();
        let c = b.last();
        lemma_split_lines_concat(a, b2);
        lemma_split_lines_len(b2);
        let whole = a + seq!['\n'] + b;
        assert(whole.drop_last() =~= a + seq!['\n'] + b2);
        assert(whole.last() == c);
        let r = split_lines(a + seq!['\n'] + b2);
        let la = split_lines(a);
        let lb = split_lines(b2);
        if crate::is_line_sep(c) {
            assert(r.push(Seq::empty()) =~= la + lb.push(Seq::empty()));
        } else {
            assert(r.update(r.len() - 1, r.last().push(c)) =~= la + lb.update(
                lb.len() - 1,
                lb.last().push(c),
            ));
        }
    }
}

pub(crate) proof fn lemma_split_lines_len(s: Seq<char>)
    ensures
        split_lines(s).len() >= 1,
    decreases s.len(),
{
    if s.len() > 0 {
        lemma_split_lines_len(s.drop_last());
    }
}

pub(crate) proof fn lemma_split_lines_single(a: Seq<char>)
    requires
        forall|i: int| 0 <= i < a.len() ==> !crate::is_line_sep(#[trigger] a[i]),
    ensures
        split_lines(a) == seq![a],
    decreases a.len(),
{
    if a.len() == 0 {
        assert(a =~= Seq::<char>::empty());
    } else {
        lemma_split_lines_single(a.drop_last());
        assert(!crate::is_line_sep(a[a.len() - 1]));
        assert(a.drop_last().push(a.last()) =~= a);
        assert(seq![a.drop_last()].update(0, a.drop_last().push(a.last())) =~= seq![a]);
    }
}

// ---------------------------------------------------------------------------
// Decimal texts.
proof fn lemma_decimal_digits(n: nat)
    ensures
        decimal(n).len() >= 1,
        all_digits(decimal(n)),
        digits_value(decimal(n)) == n,
    decreases n,
{
    lemma_digit_char_value((n % 10) as nat);
    if n >= 10 {
        lemma_decimal_digits(n / 10);
        let d = decimal(n / 10);
        let s = d.push(digit_char(n % 10));
        assert(s.drop_last() =~= d);
        assert(digits_value(s) == digits_value(d) * 10 + (n % 10));
        assert((n / 10) * 10 + n % 10 == n) by (nonlinear_arith);
        assert forall|i: int| 0 <= i < s.len() implies is_digit(#[trigger] s[i]) by {
            if i < d.len() {
                assert(s[i] == d[i]);
            }
        }
    } else {
        let s = seq![digit_char(n)];
        assert(s.drop_last() =~= Seq::<char>::empty());
        assert(digits_value(s) == digits_value(s.drop_last()) * 10 + (s.last() as u32
            - '0' as u32) as nat);
    }
}

proof fn lemma_digit_char_value(d: nat)
    requires
        d < 10,
    ensures
        is_digit(digit_char(d)),
        digit_char(d) as u32 - '0' as u32 == d,
{
}

proof fn lemma_digits_not_ws(s: Seq<char>)
    requires
        all_digits(s),
    ensures
        forall|i: int| 0 <= i < s.len() ==> !is_js_ws(#[trigger] s[i]) && s[i] != '.' && s[i]
            != '=' && !crate::is_line_sep(s[i]),
{
    assert forall|i: int| 0 <= i < s.len() implies !is_js_ws(#[trigger] s[i]) && s[i] != '.'
        && s[i] != '=' && !crate::is_line_sep(s[i]) by {
        assert(is_digit(s[i]));
    }
}

proof fn lemma_decimal_injective(a: nat, b: nat)
    requires
        decimal(a) == decimal(b),
    ensures
        a == b,
{
    lemma_decimal_digits(a);
    lemma_decimal_digits(b);
}

/// Trimming leaves a text alone when it neither starts nor ends with
/// whitespace.
proof fn lemma_trim_noop(s: Seq<char>)
    requires
        s.len() > 0,
        !is_js_ws(s[0]),
        !is_js_ws(s[s.len() - 1]),
    ensures
        trim(s) == s,
{
    assert(ws_run(s, 0) == 0);
    assert(ws_run_back(s, s.len() as int) == s.len());
    assert(s.subrange(0, s.len() as int) =~= s);
}

/// An array position's decimal text denotes that index.
proof fn lemma_index_key(i: nat)
    requires
        i <= max_array_index(),
    ensures
        get_key_spec(decimal(i)) == PathKey::Index(i),
        key_text(get_key_spec(decimal(i))) == decimal(i),
{
    lemma_decimal_digits(i);
    lemma_digits_not_ws(decimal(i));
    let d = decimal(i);
    lemma_trim_noop(d);
    assert(!d.contains('.')) by {
        if d.contains('.') {
            let j = choose|j: int| 0 <= j < d.len() && d[j] == '.';
            assert(is_digit(d[j]));
        }
    }
}

// ---------------------------------------------------------------------------
// String escaping.
/// Whether a character needs no escaping inside a JSON string literal and can
/// sit inside a config line.
pub open spec fn plain_char(c: char) -> bool {
    c != '"' && c != '\\' && (c as u32) >= 0x20
}

proof fn lemma_escape_plain(s: Seq<char>)
    requires
        forall|i: int| 0 <= i < s.len() ==> plain_char(#[trigger] s[i]),
    ensures
        escape_str(s) == s,
    decreases s.len(),
{
    if s.len() > 0 {
        lemma_escape_plain(s.drop_last());
        let c = s.last();
        assert(plain_char(s[s.len() - 1]));
        assert(c != '\u{8}' && c != '\t' && c != '\n' && c != '\u{c}' && c != '\r');
        assert(escape_char(c) == seq![c]);
        assert(s.drop_last().push(c) =~= s);
    }
}

// ---------------------------------------------------------------------------
// The flattened entries as a list.
/// Every key of `l` prefixed with `p.`.
pub open spec fn prefix_all(p: Seq<char>, l: Obj) -> Obj {
    Seq::new(l.len(), |j: int| (p + seq!['.'] + l[j].0, l[j].1))
}

/// Every key of `l` prefixed with `p.` when there is a prefix.
pub open spec fn prefix_opt(prev: Option<Seq<char>>, l: Obj) -> Obj {
    match prev {
        Some(p) => prefix_all(p, l),
        None => l,
    }
}

/// The entries one child contributes under its key `k`.
pub open spec fn flat_group(k: Seq<char>, c: JValue) -> Obj
    decreases c, 2int,
{
    if non_empty_container(c) {
        prefix_all(k, flat_list(c))
    } else {
        seq![(k, c)]
    }
}

/// The leaves of a value, depth first, each keyed by its path segments
/// (object keys, array indices in decimal) joined by `.`.
pub open spec fn flat_list(v: JValue) -> Obj
    decreases v, 1int,
{
    match v {
        JValue::Object(es) => flat_list_entries(es, 0),
        JValue::Array(items) => flat_list_items(items, 0),
        _ => Seq::empty(),
    }
}

pub open spec fn flat_list_entries(es: Obj, i: int) -> Obj
    decreases es, es.len() - i,
{
    if 0 <= i < es.len() {
        flat_group(es[i].0, es[i].1) + flat_list_entries(es, i + 1)
    } else {
        Seq::empty()
    }
}

pub open spec fn flat_list_items(items: Seq<JValue>, i: int) -> Obj
    decreases items, items.len() - i,
{
    if 0 <= i < items.len() {
        flat_group(decimal(i as nat), items[i]) + flat_list_items(items, i + 1)
    } else {
        Seq::empty()
    }
}

/// Insert the entries of `l` into `m`, in order.
pub open spec fn insert_all(m: Obj, l: Obj) -> Obj
    decreases l.len(),
{
    if l.len() == 0 {
        m
    } else {
        insert_all(obj_insert(m, l[0].0, l[0].1), l.drop_first())
    }
}

proof fn lemma_insert_all_concat(m: Obj, a: Obj, b: Obj)
    ensures
        insert_all(m, a + b) == insert_all(insert_all(m, a), b),
    decreases a.len(),
{
    if a.len() == 0 {
        assert(a + b =~= b);
    } else {
        assert((a + b).drop_first() =~= a.drop_first() + b);
        assert((a + b)[0] == a[0]);
        lemma_insert_all_concat(obj_insert(m, a[0].0, a[0].1), a.drop_first(), b);
    }
}

proof fn lemma_insert_all_fresh(m: Obj, l: Obj)
    requires
        keys_unique(m + l),
    ensures
        insert_all(m, l) == m + l,
    decreases l.len(),
{
    if l.len() == 0 {
        assert(m + l =~= m);
    } else {
        lemma_key_index(m, l[0].0);
        assert(key_index(m, l[0].0) == -1) by {
            if key_index(m, l[0].0) != -1 {
                let j = key_index(m, l[0].0);
                assert((m + l)[j].0 == (m + l)[m.len() as int].0);
            }
        }
        let m2 = obj_insert(m, l[0].0, l[0].1);
        assert(m2 =~= m.push(l[0]));
        assert(m2 + l.drop_first() =~= m + l);
        lemma_insert_all_fresh(m2, l.drop_first());
    }
}

proof fn lemma_prefix_concat(prev: Option<Seq<char>>, a: Obj, b: Obj)
    ensures
        prefix_opt(prev, a + b) == prefix_opt(prev, a) + prefix_opt(prev, b),
{
    assert(prefix_opt(prev, a + b) =~= prefix_opt(prev, a) + prefix_opt(prev, b));
}

proof fn lemma_prefix_join(prev: Option<Seq<char>>, k: Seq<char>, l: Obj)
    ensures
        prefix_all(join_key(prev, k), l) == prefix_opt(prev, prefix_all(k, l)),
{
    match prev {
        Some(p) => {
            assert forall|j: int| 0 <= j < l.len() implies (p + seq!['.'] + k) + seq!['.']
                + l[j].0 == p + seq!['.'] + (k + seq!['.'] + l[j].0) by {
                assert((p + seq!['.'] + k) + seq!['.'] + l[j].0 =~= p + seq!['.'] + (k + seq![
                    '.',
                ] + l[j].0));
            }
            assert(prefix_all(join_key(prev, k), l) =~= prefix_opt(prev, prefix_all(k, l)));
        },
        None => {},
    }
}

/// Flattening inserts the listed leaves, prefixed, in order.
proof fn lemma_flat_into_list(m: Obj, v: JValue, prev: Option<Seq<char>>)
    ensures
        flat_into(m, v, prev) == insert_all(m, prefix_opt(prev, flat_list(v))),
    decreases v, 1int,
{
    match v {
        JValue::Object(es) => lemma_flat_obj_list(m, es, prev, 0),
        JValue::Array(items) => lemma_flat_arr_list(m, items, prev, 0),
        _ => {
            assert(prefix_opt(prev, Seq::<(Seq<char>, JValue)>::empty()).len() == 0);
        },
    }
}

proof fn lemma_flat_child_list(m: Obj, prev: Option<Seq<char>>, k: Seq<char>, c: JValue)
    ensures
        flat_child(m, join_key(prev, k), c) == insert_all(m, prefix_opt(prev, flat_group(k, c))),
    decreases c, 2int,
{
    if non_empty_container(c) {
        lemma_flat_into_list(m, c, Some(join_key(prev, k)));
        lemma_prefix_join(prev, k, flat_list(c));
    } else {
        let l = prefix_opt(prev, flat_group(k, c));
        assert(l =~= seq![(join_key(prev, k), c)]);
        let m2 = obj_insert(m, join_key(prev, k), c);
        assert(insert_all(m2, l.drop_first()) == m2);
        assert(insert_all(m, l) == insert_all(m2, l.drop_first()));
    }
}

proof fn lemma_flat_obj_list(m: Obj, es: Obj, prev: Option<Seq<char>>, i: int)
    ensures
        flat_obj_from(m, es, prev, i) == insert_all(m, prefix_opt(prev, flat_list_entries(es, i))),
    decreases es, es.len() - i,
{
    if 0 <= i < es.len() {
        let m2 = flat_child(m, join_key(prev, es[i].0), es[i].1);
        lemma_flat_child_list(m, prev, es[i].0, es[i].1);
        lemma_flat_obj_list(m2, es, prev, i + 1);
        let g = flat_group(es[i].0, es[i].1);
        let r = flat_list_entries(es, i + 1);
        lemma_prefix_concat(prev, g, r);
        lemma_insert_all_concat(m, prefix_opt(prev, g), prefix_opt(prev, r));
    } else {
        assert(prefix_opt(prev, Seq::<(Seq<char>, JValue)>::empty()).len() == 0);
    }
}

proof fn lemma_flat_arr_list(m: Obj, items: Seq<JValue>, prev: Option<Seq<char>>, i: int)
    ensures
        flat_arr_from(m, items, prev, i) == insert_all(
            m,
            prefix_opt(prev, flat_list_items(items, i)),
        ),
    decreases items, items.len() - i,
{
    if 0 <= i < items.len() {
        let k = decimal(i as nat);
        let m2 = flat_child(m, join_key(prev, k), items[i]);
        lemma_flat_child_list(m, prev, k, items[i]);
        lemma_flat_arr_list(m2, items, prev, i + 1);
        let g = flat_group(k, items[i]);
        let r = flat_list_items(items, i + 1);
        lemma_prefix_concat(prev, g, r);
        lemma_insert_all_concat(m, prefix_opt(prev, g), prefix_opt(prev, r));
    } else {
        assert(prefix_opt(prev, Seq::<(Seq<char>, JValue)>::empty()).len() == 0);
    }
}

// ---------------------------------------------------------------------------
// Plain configs.
/// A character that may stand in a key segment of a config line.
pub open spec fn key_char(c: char) -> bool {
    !is_js_ws(c) && c != '=' && c != '.'
}

/// A path segment that a dotted key splits back out: non-empty, free of `.`,
/// and not `__proto__` (where placing stops).
pub open spec fn path_seg(k: Seq<char>) -> bool {
    k.len() > 0 && !k.contains('.') && k != lit_proto()
}

/// A key segment that a written line carries and a read splits back out: a
/// path segment made of key characters and not ending in `[]`.
pub open spec fn seg_ok(k: Seq<char>) -> bool {
    &&& k.len() > 0
    &&& forall|i: int| 0 <= i < k.len() ==> key_char(#[trigger] k[i])
    &&& !is_push_key(k)
    &&& k != lit_proto()
}

/// The segment condition for texts (`strict`) or for dotted maps.
pub open spec fn seg_for(k: Seq<char>, strict: bool) -> bool {
    if strict {
        seg_ok(k)
    } else {
        path_seg(k)
    }
}

/// A key of a nested object that survives: a segment that reads as a name,
/// not as an array index.
pub open spec fn name_for(k: Seq<char>, strict: bool) -> bool {
    seg_for(k, strict) && get_key_spec(k) is Name
}

/// Whether every character of a string is plain.
pub open spec fn plain_str(s: Seq<char>) -> bool {
    forall|i: int| 0 <= i < s.len() ==> plain_char(#[trigger] s[i])
}

/// A leaf that reads back as itself from its written text:
/// - `null` and the booleans;
/// - a string of plain characters (it takes the quoted fast path);
/// - any other string, a non-negative or negative integer of at most 16
///   digits, and a double that is not whole and whose stored text has the
///   number shape and no whitespace, provided the JSON decoder reads the
///   written text back as the leaf.
pub open spec fn plain_leaf(v: JValue) -> bool {
    match v {
        JValue::Null => true,
        JValue::Bool(_) => true,
        JValue::Str(s) => plain_str(s) || json_decode(encode_value(v)) == Ok::<JValue, Seq<char>>(v),
        JValue::Number(n) => json_decode(encode_value(v)) == Ok::<JValue, Seq<char>>(v) && match n {
            NumView::PosInt(u) => decimal(u as nat).len() <= 16,
            NumView::NegInt(i) => i < 0 && decimal((0 - i) as nat).len() <= 16,
            NumView::Float(bits, text) => float_whole_magnitude(bits) is None && json_sig_number(
                text,
            ) && text.len() > 0 && forall|k: int| 0 <= k < text.len() ==> !is_js_ws(#[trigger] text[k]),
        },
        _ => false,
    }
}

/// A leaf of a flattened map: anything but a non-empty container; from text,
/// a plain leaf.
pub open spec fn leaf_for(v: JValue, strict: bool) -> bool {
    !non_empty_container(v) && (strict ==> plain_leaf(v))
}

/// A value that survives flattening and unflattening (and, when `strict`,
/// writing and reading): a leaf, or a non-empty object or array of such
/// values; an object has distinct keys that read as names, an array holds at
/// most one more item than the largest index a path may create.
pub open spec fn tree_value(v: JValue, strict: bool) -> bool
    decreases v, 1int,
{
    match v {
        JValue::Object(es) => if es.len() > 0 {
            keys_unique(es) && tree_entries(es, 0, strict)
        } else {
            leaf_for(v, strict)
        },
        JValue::Array(items) => if items.len() > 0 {
            items.len() <= max_array_index() + 1 && tree_items(items, 0, strict)
        } else {
            leaf_for(v, strict)
        },
        _ => leaf_for(v, strict),
    }
}

pub open spec fn tree_entries(es: Obj, i: int, strict: bool) -> bool
    decreases es, es.len() - i,
{
    if 0 <= i < es.len() {
        name_for(es[i].0, strict) && tree_value(es[i].1, strict) && tree_entries(es, i + 1, strict)
    } else {
        true
    }
}

pub open spec fn tree_items(items: Seq<JValue>, i: int, strict: bool) -> bool
    decreases items, items.len() - i,
{
    if 0 <= i < items.len() {
        tree_value(items[i], strict) && tree_items(items, i + 1, strict)
    } else {
        true
    }
}

/// A top-level entry that survives: a segment that reads back as itself (a
/// name, or an index in its decimal form) over a surviving value; from text,
/// a `constructor` key only over a non-empty container.
pub open spec fn top_entry_for(k: Seq<char>, c: JValue, strict: bool) -> bool {
    &&& seg_for(k, strict)
    &&& key_text(get_key_spec(k)) == k
    &&& tree_value(c, strict)
    &&& (strict ==> k != lit_constructor() || non_empty_container(c))
}

/// A config object, possibly empty, of distinct keys whose entries survive a
/// write and a read.
pub open spec fn plain_config(v: JValue) -> bool {
    match v {
        JValue::Object(es) => keys_unique(es) && forall|t: int|
            0 <= t < es.len() ==> #[trigger] top_entry_for(es[t].0, es[t].1, true),
        _ => false,
    }
}

/// A config object, possibly empty, of distinct keys whose entries survive
/// flattening and unflattening.
pub open spec fn tree_config(v: JValue) -> bool {
    match v {
        JValue::Object(es) => keys_unique(es) && forall|t: int|
            0 <= t < es.len() ==> #[trigger] top_entry_for(es[t].0, es[t].1, false),
        _ => false,
    }
}

proof fn lemma_tree_entries_all(es: Obj, i: int, strict: bool)
    requires
        tree_entries(es, i, strict),
        0 <= i,
    ensures
        forall|t: int|
            i <= t < es.len() ==> name_for(#[trigger] es[t].0, strict) && tree_value(
                es[t].1,
                strict,
            ),
    decreases es.len() - i,
{
    if i < es.len() {
        lemma_tree_entries_all(es, i + 1, strict);
    }
}

// ---------------------------------------------------------------------------
// Placing listed entries.
/// Place the entries of `l` into `root`, in order.
pub open spec fn place_seq(root: JValue, l: Obj) -> JValue
    decreases l.len(),
{
    if l.len() == 0 {
        root
    } else {
        place_seq(place_spec(root, split_by(l[0].0, '.'), l[0].1), l.drop_first())
    }
}

proof fn lemma_place_all_seq(root: JValue, ex: Obj, i: int)
    requires
        0 <= i <= ex.len(),
    ensures
        place_all(root, ex, i) == place_seq(root, ex.skip(i)),
    decreases ex.len() - i,
{
    if i < ex.len() {
        assert(ex.skip(i).drop_first() =~= ex.skip(i + 1));
        assert(ex.skip(i)[0] == ex[i]);
        lemma_place_all_seq(place_spec(root, split_by(ex[i].0, '.'), ex[i].1), ex, i + 1);
    } else {
        assert(ex.skip(i).len() == 0);
    }
}

proof fn lemma_place_seq_concat(root: JValue, a: Obj, b: Obj)
    ensures
        place_seq(root, a + b) == place_seq(place_seq(root, a), b),
    decreases a.len(),
{
    if a.len() == 0 {
        assert(a + b =~= b);
    } else {
        assert((a + b).drop_first() =~= a.drop_first() + b);
        assert((a + b)[0] == a[0]);
        lemma_place_seq_concat(place_spec(root, split_by(a[0].0, '.'), a[0].1), a.drop_first(), b);
    }
}

/// Whether `key` names a slot of `root` that a set can fill: any key of an
/// object, or an array index at most one past the end.
pub open spec fn slot_ok(root: JValue, key: PathKey) -> bool {
    match root {
        JValue::Object(_) => true,
        JValue::Array(items) => match key {
            PathKey::Index(n) => n <= items.len(),
            PathKey::Name(_) => false,
        },
        _ => false,
    }
}

proof fn lemma_insert_insert(m: Obj, k: Seq<char>, a: JValue, b: JValue)
    ensures
        obj_insert(obj_insert(m, k, a), k, b) == obj_insert(m, k, b),
{
    lemma_key_index(m, k);
    let m1 = obj_insert(m, k, a);
    lemma_key_index(m1, k);
    let j = key_index(m, k);
    let j1 = key_index(m1, k);
    if j >= 0 {
        assert(m1[j].0 == k);
        if j1 != j {
            if j1 >= 0 && j1 < j {
                assert(m1[j1] == m[j1]);
            }
        }
        assert(j1 == j);
        assert(m1.update(j, (k, b)) =~= m.update(j, (k, b)));
    } else {
        assert(m1[m.len() as int].0 == k);
        if j1 != m.len() {
            if j1 >= 0 && j1 < m.len() {
                assert(m1[j1] == m[j1]);
            }
        }
        assert(j1 == m.len());
        assert(m1.update(j1, (k, b)) =~= m.push((k, b)));
    }
}

proof fn lemma_set_get(root: JValue, key: PathKey, c: JValue)
    requires
        slot_ok(root, key),
    ensures
        child_get(set_child(root, key, c), key) == Some(c),
        slot_ok(set_child(root, key, c), key),
{
    match root {
        JValue::Object(m) => {
            crate::laws::lemma_get_after_insert(m, crate::flat::key_text(key), c, crate::flat::key_text(key));
        },
        JValue::Array(items) => {
            match key {
                PathKey::Index(n) => {
                    if n < items.len() {
                    } else {
                        let pad = Seq::new((n - items.len()) as nat, |j: int| JValue::Null);
                        assert(pad.len() == 0);
                        assert((items + pad).push(c)[n as int] == c);
                    }
                },
                PathKey::Name(_) => {},
            }
        },
        _ => {},
    }
}

proof fn lemma_set_set(root: JValue, key: PathKey, c: JValue, x: JValue)
    requires
        slot_ok(root, key),
    ensures
        set_child(set_child(root, key, c), key, x) == set_child(root, key, x),
{
    match root {
        JValue::Object(m) => {
            lemma_insert_insert(m, crate::flat::key_text(key), c, x);
        },
        JValue::Array(items) => {
            match key {
                PathKey::Index(n) => {
                    if n < items.len() {
                        assert(items.update(n as int, c).update(n as int, x) =~= items.update(
                            n as int,
                            x,
                        ));
                    } else {
                        let pad = Seq::new((n - items.len()) as nat, |j: int| JValue::Null);
                        assert(pad.len() == 0);
                        assert((items + pad).push(c).update(n as int, x) =~= (items + pad).push(
                            x,
                        ));
                    }
                },
                PathKey::Name(_) => {},
            }
        },
        _ => {},
    }
}

proof fn lemma_place_kind(cur: JValue, segs: Seq<Seq<char>>, leaf: JValue)
    requires
        is_container(cur),
    ensures
        place_spec(cur, segs, leaf) is Object <==> cur is Object,
        place_spec(cur, segs, leaf) is Array <==> cur is Array,
{
}

/// Placing prefixed entries into the container at one slot is placing the
/// unprefixed entries into that container.
proof fn lemma_place_under(root: JValue, kseg: Seq<char>, c: JValue, l: Obj)
    requires
        slot_ok(root, get_key_spec(kseg)),
        is_container(c),
        split_by(kseg, '.') == seq![kseg],
        kseg != lit_proto(),
    ensures
        place_seq(set_child(root, get_key_spec(kseg), c), prefix_all(kseg, l)) == set_child(
            root,
            get_key_spec(kseg),
            place_seq(c, l),
        ),
    decreases l.len(),
{
    let key = get_key_spec(kseg);
    if l.len() > 0 {
        let r = set_child(root, key, c);
        let rest = split_by(l[0].0, '.');
        lemma_split_by_concat(kseg, l[0].0, '.');
        lemma_split_by_len(l[0].0, '.');
        let segs = split_by(kseg + seq!['.'] + l[0].0, '.');
        assert(segs == seq![kseg] + rest);
        assert(segs[0] == kseg);
        assert(segs.drop_first() =~= rest);
        lemma_set_get(root, key, c);
        let c2 = place_spec(c, rest, l[0].1);
        assert(child_is_container(r, key));
        assert(place_spec(r, segs, l[0].1) == set_child(r, key, c2));
        lemma_set_set(root, key, c, c2);
        lemma_place_kind(c, rest, l[0].1);
        assert(prefix_all(kseg, l).drop_first() =~= prefix_all(kseg, l.drop_first()));
        assert(prefix_all(kseg, l)[0] == (kseg + seq!['.'] + l[0].0, l[0].1));
        lemma_place_under(root, kseg, c2, l.drop_first());
    } else {
        assert(prefix_all(kseg, l).len() == 0);
    }
}

// ---------------------------------------------------------------------------
// What the listed entries look like.
/// The first dotted segment of a key.
pub open spec fn first_seg(k: Seq<char>) -> Seq<char> {
    split_by(k, '.')[0]
}

/// A key that a config line can carry: non-empty, free of whitespace and
/// `=`, and not ending in `[]`.
pub open spec fn inner_key(k: Seq<char>) -> bool {
    &&& k.len() > 0
    &&& forall|i: int| 0 <= i < k.len() ==> !is_js_ws(#[trigger] k[i]) && k[i] != '='
    &&& !is_push_key(k)
}

/// A key that a config line carries and reads back unchanged.
pub open spec fn line_key(k: Seq<char>) -> bool {
    inner_key(k) && k != lit_proto() && k != lit_constructor()
}

/// A fresh container of the same kind as `c`.
pub open spec fn fresh_of(c: JValue) -> JValue {
    fresh_container(c is Array)
}

proof fn lemma_lits()
    ensures
        forall|j: int| 0 <= j < lit_proto().len() ==> #[trigger] lit_proto()[j] != '.',
        forall|j: int| 0 <= j < lit_constructor().len() ==> #[trigger] lit_constructor()[j] != '.',
        lit_proto().len() == 9,
        lit_constructor().len() == 11,
        lit_proto()[0] == '_',
        lit_constructor()[0] == 'c',
{
    let p = lit_proto();
    assert(p[0] == '_' && p[1] == '_' && p[2] == 'p' && p[3] == 'r' && p[4] == 'o' && p[5]
        == 't' && p[6] == 'o' && p[7] == '_' && p[8] == '_');
    let c = lit_constructor();
    assert(c[0] == 'c' && c[1] == 'o' && c[2] == 'n' && c[3] == 's' && c[4] == 't' && c[5]
        == 'r' && c[6] == 'u' && c[7] == 'c' && c[8] == 't' && c[9] == 'o' && c[10] == 'r');
}

/// The last characters of `__proto__` and `constructor`.
pub(crate) proof fn lemma_lits_pub()
    ensures
        lit_proto().len() == 9,
        lit_constructor().len() == 11,
        lit_proto()[8] == '_',
        lit_constructor()[10] == 'r',
{
    lemma_lits();
}

proof fn lemma_path_single(k: Seq<char>)
    requires
        path_seg(k),
    ensures
        split_by(k, '.') == seq![k],
        first_seg(k) == k,
{
    lemma_split_by_single(k, '.');
}

proof fn lemma_seg_for(k: Seq<char>, strict: bool)
    requires
        seg_for(k, strict),
    ensures
        path_seg(k),
        strict ==> inner_key(k),
{
    if strict {
        assert(!k.contains('.')) by {
            if k.contains('.') {
                let j = choose|j: int| 0 <= j < k.len() && k[j] == '.';
                assert(key_char(k[j]));
            }
        }
        assert forall|i: int| 0 <= i < k.len() implies !is_js_ws(#[trigger] k[i]) && k[i] != '='
            by {
            assert(key_char(k[i]));
        }
    }
}

proof fn lemma_name_for(k: Seq<char>, strict: bool)
    requires
        name_for(k, strict),
    ensures
        seg_for(k, strict),
        get_key_spec(k) == PathKey::Name(k),
{
}

proof fn lemma_index_seg(i: nat)
    ensures
        seg_ok(decimal(i)),
        seg_for(decimal(i), true),
        seg_for(decimal(i), false),
{
    lemma_decimal_digits(i);
    lemma_digits_not_ws(decimal(i));
    lemma_lits();
    let d = decimal(i);
    assert(is_digit(d[0]));
    assert(is_digit(d[d.len() - 1]));
    assert(!is_push_key(d));
    lemma_seg_for(d, true);
}

proof fn lemma_prefixed_first(k: Seq<char>, x: Seq<char>)
    requires
        path_seg(k),
    ensures
        first_seg(k + seq!['.'] + x) == k,
{
    lemma_path_single(k);
    lemma_split_by_concat(k, x, '.');
    lemma_split_by_len(x, '.');
}

proof fn lemma_prefixed_key(k: Seq<char>, x: Seq<char>)
    requires
        seg_ok(k),
        inner_key(x),
    ensures
        line_key(k + seq!['.'] + x),
{
    let r = k + seq!['.'] + x;
    assert(r[k.len() as int] == '.');
    assert forall|i: int| 0 <= i < r.len() implies !is_js_ws(#[trigger] r[i]) && r[i] != '=' by {
        if i < k.len() {
            assert(r[i] == k[i]);
            assert(key_char(k[i]));
        } else if i > k.len() {
            assert(r[i] == x[i - k.len() - 1]);
        }
    }
    assert(r[r.len() - 1] == x[x.len() - 1]);
    assert(!is_push_key(r)) by {
        if x.len() >= 2 {
            assert(r[r.len() - 2] == x[x.len() - 2]);
        } else {
            assert(r[r.len() - 2] == '.');
        }
    }
    lemma_lits();
    assert(r != lit_proto()) by {
        if r == lit_proto() {
            assert(lit_proto()[k.len() as int] == '.');
        }
    }
    assert(r != lit_constructor()) by {
        if r == lit_constructor() {
            assert(lit_constructor()[k.len() as int] == '.');
        }
    }
}

proof fn lemma_prefix_unique(k: Seq<char>, l: Obj)
    requires
        keys_unique(l),
    ensures
        keys_unique(prefix_all(k, l)),
{
    let p = prefix_all(k, l);
    assert forall|a: int, b: int| 0 <= a < b < p.len() implies p[a].0 != p[b].0 by {
        if p[a].0 == p[b].0 {
            assert(p[a].0.skip(k.len() + 1int) =~= l[a].0);
            assert(p[b].0.skip(k.len() + 1int) =~= l[b].0);
        }
    }
}

/// The entries one surviving child contributes: distinct keys that all start
/// with the child's segment, and leaves; from text, a container's keys are
/// line keys; a leaf is its one entry.
proof fn lemma_group_props(k: Seq<char>, c: JValue, strict: bool)
    requires
        seg_for(k, strict),
        tree_value(c, strict),
    ensures
        flat_group(k, c).len() > 0,
        keys_unique(flat_group(k, c)),
        forall|j: int|
            0 <= j < flat_group(k, c).len() ==> leaf_for(#[trigger] flat_group(k, c)[j].1, strict),
        forall|j: int|
            0 <= j < flat_group(k, c).len() ==> first_seg(#[trigger] flat_group(k, c)[j].0) == k,
        strict ==> forall|j: int|
            0 <= j < flat_group(k, c).len() ==> inner_key(#[trigger] flat_group(k, c)[j].0),
        strict && non_empty_container(c) ==> forall|j: int|
            0 <= j < flat_group(k, c).len() ==> line_key(#[trigger] flat_group(k, c)[j].0),
        !non_empty_container(c) ==> flat_group(k, c) == seq![(k, c)],
    decreases c, 2int,
{
    let g = flat_group(k, c);
    lemma_seg_for(k, strict);
    if non_empty_container(c) {
        lemma_list_props(c, strict);
        let l = flat_list(c);
        lemma_prefix_unique(k, l);
        assert forall|j: int| 0 <= j < g.len() implies leaf_for(#[trigger] g[j].1, strict) by {
            assert(g[j] == (k + seq!['.'] + l[j].0, l[j].1));
        }
        assert forall|j: int| 0 <= j < g.len() implies first_seg(#[trigger] g[j].0) == k by {
            assert(g[j] == (k + seq!['.'] + l[j].0, l[j].1));
            lemma_prefixed_first(k, l[j].0);
        }
        if strict {
            assert forall|j: int| 0 <= j < g.len() implies line_key(#[trigger] g[j].0) by {
                assert(g[j] == (k + seq!['.'] + l[j].0, l[j].1));
                lemma_prefixed_key(k, l[j].0);
            }
            assert forall|j: int| 0 <= j < g.len() implies inner_key(#[trigger] g[j].0) by {
                assert(line_key(g[j].0));
            }
        }
    } else {
        lemma_path_single(k);
        lemma_tree_leaf(c, strict);
        assert(g =~= seq![(k, c)]);
        assert forall|j: int| 0 <= j < g.len() implies leaf_for(#[trigger] g[j].1, strict) by {
            assert(j == 0);
        }
        assert forall|j: int| 0 <= j < g.len() implies first_seg(#[trigger] g[j].0) == k by {
            assert(j == 0);
        }
        if strict {
            assert forall|j: int| 0 <= j < g.len() implies inner_key(#[trigger] g[j].0) by {
                assert(j == 0);
            }
        }
    }
}

proof fn lemma_tree_leaf(c: JValue, strict: bool)
    requires
        tree_value(c, strict),
        !non_empty_container(c),
    ensures
        leaf_for(c, strict),
{
    match c {
        JValue::Object(es) => {
            assert(es.len() == 0);
        },
        JValue::Array(items) => {
            assert(items.len() == 0);
        },
        _ => {},
    }
}

/// The entries of a surviving container: at least one, distinct keys, leaves
/// (from text, under keys that a line can carry), and a first segment that
/// reads as an index exactly for an array.
proof fn lemma_list_props(c: JValue, strict: bool)
    requires
        tree_value(c, strict),
        non_empty_container(c),
    ensures
        flat_list(c).len() > 0,
        keys_unique(flat_list(c)),
        forall|j: int| 0 <= j < flat_list(c).len() ==> leaf_for(#[trigger] flat_list(c)[j].1, strict),
        strict ==> forall|j: int|
            0 <= j < flat_list(c).len() ==> inner_key(#[trigger] flat_list(c)[j].0),
        (get_key_spec(first_seg(flat_list(c)[0].0)) is Index) == (c is Array),
    decreases c, 1int,
{
    match c {
        JValue::Object(es) => {
            lemma_tree_entries_all(es, 0, strict);
            lemma_entries_props(es, 0, strict);
            lemma_name_for(es[0].0, strict);
        },
        JValue::Array(items) => {
            lemma_items_props(items, 0, strict);
            lemma_index_key(0);
        },
        _ => {},
    }
}

proof fn lemma_entries_props(es: Obj, i: int, strict: bool)
    requires
        keys_unique(es),
        forall|t: int|
            i <= t < es.len() ==> seg_for(#[trigger] es[t].0, strict) && tree_value(
                es[t].1,
                strict,
            ),
        0 <= i,
    ensures
        keys_unique(flat_list_entries(es, i)),
        forall|j: int|
            0 <= j < flat_list_entries(es, i).len() ==> leaf_for(
                #[trigger] flat_list_entries(es, i)[j].1,
                strict,
            ),
        strict ==> forall|j: int|
            0 <= j < flat_list_entries(es, i).len() ==> inner_key(
                #[trigger] flat_list_entries(es, i)[j].0,
            ),
        strict ==> forall|j: int|
            0 <= j < flat_list_entries(es, i).len() ==> line_key(
                #[trigger] flat_list_entries(es, i)[j].0,
            ) || exists|t: int|
                i <= t < es.len() && flat_list_entries(es, i)[j] == #[trigger] es[t]
                    && !non_empty_container(es[t].1),
        forall|j: int|
            0 <= j < flat_list_entries(es, i).len() ==> exists|t: int|
                i <= t < es.len() && first_seg(#[trigger] flat_list_entries(es, i)[j].0)
                    == #[trigger] es[t].0,
        i < es.len() ==> flat_list_entries(es, i).len() > 0 && first_seg(
            flat_list_entries(es, i)[0].0,
        ) == es[i].0,
    decreases es, es.len() - i,
{
    if i < es.len() {
        let k = es[i].0;
        assert(seg_for(es[i].0, strict));
        lemma_group_props(k, es[i].1, strict);
        lemma_entries_props(es, i + 1, strict);
        let g = flat_group(k, es[i].1);
        let r = flat_list_entries(es, i + 1);
        let l = flat_list_entries(es, i);
        assert(l == g + r);
        assert forall|j: int| 0 <= j < l.len() implies leaf_for(#[trigger] l[j].1, strict) by {
            if j < g.len() {
                assert(l[j] == g[j]);
            } else {
                assert(l[j] == r[j - g.len()]);
            }
        }
        if strict {
            assert forall|j: int| 0 <= j < l.len() implies inner_key(#[trigger] l[j].0) by {
                if j < g.len() {
                    assert(l[j] == g[j]);
                } else {
                    assert(l[j] == r[j - g.len()]);
                }
            }
        }
        assert forall|j: int| 0 <= j < l.len() implies exists|t: int|
            i <= t < es.len() && first_seg(#[trigger] l[j].0) == #[trigger] es[t].0 by {
            if j < g.len() {
                assert(l[j] == g[j]);
                assert(first_seg(g[j].0) == es[i].0);
            } else {
                assert(l[j] == r[j - g.len()]);
                let t = choose|t: int| i + 1 <= t < es.len() && first_seg(r[j - g.len()].0)
                    == #[trigger] es[t].0;
                assert(first_seg(l[j].0) == es[t].0);
            }
        }
        if strict {
            assert forall|j: int| 0 <= j < l.len() implies line_key(#[trigger] l[j].0) || exists|
                t: int,
            | i <= t < es.len() && l[j] == #[trigger] es[t] && !non_empty_container(es[t].1) by {
                if j < g.len() {
                    assert(l[j] == g[j]);
                    if !non_empty_container(es[i].1) {
                        assert(g[j] == es[i]);
                    }
                } else {
                    assert(l[j] == r[j - g.len()]);
                    if !line_key(r[j - g.len()].0) {
                        let t = choose|t: int|
                            i + 1 <= t < es.len() && r[j - g.len()] == #[trigger] es[t]
                                && !non_empty_container(es[t].1);
                        assert(l[j] == es[t]);
                    }
                }
            }
        }
        assert forall|a: int, b: int| 0 <= a < b < l.len() implies l[a].0 != l[b].0 by {
            if b < g.len() {
                assert(l[a] == g[a] && l[b] == g[b]);
            } else if a >= g.len() {
                assert(l[a] == r[a - g.len()] && l[b] == r[b - g.len()]);
            } else {
                assert(l[a] == g[a] && l[b] == r[b - g.len()]);
                assert(first_seg(g[a].0) == k);
                let t = choose|t: int| i + 1 <= t < es.len() && first_seg(r[b - g.len()].0)
                    == #[trigger] es[t].0;
                assert(es[i].0 != es[t].0);
            }
        }
        assert(l[0] == g[0]);
    }
}

proof fn lemma_items_props(items: Seq<JValue>, i: int, strict: bool)
    requires
        tree_items(items, i, strict),
        0 <= i,
    ensures
        keys_unique(flat_list_items(items, i)),
        forall|j: int|
            0 <= j < flat_list_items(items, i).len() ==> leaf_for(
                #[trigger] flat_list_items(items, i)[j].1,
                strict,
            ),
        strict ==> forall|j: int|
            0 <= j < flat_list_items(items, i).len() ==> inner_key(
                #[trigger] flat_list_items(items, i)[j].0,
            ),
        forall|j: int|
            0 <= j < flat_list_items(items, i).len() ==> exists|t: nat|
                i <= t < items.len() && first_seg(#[trigger] flat_list_items(items, i)[j].0)
                    == #[trigger] decimal(t),
        i < items.len() ==> flat_list_items(items, i).len() > 0 && first_seg(
            flat_list_items(items, i)[0].0,
        ) == decimal(i as nat),
    decreases items, items.len() - i,
{
    if i < items.len() {
        let k = decimal(i as nat);
        lemma_index_seg(i as nat);
        lemma_group_props(k, items[i], strict);
        lemma_items_props(items, i + 1, strict);
        let g = flat_group(k, items[i]);
        let r = flat_list_items(items, i + 1);
        let l = flat_list_items(items, i);
        assert(l == g + r);
        assert forall|j: int| 0 <= j < l.len() implies leaf_for(#[trigger] l[j].1, strict) by {
            if j < g.len() {
                assert(l[j] == g[j]);
            } else {
                assert(l[j] == r[j - g.len()]);
            }
        }
        if strict {
            assert forall|j: int| 0 <= j < l.len() implies inner_key(#[trigger] l[j].0) by {
                if j < g.len() {
                    assert(l[j] == g[j]);
                } else {
                    assert(l[j] == r[j - g.len()]);
                }
            }
        }
        assert forall|j: int| 0 <= j < l.len() implies exists|t: nat|
            i <= t < items.len() && first_seg(#[trigger] l[j].0) == #[trigger] decimal(t) by {
            if j < g.len() {
                assert(l[j] == g[j]);
                assert(first_seg(g[j].0) == decimal(i as nat));
            } else {
                assert(l[j] == r[j - g.len()]);
                let t = choose|t: nat| i + 1 <= t < items.len() && first_seg(r[j - g.len()].0)
                    == #[trigger] decimal(t);
                assert(first_seg(l[j].0) == decimal(t));
            }
        }
        assert forall|a: int, b: int| 0 <= a < b < l.len() implies l[a].0 != l[b].0 by {
            if b < g.len() {
                assert(l[a] == g[a] && l[b] == g[b]);
            } else if a >= g.len() {
                assert(l[a] == r[a - g.len()] && l[b] == r[b - g.len()]);
            } else {
                assert(l[a] == g[a] && l[b] == r[b - g.len()]);
                assert(first_seg(g[a].0) == k);
                let t = choose|t: nat| i + 1 <= t < items.len() && first_seg(r[b - g.len()].0)
                    == #[trigger] decimal(t);
                if decimal(t) == k {
                    lemma_decimal_injective(t, i as nat);
                }
            }
        }
        assert(l[0] == g[0]);
    }
}

// ---------------------------------------------------------------------------
// Placing the listed entries rebuilds the value.
/// Placing one surviving child's entries at a free slot sets that slot to
/// the child.
proof fn lemma_place_group(root: JValue, kseg: Seq<char>, c: JValue, strict: bool)
    requires
        slot_ok(root, get_key_spec(kseg)),
        child_get(root, get_key_spec(kseg)) is None,
        seg_for(kseg, strict),
        tree_value(c, strict),
    ensures
        place_seq(root, flat_group(kseg, c)) == set_child(root, get_key_spec(kseg), c),
    decreases c, 2int,
{
    let key = get_key_spec(kseg);
    lemma_seg_for(kseg, strict);
    lemma_path_single(kseg);
    let g = flat_group(kseg, c);
    if non_empty_container(c) {
        lemma_list_props(c, strict);
        lemma_place_value(c, strict);
        let l = flat_list(c);
        let rest = split_by(l[0].0, '.');
        lemma_split_by_concat(kseg, l[0].0, '.');
        lemma_split_by_len(l[0].0, '.');
        let segs = split_by(kseg + seq!['.'] + l[0].0, '.');
        assert(segs == seq![kseg] + rest);
        assert(segs[0] == kseg);
        assert(segs[1] == first_seg(l[0].0));
        assert(segs.drop_first() =~= rest);
        assert(!child_is_container(root, key));
        let c1 = place_spec(fresh_of(c), rest, l[0].1);
        assert(g[0] == (kseg + seq!['.'] + l[0].0, l[0].1));
        assert(place_spec(root, segs, l[0].1) == set_child(root, key, c1));
        lemma_place_kind(fresh_of(c), rest, l[0].1);
        assert(g.drop_first() =~= prefix_all(kseg, l.drop_first()));
        lemma_place_under(root, kseg, c1, l.drop_first());
    } else {
        assert(g[0] == (kseg, c));
        assert(g.drop_first().len() == 0);
        let x = place_spec(root, seq![kseg], c);
        assert(place_seq(x, g.drop_first()) == x);
        assert(place_seq(root, g) == place_seq(x, g.drop_first()));
    }
}

/// Placing the entries of a surviving container into a fresh container of
/// its kind gives the container back.
proof fn lemma_place_value(c: JValue, strict: bool)
    requires
        tree_value(c, strict),
        non_empty_container(c),
    ensures
        place_seq(fresh_of(c), flat_list(c)) == c,
    decreases c, 1int,
{
    match c {
        JValue::Object(es) => {
            lemma_tree_entries_all(es, 0, strict);
            assert forall|t: int| 0 <= t < es.len() implies seg_for(#[trigger] es[t].0, strict)
                && key_text(get_key_spec(es[t].0)) == es[t].0 && tree_value(es[t].1, strict) by {
                lemma_name_for(es[t].0, strict);
            }
            lemma_place_entries(es, 0, strict);
            assert(es.take(0) =~= Seq::<(Seq<char>, JValue)>::empty());
        },
        JValue::Array(items) => {
            lemma_place_items(items, 0, strict);
            assert(items.take(0) =~= Seq::<JValue>::empty());
        },
        _ => {},
    }
}

proof fn lemma_place_entries(es: Obj, i: int, strict: bool)
    requires
        keys_unique(es),
        forall|t: int|
            i <= t < es.len() ==> seg_for(#[trigger] es[t].0, strict) && key_text(
                get_key_spec(es[t].0),
            ) == es[t].0 && tree_value(es[t].1, strict),
        0 <= i <= es.len(),
    ensures
        place_seq(JValue::Object(es.take(i)), flat_list_entries(es, i)) == JValue::Object(es),
    decreases es, es.len() - i,
{
    if i < es.len() {
        let k = es[i].0;
        let acc = es.take(i);
        assert(seg_for(es[i].0, strict));
        lemma_key_index(acc, k);
        assert(key_index(acc, k) == -1) by {
            if key_index(acc, k) != -1 {
                assert(acc[key_index(acc, k)].0 == es[key_index(acc, k)].0);
            }
        }
        lemma_place_group(JValue::Object(acc), k, es[i].1, strict);
        assert(obj_insert(acc, k, es[i].1) =~= es.take(i + 1));
        lemma_place_seq_concat(
            JValue::Object(acc),
            flat_group(k, es[i].1),
            flat_list_entries(es, i + 1),
        );
        lemma_place_entries(es, i + 1, strict);
    } else {
        assert(es.take(i) =~= es);
    }
}

proof fn lemma_place_items(items: Seq<JValue>, i: int, strict: bool)
    requires
        tree_items(items, i, strict),
        items.len() <= max_array_index() + 1,
        0 <= i <= items.len(),
    ensures
        place_seq(JValue::Array(items.take(i)), flat_list_items(items, i)) == JValue::Array(items),
    decreases items, items.len() - i,
{
    if i < items.len() {
        let k = decimal(i as nat);
        let acc = items.take(i);
        lemma_index_seg(i as nat);
        lemma_index_key(i as nat);
        lemma_place_group(JValue::Array(acc), k, items[i], strict);
        let pad = Seq::new((i - acc.len()) as nat, |j: int| JValue::Null);
        assert(pad.len() == 0);
        assert((acc + pad).push(items[i]) =~= items.take(i + 1));
        lemma_place_seq_concat(
            JValue::Array(acc),
            flat_group(k, items[i]),
            flat_list_items(items, i + 1),
        );
        lemma_place_items(items, i + 1, strict);
    } else {
        assert(items.take(i) =~= items);
    }
}

// ---------------------------------------------------------------------------
// Reading the lines back.
/// The config line of one entry.
pub open spec fn line_of(e: (Seq<char>, JValue)) -> Seq<char> {
    e.0 + seq!['='] + encode_value(e.1)
}

/// A plain leaf's text: no line break, not blank at either end, a first
/// character that is not whitespace, and coercing back to the leaf.
proof fn lemma_escape_char_props(c: char)
    ensures
        escape_char(c).len() > 0,
        forall|i: int| 0 <= i < escape_char(c).len() ==> !is_line_sep(#[trigger] escape_char(c)[i]),
        !plain_char(c) ==> escape_char(c)[0] == '\\',
{
    let e = escape_char(c);
    if (c as u32) < 0x20 && c != '\u{8}' && c != '\t' && c != '\n' && c != '\u{c}' && c != '\r' {
        let h1 = crate::json::hex_char((c as u32 / 16) as nat);
        let h2 = crate::json::hex_char((c as u32 % 16) as nat);
        assert(e == seq!['\\', 'u', '0', '0', h1, h2]);
        assert(!is_line_sep(h1) && !is_line_sep(h2));
    }
}

proof fn lemma_escape_props(s: Seq<char>)
    ensures
        forall|i: int| 0 <= i < escape_str(s).len() ==> !is_line_sep(#[trigger] escape_str(s)[i]),
        !plain_str(s) ==> escape_str(s).contains('\\'),
    decreases s.len(),
{
    if s.len() > 0 {
        let a = escape_str(s.drop_last());
        let b = escape_char(s.last());
        lemma_escape_props(s.drop_last());
        lemma_escape_char_props(s.last());
        let t = escape_str(s);
        assert(t == a + b);
        assert forall|i: int| 0 <= i < t.len() implies !is_line_sep(#[trigger] t[i]) by {
            if i < a.len() {
                assert(t[i] == a[i]);
            } else {
                assert(t[i] == b[i - a.len()]);
            }
        }
        if !plain_str(s) {
            if plain_char(s.last()) {
                if plain_str(s.drop_last()) {
                    assert forall|i: int| 0 <= i < s.len() implies plain_char(#[trigger] s[i]) by {
                        if i < s.len() - 1 {
                            assert(s[i] == s.drop_last()[i]);
                        }
                    }
                }
                let j = choose|j: int| 0 <= j < a.len() && a[j] == '\\';
                assert(t[j] == '\\');
            } else {
                assert(t[a.len() as int] == '\\');
            }
        }
    }
}

/// A number text starts with a digit, or with `-` and a digit.
proof fn lemma_number_start(t: Seq<char>)
    requires
        json_sig_number(t),
        t.len() > 0,
        !is_js_ws(t[0]),
    ensures
        is_digit(t[0]) || (t[0] == '-' && t.len() > 1 && is_digit(t[1])),
{
    assert(ws_run(t, 0) == 0);
    let p1: int = if t[0] == '-' { 1 } else { 0 };
    assert(crate::text::digit_run(t, p1) > p1);
}

/// A text that starts with `"`, a digit, or `-` and a digit is no keyword.
proof fn lemma_no_keyword(t: Seq<char>)
    requires
        t.len() > 0,
        t[0] == '"' || is_digit(t[0]) || (t[0] == '-' && t.len() > 1 && is_digit(t[1])),
    ensures
        keyword_value(t) is None,
{
    let l = lower(t);
    assert(l[0] == crate::destr::ascii_lower(t[0]));
    if t.len() > 1 {
        assert(l[1] == crate::destr::ascii_lower(t[1]));
    }
    let lits = seq![
        seq!['t', 'r', 'u', 'e'],
        seq!['f', 'a', 'l', 's', 'e'],
        seq!['u', 'n', 'd', 'e', 'f', 'i', 'n', 'e', 'd'],
        seq!['n', 'u', 'l', 'l'],
        seq!['n', 'a', 'n'],
        seq!['i', 'n', 'f', 'i', 'n', 'i', 't', 'y'],
    ];
    assert forall|m: int| 0 <= m < lits.len() implies l != #[trigger] lits[m] by {
        if l == lits[m] {
            assert(l[0] == lits[m][0]);
        }
    }
    let mi = seq!['-', 'i', 'n', 'f', 'i', 'n', 'i', 't', 'y'];
    if l == mi {
        assert(l[0] == '-');
        assert(l[1] == 'i');
    }
    assert(l != lits[0] && l != lits[1] && l != lits[2] && l != lits[3] && l != lits[4]
        && l != lits[5]);
}

/// The number-shaped text of a decimal integer, with an optional sign.
proof fn lemma_integer_text(sg: Seq<char>, d: Seq<char>, n: nat)
    requires
        d == decimal(n),
        d.len() <= 16,
        sg.len() == 0 || sg == seq!['-'],
    ensures
        json_sig_number(sg + d),
        forall|i: int| 0 <= i < (sg + d).len() ==> !is_js_ws(#[trigger] (sg + d)[i]),
        (sg + d).len() > 0,
{
    lemma_decimal_digits(n);
    lemma_digits_not_ws(d);
    let e = Seq::<char>::empty();
    assert(sg + d =~= e + sg + d + e + e + e);
    crate::laws::lemma_pattern_sig(sg + d, e, sg, d, e, e, e);
    assert forall|i: int| 0 <= i < (sg + d).len() implies !is_js_ws(#[trigger] (sg + d)[i]) by {
        if i >= sg.len() {
            assert((sg + d)[i] == d[i - sg.len()]);
        }
    }
}

/// A leaf that reads back: its text is non-empty, starts with no whitespace,
/// has no line break, and coerces back to the leaf.
proof fn lemma_leaf_text(x: JValue)
    requires
        plain_leaf(x),
    ensures
        encode_value(x).len() > 0,
        !is_js_ws(encode_value(x)[0]),
        forall|i: int|
            0 <= i < encode_value(x).len() ==> !is_line_sep(#[trigger] encode_value(x)[i]),
        destr_spec(trim(encode_value(x))) == x,
{
    let t = encode_value(x);
    match x {
        JValue::Str(s) => {
            if plain_str(s) {
                lemma_escape_plain(s);
                assert(t == seq!['"'] + s + seq!['"']);
                assert(t[0] == '"');
                assert(t[t.len() - 1] == '"');
                lemma_trim_noop(t);
                assert forall|i: int| 0 <= i < t.len() implies !is_line_sep(#[trigger] t[i]) by {
                    if 0 < i < t.len() - 1 {
                        assert(t[i] == s[i - 1]);
                        assert(plain_char(s[i - 1]));
                    }
                }
                assert(!t.contains('\\')) by {
                    if t.contains('\\') {
                        let j = choose|j: int| 0 <= j < t.len() && t[j] == '\\';
                        if 0 < j < t.len() - 1 {
                            assert(t[j] == s[j - 1]);
                            assert(plain_char(s[j - 1]));
                        }
                    }
                }
                assert(quoted_fast_path(t));
                assert(quoted_inner(t) =~= s);
            } else {
                let es = escape_str(s);
                lemma_escape_props(s);
                assert(t == seq!['"'] + es + seq!['"']);
                assert(t[0] == '"');
                assert(t[t.len() - 1] == '"');
                lemma_trim_noop(t);
                assert forall|i: int| 0 <= i < t.len() implies !is_line_sep(#[trigger] t[i]) by {
                    if 0 < i < t.len() - 1 {
                        assert(t[i] == es[i - 1]);
                    }
                }
                let j = choose|j: int| 0 <= j < es.len() && es[j] == '\\';
                assert(t[j + 1] == '\\');
                assert(!quoted_fast_path(t));
                lemma_no_keyword(t);
                assert(ws_run(t, 0) == 0);
                assert(crate::destr::json_sig_open(t));
            }
        },
        JValue::Number(n) => {
            match n {
                NumView::PosInt(u) => {
                    let e = Seq::<char>::empty();
                    lemma_integer_text(e, decimal(u as nat), u as nat);
                    assert(e + decimal(u as nat) =~= t);
                },
                NumView::NegInt(i) => {
                    let d = decimal((0 - i) as nat);
                    lemma_integer_text(seq!['-'], d, (0 - i) as nat);
                    assert(t == seq!['-'] + d);
                },
                NumView::Float(bits, text) => {
                    assert(t == text);
                },
            }
            assert(forall|k: int| 0 <= k < t.len() ==> !is_js_ws(#[trigger] t[k]));
            assert forall|k: int| 0 <= k < t.len() implies !is_line_sep(#[trigger] t[k]) by {
                assert(!is_js_ws(t[k]));
            }
            lemma_trim_noop(t);
            lemma_number_start(t);
            lemma_no_keyword(t);
            assert(!quoted_fast_path(t));
            assert(normalize_number_spec(n) == n);
        },
        JValue::Bool(b) => {
            if b {
                assert(t == seq!['t', 'r', 'u', 'e']);
                lemma_trim_noop(t);
                assert(lower(t) =~= t);
                assert(keyword_value(t) == Some(JValue::Bool(true)));
            } else {
                assert(t == seq!['f', 'a', 'l', 's', 'e']);
                lemma_trim_noop(t);
                assert(lower(t) =~= t);
                assert(keyword_value(t) == Some(JValue::Bool(false)));
            }
        },
        JValue::Null => {
            assert(t == seq!['n', 'u', 'l', 'l']);
            lemma_trim_noop(t);
            assert(lower(t) =~= t);
            assert(lower(t) != seq!['t', 'r', 'u', 'e']);
            assert(lower(t) != seq!['f', 'a', 'l', 's', 'e']);
            assert(keyword_value(t) == Some(JValue::Null));
        },
        _ => {},
    }
}

proof fn lemma_key_end_at(line: Seq<char>, k: Seq<char>, j: int)
    requires
        line_key(k),
        k.len() < line.len(),
        line.subrange(0, k.len() as int) == k,
        line[k.len() as int] == '=',
        0 <= j <= k.len(),
    ensures
        key_end(line, j) == k.len(),
    decreases k.len() - j,
{
    if j < k.len() {
        assert(line[j] == k[j]);
        lemma_key_end_at(line, k, j + 1);
    }
}

/// A written line reads back as its entry.
proof fn lemma_parse_line_of(config: Obj, e: (Seq<char>, JValue))
    requires
        line_key(e.0),
        plain_leaf(e.1),
    ensures
        parse_line(config, line_of(e)) == obj_insert(config, e.0, e.1),
{
    let k = e.0;
    let t = encode_value(e.1);
    let line = line_of(e);
    lemma_leaf_text(e.1);
    assert(line.subrange(0, k.len() as int) =~= k);
    assert(line[k.len() as int] == '=');
    assert(line[0] == k[0]);
    assert(ws_run(line, 0) == 0);
    lemma_key_end_at(line, k, 0);
    assert(ws_run(line, k.len() as int) == k.len());
    assert(line[k.len() + 1int] == t[0]);
    assert(ws_run(line, k.len() + 1int) == k.len() + 1);
    assert(line.skip(k.len() + 1int) =~= t);
    assert(match_key_val(line) == Some((k, t)));
    assert(!is_push_key(k));
}

proof fn lemma_line_no_sep(e: (Seq<char>, JValue))
    requires
        line_key(e.0),
        plain_leaf(e.1),
    ensures
        forall|i: int| 0 <= i < line_of(e).len() ==> !is_line_sep(#[trigger] line_of(e)[i]),
{
    let line = line_of(e);
    let k = e.0;
    lemma_leaf_text(e.1);
    assert forall|i: int| 0 <= i < line.len() implies !is_line_sep(#[trigger] line[i]) by {
        if i < k.len() {
            assert(line[i] == k[i]);
            assert(!is_js_ws(k[i]));
        } else if i > k.len() {
            assert(line[i] == encode_value(e.1)[i - k.len() - 1]);
        }
    }
}

/// The lines of written entries from index `i` are their config lines.
proof fn lemma_split_written(m: Obj, i: int)
    requires
        0 <= i < m.len(),
        forall|j: int| 0 <= j < m.len() ==> line_key(#[trigger] m[j].0) && plain_leaf(m[j].1),
    ensures
        split_lines(line_of(m[i]) + lines_from(m, i + 1)) == Seq::new(
            (m.len() - i) as nat,
            |j: int| line_of(m[i + j]),
        ),
    decreases m.len() - i,
{
    lemma_line_no_sep(m[i]);
    if i + 1 == m.len() {
        assert(lines_from(m, i + 1).len() == 0);
        assert(line_of(m[i]) + lines_from(m, i + 1) =~= line_of(m[i]));
        lemma_split_lines_single(line_of(m[i]));
        assert(seq![line_of(m[i])] =~= Seq::new((m.len() - i) as nat, |j: int| line_of(m[i + j])));
    } else {
        lemma_split_written(m, i + 1);
        let a = line_of(m[i]);
        let b = line_of(m[i + 1]) + lines_from(m, i + 2);
        assert(lines_from(m, i + 1) =~= seq!['\n'] + b);
        assert(a + lines_from(m, i + 1) =~= a + seq!['\n'] + b);
        lemma_split_lines_concat(a, b);
        lemma_split_lines_single(a);
        assert(seq![a] + Seq::new((m.len() - i - 1) as nat, |j: int| line_of(m[i + 1 + j]))
            =~= Seq::new((m.len() - i) as nat, |j: int| line_of(m[i + j])));
    }
}

proof fn lemma_parse_written(m: Obj, lines: Seq<Seq<char>>, i: int)
    requires
        keys_unique(m),
        forall|j: int| 0 <= j < m.len() ==> line_key(#[trigger] m[j].0) && plain_leaf(m[j].1),
        lines.len() == m.len(),
        forall|j: int| 0 <= j < m.len() ==> #[trigger] lines[j] == line_of(m[j]),
        0 <= i <= m.len(),
    ensures
        parse_lines(m.take(i), lines, i) == m,
    decreases m.len() - i,
{
    if i < m.len() {
        let acc = m.take(i);
        lemma_parse_line_of(acc, m[i]);
        lemma_key_index(acc, m[i].0);
        assert(key_index(acc, m[i].0) == -1) by {
            if key_index(acc, m[i].0) != -1 {
                assert(acc[key_index(acc, m[i].0)].0 == m[key_index(acc, m[i].0)].0);
            }
        }
        assert(obj_insert(acc, m[i].0, m[i].1) =~= m.take(i + 1));
        lemma_parse_written(m, lines, i + 1);
    } else {
        assert(m.take(i) =~= m);
    }
}

/// Parsing the text of written entries gives the entries back.
proof fn lemma_parse_flat_written(m: Obj)
    requires
        keys_unique(m),
        forall|j: int| 0 <= j < m.len() ==> line_key(#[trigger] m[j].0) && plain_leaf(m[j].1),
    ensures
        parse_flat(lines_from(m, 0)) == m,
{
    let text = lines_from(m, 0);
    if m.len() == 0 {
        assert(text.len() == 0);
        assert(split_lines(text) =~= seq![Seq::<char>::empty()]);
        assert(match_key_val(Seq::<char>::empty()) is None);
        let lines = split_lines(text);
        assert(parse_lines(Seq::empty(), lines, 1) == Seq::<(Seq<char>, JValue)>::empty());
        assert(m =~= Seq::<(Seq<char>, JValue)>::empty());
    } else {
        assert(text =~= line_of(m[0]) + lines_from(m, 1));
        lemma_split_written(m, 0);
        let lines = split_lines(text);
        assert(m.take(0) =~= Seq::<(Seq<char>, JValue)>::empty());
        lemma_parse_written(m, lines, 0);
    }
}

proof fn lemma_expand_leaves(acc: Obj, es: Obj, i: int)
    requires
        0 <= i <= es.len(),
        forall|j: int| 0 <= j < es.len() ==> !non_empty_container(#[trigger] es[j].1),
    ensures
        expand_from(acc, es, i) == insert_all(acc, es.skip(i)),
    decreases es.len() - i,
{
    if i < es.len() {
        assert(!non_empty_container(es[i].1));
        assert(es.skip(i)[0] == es[i]);
        assert(es.skip(i).drop_first() =~= es.skip(i + 1));
        lemma_expand_leaves(obj_insert(acc, es[i].0, es[i].1), es, i + 1);
    } else {
        assert(es.skip(i).len() == 0);
    }
}

// ---------------------------------------------------------------------------
// The laws.
/// A flattened config unflattens back to itself. For a config object whose
/// keys are path segments that read back as themselves (names below the top
/// level), and whose nested objects and arrays are non-empty, with arrays of
/// at most one more item than the largest index a path may create,
/// unflattening the flattened map gives the config back.
pub proof fn law_unflatten_flatten(v: JValue)
    requires
        tree_config(v),
    ensures
        unflatten_spec(JValue::Object(flatten_spec(v))) == v,
{
    let es = v->Object_0;
    let f = flat_list(v);
    assert forall|t: int| 0 <= t < es.len() implies seg_for(#[trigger] es[t].0, false) && key_text(
        get_key_spec(es[t].0),
    ) == es[t].0 && tree_value(es[t].1, false) by {
        assert(top_entry_for(es[t].0, es[t].1, false));
    }
    lemma_entries_props(es, 0, false);
    assert(f == flat_list_entries(es, 0));
    lemma_flat_into_list(Seq::empty(), v, None);
    assert(Seq::<(Seq<char>, JValue)>::empty() + f =~= f);
    lemma_insert_all_fresh(Seq::empty(), f);
    assert(flatten_spec(v) == f);
    assert forall|j: int| 0 <= j < f.len() implies !non_empty_container(#[trigger] f[j].1) by {
        assert(leaf_for(f[j].1, false));
    }
    lemma_expand_leaves(Seq::empty(), f, 0);
    assert(f.skip(0) =~= f);
    lemma_place_all_seq(JValue::Object(Seq::empty()), f, 0);
    lemma_place_entries(es, 0, false);
    assert(es.take(0) =~= Seq::<(Seq<char>, JValue)>::empty());
}

/// A written config reads back as itself. For a config object whose keys are
/// key segments that read back as themselves (names below the top level) and
/// whose leaves (nested in non-empty objects and arrays) are `null`,
/// booleans, strings, integers of at most 16 digits and non-whole doubles,
/// where every leaf but `null`, a boolean and a string of plain characters is
/// read back as itself by the JSON decoder from its written text, parsing the
/// serialized text in nested mode gives the config back, and parsing it in
/// flat mode gives its flattened map.
pub proof fn law_parse_serialize(v: JValue)
    requires
        plain_config(v),
    ensures
        parse_spec(serialize_spec(v), false) == v,
        parse_spec(serialize_spec(v), true) == JValue::Object(flatten_spec(v)),
{
    let es = v->Object_0;
    let f = flat_list(v);
    assert forall|t: int| 0 <= t < es.len() implies seg_for(#[trigger] es[t].0, true) && key_text(
        get_key_spec(es[t].0),
    ) == es[t].0 && tree_value(es[t].1, true) by {
        assert(top_entry_for(es[t].0, es[t].1, true));
    }
    lemma_entries_props(es, 0, true);
    assert forall|j: int| 0 <= j < f.len() implies line_key(#[trigger] f[j].0) && plain_leaf(
        f[j].1,
    ) && !non_empty_container(f[j].1) by {
        assert(leaf_for(f[j].1, true));
        if !line_key(f[j].0) {
            let t = choose|t: int|
                0 <= t < es.len() && f[j] == #[trigger] es[t] && !non_empty_container(es[t].1);
            assert(top_entry_for(es[t].0, es[t].1, true));
        }
    }
    assert(f == flat_list_entries(es, 0));
    lemma_flat_into_list(Seq::empty(), v, None);
    assert(Seq::<(Seq<char>, JValue)>::empty() + f =~= f);
    lemma_insert_all_fresh(Seq::empty(), f);
    assert(flatten_spec(v) == f);
    lemma_parse_flat_written(f);
    assert(parse_flat(serialize_spec(v)) == f);
    lemma_expand_leaves(Seq::empty(), f, 0);
    assert(f.skip(0) =~= f);
    assert(expand_from(Seq::empty(), f, 0) == f);
    lemma_place_all_seq(JValue::Object(Seq::empty()), f, 0);
    lemma_place_entries(es, 0, true);
    assert(es.take(0) =~= Seq::<(Seq<char>, JValue)>::empty());
}

// ---------------------------------------------------------------------------
// No trailing line break.
/// Whether a text ends with a line feed.
pub open spec fn ends_with_newline(s: Seq<char>) -> bool {
    s.len() > 0 && s[s.len() - 1] == '\n'
}

/// A leaf whose text as a config value does not end with a line feed: every
/// leaf but a double whose stored text does.
pub open spec fn float_text_ok(x: JValue) -> bool {
    match x {
        JValue::Number(NumView::Float(_, t)) => !ends_with_newline(t),
        _ => true,
    }
}

/// Every double in the value has a stored text that does not end with a line
/// feed.
pub open spec fn floats_ok(v: JValue) -> bool
    decreases v, 1int,
{
    match v {
        JValue::Object(es) => floats_ok_entries(es, 0),
        JValue::Array(items) => floats_ok_items(items, 0),
        _ => float_text_ok(v),
    }
}

pub open spec fn floats_ok_entries(es: Obj, i: int) -> bool
    decreases es, es.len() - i,
{
    if 0 <= i < es.len() {
        floats_ok(es[i].1) && floats_ok_entries(es, i + 1)
    } else {
        true
    }
}

pub open spec fn floats_ok_items(items: Seq<JValue>, i: int) -> bool
    decreases items, items.len() - i,
{
    if 0 <= i < items.len() {
        floats_ok(items[i]) && floats_ok_items(items, i + 1)
    } else {
        true
    }
}

proof fn lemma_group_floats(k: Seq<char>, c: JValue)
    requires
        floats_ok(c),
    ensures
        forall|j: int|
            0 <= j < flat_group(k, c).len() ==> float_text_ok(#[trigger] flat_group(k, c)[j].1),
    decreases c, 2int,
{
    if non_empty_container(c) {
        lemma_list_floats(c);
        let l = flat_list(c);
        assert forall|j: int| 0 <= j < flat_group(k, c).len() implies float_text_ok(
            #[trigger] flat_group(k, c)[j].1,
        ) by {
            assert(flat_group(k, c)[j].1 == l[j].1);
        }
    } else {
        assert(flat_group(k, c)[0].1 == c);
    }
}

proof fn lemma_list_floats(c: JValue)
    requires
        floats_ok(c),
    ensures
        forall|j: int| 0 <= j < flat_list(c).len() ==> float_text_ok(#[trigger] flat_list(c)[j].1),
    decreases c, 1int,
{
    match c {
        JValue::Object(es) => {
            lemma_entries_floats(es, 0);
            assert(flat_list(c) == flat_list_entries(es, 0));
        },
        JValue::Array(items) => {
            lemma_items_floats(items, 0);
            assert(flat_list(c) == flat_list_items(items, 0));
        },
        _ => {},
    }
}

proof fn lemma_entries_floats(es: Obj, i: int)
    requires
        floats_ok_entries(es, i),
        0 <= i,
    ensures
        forall|j: int|
            0 <= j < flat_list_entries(es, i).len() ==> float_text_ok(
                #[trigger] flat_list_entries(es, i)[j].1,
            ),
    decreases es, es.len() - i,
{
    if i < es.len() {
        lemma_group_floats(es[i].0, es[i].1);
        lemma_entries_floats(es, i + 1);
        let g = flat_group(es[i].0, es[i].1);
        let r = flat_list_entries(es, i + 1);
        let l = flat_list_entries(es, i);
        assert(l == g + r);
        assert forall|j: int| 0 <= j < l.len() implies float_text_ok(#[trigger] l[j].1) by {
            if j < g.len() {
                assert(l[j] == g[j]);
            } else {
                assert(l[j] == r[j - g.len()]);
            }
        }
    }
}

proof fn lemma_items_floats(items: Seq<JValue>, i: int)
    requires
        floats_ok_items(items, i),
        0 <= i,
    ensures
        forall|j: int|
            0 <= j < flat_list_items(items, i).len() ==> float_text_ok(
                #[trigger] flat_list_items(items, i)[j].1,
            ),
    decreases items, items.len() - i,
{
    if i < items.len() {
        lemma_group_floats(decimal(i as nat), items[i]);
        lemma_items_floats(items, i + 1);
        let g = flat_group(decimal(i as nat), items[i]);
        let r = flat_list_items(items, i + 1);
        let l = flat_list_items(items, i);
        assert(l == g + r);
        assert forall|j: int| 0 <= j < l.len() implies float_text_ok(#[trigger] l[j].1) by {
            if j < g.len() {
                assert(l[j] == g[j]);
            } else {
                assert(l[j] == r[j - g.len()]);
            }
        }
    }
}

proof fn lemma_insert_all_floats(m: Obj, l: Obj)
    requires
        forall|j: int| 0 <= j < m.len() ==> float_text_ok(#[trigger] m[j].1),
        forall|j: int| 0 <= j < l.len() ==> float_text_ok(#[trigger] l[j].1),
    ensures
        forall|j: int|
            0 <= j < insert_all(m, l).len() ==> float_text_ok(#[trigger] insert_all(m, l)[j].1),
    decreases l.len(),
{
    if l.len() > 0 {
        let m2 = obj_insert(m, l[0].0, l[0].1);
        assert(float_text_ok(l[0].1));
        let idx = key_index(m, l[0].0);
        lemma_key_index(m, l[0].0);
        assert forall|j: int| 0 <= j < m2.len() implies float_text_ok(#[trigger] m2[j].1) by {
            if idx >= 0 {
                if j != idx {
                    assert(m2[j] == m[j]);
                }
            } else if j < m.len() {
                assert(m2[j] == m[j]);
            }
        }
        assert forall|j: int| 0 <= j < l.drop_first().len() implies float_text_ok(
            #[trigger] l.drop_first()[j].1,
        ) by {
            assert(l.drop_first()[j] == l[j + 1]);
        }
        lemma_insert_all_floats(m2, l.drop_first());
        assert(insert_all(m, l) == insert_all(m2, l.drop_first()));
    }
}

/// The encoded value of a leaf whose double text, if any, does not end with a
/// line feed does not end with one either.
proof fn lemma_encode_no_newline(x: JValue)
    requires
        float_text_ok(x),
    ensures
        !ends_with_newline(encode_value(x)),
{
    let t = encode_value(x);
    match x {
        JValue::Number(n) => {
            match n {
                NumView::PosInt(u) => {
                    lemma_decimal_digits(u as nat);
                    assert(is_digit(t[t.len() - 1]));
                },
                NumView::NegInt(i) => {
                    if i < 0 {
                        lemma_decimal_digits((0 - i) as nat);
                        let d = decimal((0 - i) as nat);
                        assert(t[t.len() - 1] == d[d.len() - 1]);
                        assert(is_digit(d[d.len() - 1]));
                    } else {
                        lemma_decimal_digits(i as nat);
                        assert(is_digit(t[t.len() - 1]));
                    }
                },
                NumView::Float(bits, text) => {
                    match float_whole_magnitude(bits) {
                        Some(mag) => {
                            if mag != 0 && mag < plain_bound() {
                                lemma_decimal_digits(mag);
                                let d = decimal(mag);
                                assert(t[t.len() - 1] == d[d.len() - 1]);
                                assert(is_digit(d[d.len() - 1]));
                            }
                        },
                        None => {},
                    }
                },
            }
        },
        JValue::Str(s) => {
            assert(t[t.len() - 1] == '"');
        },
        JValue::Array(items) => {
            assert(t[t.len() - 1] == ']');
        },
        JValue::Object(es) => {
            assert(t[t.len() - 1] == '}');
        },
        _ => {},
    }
}

proof fn lemma_lines_end(m: Obj, i: int)
    requires
        0 <= i < m.len(),
        forall|j: int| 0 <= j < m.len() ==> float_text_ok(#[trigger] m[j].1),
    ensures
        lines_from(m, i).len() > 0,
        !ends_with_newline(lines_from(m, i)),
    decreases m.len() - i,
{
    let head = (if i > 0 {
        seq!['\n']
    } else {
        Seq::<char>::empty()
    }) + m[i].0 + seq!['='] + encode_value(m[i].1);
    let t = encode_value(m[i].1);
    assert(float_text_ok(m[i].1));
    lemma_encode_no_newline(m[i].1);
    assert(lines_from(m, i) == head + lines_from(m, i + 1));
    if i + 1 < m.len() {
        lemma_lines_end(m, i + 1);
        let r = lines_from(m, i + 1);
        assert((head + r)[(head + r).len() - 1] == r[r.len() - 1]);
    } else {
        assert(lines_from(m, i + 1).len() == 0);
        assert(head + lines_from(m, i + 1) =~= head);
        if t.len() > 0 {
            assert(head[head.len() - 1] == t[t.len() - 1]);
        } else {
            assert(head[head.len() - 1] == '=');
        }
    }
}

/// Serialized text has no trailing line break: it is empty or ends with the
/// last value written, given doubles whose stored texts do not end with one.
pub proof fn law_serialize_no_trailing_newline(v: JValue)
    requires
        floats_ok(v),
    ensures
        !ends_with_newline(serialize_spec(v)),
{
    if is_container(v) {
        lemma_flat_into_list(Seq::empty(), v, None);
        lemma_list_floats(v);
        lemma_insert_all_floats(Seq::empty(), flat_list(v));
        let f = flatten_spec(v);
        assert(f == insert_all(Seq::empty(), flat_list(v)));
        if f.len() > 0 {
            lemma_lines_end(f, 0);
        }
    }
}

// ---------------------------------------------------------------------------
// What flattening emits.
/// Distinct keys at every object and no key containing `.`, at any depth.
pub open spec fn keys_dotless(v: JValue) -> bool
    decreases v, 1int,
{
    match v {
        JValue::Object(es) => keys_unique(es) && keys_dotless_entries(es, 0),
        JValue::Array(items) => keys_dotless_items(items, 0),
        _ => true,
    }
}

pub open spec fn keys_dotless_entries(es: Obj, i: int) -> bool
    decreases es, es.len() - i,
{
    if 0 <= i < es.len() {
        !es[i].0.contains('.') && keys_dotless(es[i].1) && keys_dotless_entries(es, i + 1)
    } else {
        true
    }
}

pub open spec fn keys_dotless_items(items: Seq<JValue>, i: int) -> bool
    decreases items, items.len() - i,
{
    if 0 <= i < items.len() {
        keys_dotless(items[i]) && keys_dotless_items(items, i + 1)
    } else {
        true
    }
}

proof fn lemma_first_seg_join(k: Seq<char>, x: Seq<char>)
    requires
        !k.contains('.'),
    ensures
        first_seg(k + seq!['.'] + x) == k,
        first_seg(k) == k,
{
    lemma_split_by_single(k, '.');
    lemma_split_by_concat(k, x, '.');
    lemma_split_by_len(x, '.');
}

proof fn lemma_group_leaves(k: Seq<char>, c: JValue)
    ensures
        forall|j: int|
            0 <= j < flat_group(k, c).len() ==> !non_empty_container(
                #[trigger] flat_group(k, c)[j].1,
            ),
    decreases c, 2int,
{
    if non_empty_container(c) {
        lemma_list_leaves(c);
        let l = flat_list(c);
        assert forall|j: int| 0 <= j < flat_group(k, c).len() implies !non_empty_container(
            #[trigger] flat_group(k, c)[j].1,
        ) by {
            assert(flat_group(k, c)[j].1 == l[j].1);
        }
    } else {
        assert(flat_group(k, c)[0].1 == c);
    }
}

proof fn lemma_list_leaves(c: JValue)
    ensures
        forall|j: int| 0 <= j < flat_list(c).len() ==> !non_empty_container(#[trigger] flat_list(c)[j].1),
    decreases c, 1int,
{
    match c {
        JValue::Object(es) => {
            lemma_entries_leaves(es, 0);
            assert(flat_list(c) == flat_list_entries(es, 0));
        },
        JValue::Array(items) => {
            lemma_items_leaves(items, 0);
            assert(flat_list(c) == flat_list_items(items, 0));
        },
        _ => {},
    }
}

proof fn lemma_entries_leaves(es: Obj, i: int)
    requires
        0 <= i,
    ensures
        forall|j: int|
            0 <= j < flat_list_entries(es, i).len() ==> !non_empty_container(
                #[trigger] flat_list_entries(es, i)[j].1,
            ),
    decreases es, es.len() - i,
{
    if i < es.len() {
        lemma_group_leaves(es[i].0, es[i].1);
        lemma_entries_leaves(es, i + 1);
        let g = flat_group(es[i].0, es[i].1);
        let r = flat_list_entries(es, i + 1);
        let l = flat_list_entries(es, i);
        assert(l == g + r);
        assert forall|j: int| 0 <= j < l.len() implies !non_empty_container(#[trigger] l[j].1) by {
            if j < g.len() {
                assert(l[j] == g[j]);
            } else {
                assert(l[j] == r[j - g.len()]);
            }
        }
    }
}

proof fn lemma_items_leaves(items: Seq<JValue>, i: int)
    requires
        0 <= i,
    ensures
        forall|j: int|
            0 <= j < flat_list_items(items, i).len() ==> !non_empty_container(
                #[trigger] flat_list_items(items, i)[j].1,
            ),
    decreases items, items.len() - i,
{
    if i < items.len() {
        lemma_group_leaves(decimal(i as nat), items[i]);
        lemma_items_leaves(items, i + 1);
        let g = flat_group(decimal(i as nat), items[i]);
        let r = flat_list_items(items, i + 1);
        let l = flat_list_items(items, i);
        assert(l == g + r);
        assert forall|j: int| 0 <= j < l.len() implies !non_empty_container(#[trigger] l[j].1) by {
            if j < g.len() {
                assert(l[j] == g[j]);
            } else {
                assert(l[j] == r[j - g.len()]);
            }
        }
    }
}

proof fn lemma_insert_all_leaves(m: Obj, l: Obj)
    requires
        forall|j: int| 0 <= j < m.len() ==> !non_empty_container(#[trigger] m[j].1),
        forall|j: int| 0 <= j < l.len() ==> !non_empty_container(#[trigger] l[j].1),
    ensures
        forall|j: int|
            0 <= j < insert_all(m, l).len() ==> !non_empty_container(#[trigger] insert_all(m, l)[j].1),
    decreases l.len(),
{
    if l.len() > 0 {
        let m2 = obj_insert(m, l[0].0, l[0].1);
        assert(!non_empty_container(l[0].1));
        let idx = key_index(m, l[0].0);
        lemma_key_index(m, l[0].0);
        assert forall|j: int| 0 <= j < m2.len() implies !non_empty_container(#[trigger] m2[j].1) by {
            if idx >= 0 {
                if j != idx {
                    assert(m2[j] == m[j]);
                }
            } else if j < m.len() {
                assert(m2[j] == m[j]);
            }
        }
        assert forall|j: int| 0 <= j < l.drop_first().len() implies !non_empty_container(
            #[trigger] l.drop_first()[j].1,
        ) by {
            assert(l.drop_first()[j] == l[j + 1]);
        }
        lemma_insert_all_leaves(m2, l.drop_first());
        assert(insert_all(m, l) == insert_all(m2, l.drop_first()));
    }
}

proof fn lemma_group_dotless(k: Seq<char>, c: JValue)
    requires
        !k.contains('.'),
        keys_dotless(c),
    ensures
        keys_unique(flat_group(k, c)),
        forall|j: int|
            0 <= j < flat_group(k, c).len() ==> first_seg(#[trigger] flat_group(k, c)[j].0) == k,
    decreases c, 2int,
{
    let g = flat_group(k, c);
    if non_empty_container(c) {
        lemma_list_dotless(c);
        let l = flat_list(c);
        lemma_prefix_unique(k, l);
        assert forall|j: int| 0 <= j < g.len() implies first_seg(#[trigger] g[j].0) == k by {
            assert(g[j] == (k + seq!['.'] + l[j].0, l[j].1));
            lemma_first_seg_join(k, l[j].0);
        }
    } else {
        lemma_first_seg_join(k, Seq::empty());
        assert(g =~= seq![(k, c)]);
        assert forall|j: int| 0 <= j < g.len() implies first_seg(#[trigger] g[j].0) == k by {
            assert(j == 0);
        }
    }
}

proof fn lemma_list_dotless(c: JValue)
    requires
        keys_dotless(c),
    ensures
        keys_unique(flat_list(c)),
    decreases c, 1int,
{
    match c {
        JValue::Object(es) => lemma_entries_dotless(es, 0),
        JValue::Array(items) => lemma_items_dotless(items, 0),
        _ => {},
    }
}

proof fn lemma_entries_dotless(es: Obj, i: int)
    requires
        keys_unique(es),
        keys_dotless_entries(es, i),
        0 <= i,
    ensures
        keys_unique(flat_list_entries(es, i)),
        forall|j: int|
            0 <= j < flat_list_entries(es, i).len() ==> exists|t: int|
                i <= t < es.len() && first_seg(#[trigger] flat_list_entries(es, i)[j].0)
                    == #[trigger] es[t].0,
    decreases es, es.len() - i,
{
    if i < es.len() {
        let k = es[i].0;
        lemma_group_dotless(k, es[i].1);
        lemma_entries_dotless(es, i + 1);
        let g = flat_group(k, es[i].1);
        let r = flat_list_entries(es, i + 1);
        let l = flat_list_entries(es, i);
        assert(l == g + r);
        assert forall|j: int| 0 <= j < l.len() implies exists|t: int|
            i <= t < es.len() && first_seg(#[trigger] l[j].0) == #[trigger] es[t].0 by {
            if j < g.len() {
                assert(l[j] == g[j]);
                assert(first_seg(g[j].0) == es[i].0);
            } else {
                assert(l[j] == r[j - g.len()]);
                let t = choose|t: int| i + 1 <= t < es.len() && first_seg(r[j - g.len()].0)
                    == #[trigger] es[t].0;
                assert(first_seg(l[j].0) == es[t].0);
            }
        }
        assert forall|a: int, b: int| 0 <= a < b < l.len() implies l[a].0 != l[b].0 by {
            if b < g.len() {
                assert(l[a] == g[a] && l[b] == g[b]);
            } else if a >= g.len() {
                assert(l[a] == r[a - g.len()] && l[b] == r[b - g.len()]);
            } else {
                assert(l[a] == g[a] && l[b] == r[b - g.len()]);
                assert(first_seg(g[a].0) == k);
                let t = choose|t: int| i + 1 <= t < es.len() && first_seg(r[b - g.len()].0)
                    == #[trigger] es[t].0;
                assert(es[i].0 != es[t].0);
            }
        }
    }
}

proof fn lemma_items_dotless(items: Seq<JValue>, i: int)
    requires
        keys_dotless_items(items, i),
        0 <= i,
    ensures
        keys_unique(flat_list_items(items, i)),
        forall|j: int|
            0 <= j < flat_list_items(items, i).len() ==> exists|t: nat|
                i <= t < items.len() && first_seg(#[trigger] flat_list_items(items, i)[j].0)
                    == #[trigger] decimal(t),
    decreases items, items.len() - i,
{
    if i < items.len() {
        let k = decimal(i as nat);
        lemma_index_seg(i as nat);
        lemma_seg_for(k, false);
        lemma_group_dotless(k, items[i]);
        lemma_items_dotless(items, i + 1);
        let g = flat_group(k, items[i]);
        let r = flat_list_items(items, i + 1);
        let l = flat_list_items(items, i);
        assert(l == g + r);
        assert forall|j: int| 0 <= j < l.len() implies exists|t: nat|
            i <= t < items.len() && first_seg(#[trigger] l[j].0) == #[trigger] decimal(t) by {
            if j < g.len() {
                assert(l[j] == g[j]);
                assert(first_seg(g[j].0) == decimal(i as nat));
            } else {
                assert(l[j] == r[j - g.len()]);
                let t = choose|t: nat| i + 1 <= t < items.len() && first_seg(r[j - g.len()].0)
                    == #[trigger] decimal(t);
                assert(first_seg(l[j].0) == decimal(t));
            }
        }
        assert forall|a: int, b: int| 0 <= a < b < l.len() implies l[a].0 != l[b].0 by {
            if b < g.len() {
                assert(l[a] == g[a] && l[b] == g[b]);
            } else if a >= g.len() {
                assert(l[a] == r[a - g.len()] && l[b] == r[b - g.len()]);
            } else {
                assert(l[a] == g[a] && l[b] == r[b - g.len()]);
                assert(first_seg(g[a].0) == k);
                let t = choose|t: nat| i + 1 <= t < items.len() && first_seg(r[b - g.len()].0)
                    == #[trigger] decimal(t);
                if decimal(t) == k {
                    lemma_decimal_injective(t, i as nat);
                }
            }
        }
    }
}

/// Flattening emits leaves under their joined paths. Every value of the
/// flattened map is a scalar or an empty object or array. When every object
/// in the value has distinct keys and no key holds `.`, the flattened map of
/// an object or array is exactly its list of leaves in depth-first order,
/// each keyed by its path segments (object keys, array indices in decimal)
/// joined with `.`.
pub proof fn law_flatten_leaves(v: JValue)
    ensures
        forall|j: int|
            0 <= j < flatten_spec(v).len() ==> !non_empty_container(#[trigger] flatten_spec(v)[j].1),
        is_container(v) && keys_dotless(v) ==> flatten_spec(v) == flat_list(v),
{
    if is_container(v) {
        lemma_flat_into_list(Seq::empty(), v, None);
        lemma_list_leaves(v);
        lemma_insert_all_leaves(Seq::empty(), flat_list(v));
        if keys_dotless(v) {
            lemma_list_dotless(v);
            assert(Seq::<(Seq<char>, JValue)>::empty() + flat_list(v) =~= flat_list(v));
            lemma_insert_all_fresh(Seq::empty(), flat_list(v));
        }
    }
}

} // verus!
