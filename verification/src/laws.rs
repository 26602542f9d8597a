//! Properties of the library as a whole.
use vstd::prelude::*;
use crate::value::{
    JValue, Obj, obj_get, obj_insert, key_index, find_from, lemma_find_from, keys_unique, valid_value,
};
use crate::defu::{merge_spec, merge_entries, merge_one, merge_skips, entries_of};
use crate::resolve::{
    is_abs, resolve_spec, normalize_spec, path_join, collapse, normalized_parts, dot, dotdot,
    join_parts,
};
use crate::destr::{
    lit_proto, strip_spec, strip_entries, strip_items, dangerous_entry, normalize_spec as normalize_value,
    normalize_entries, normalize_items, destr_spec,
};
use crate::flat::{
    flat_into, flat_child, flat_obj_from, flat_arr_from, flatten_spec, expand_from,
    insert_prefixed, place_spec, place_all, set_child, child_get, get_key_spec, key_text,
    fresh_container, PathKey, unflatten_spec,
};
use crate::text::{decimal, digit_char, is_js_ws, ws_run, digit_run, is_digit};
use crate::json::json_decode;
use crate::{
    split_lines, parse_spec, parse_flat, parse_lines, parse_line, push_concat_spec, concat_onto,
    match_key_val, is_push_key,
};

verus! {

// ---------------------------------------------------------------------------
// Object lookups.
/// Looking a key up after an insert finds the inserted value at that key and
/// the old value at every other key.
pub proof fn lemma_get_after_insert(m: Obj, k: Seq<char>, v: JValue, k2: Seq<char>)
    ensures
        obj_get(obj_insert(m, k, v), k2) == if k2 == k {
            Some(v)
        } else {
            obj_get(m, k2)
        },
{
    crate::value::lemma_key_index(m, k);
    crate::value::lemma_key_index(m, k2);
    let r = obj_insert(m, k, v);
    crate::value::lemma_key_index(r, k2);
    let j = key_index(m, k);
    let j2 = key_index(r, k2);
    if k2 == k {
        if j >= 0 {
            assert(r[j].0 == k);
            if j2 != j {
                if j2 >= 0 && j2 < j {
                    assert(r[j2] == m[j2]);
                }
            }
        } else {
            assert(r[m.len() as int].0 == k);
            if j2 >= 0 && j2 < m.len() {
                assert(r[j2] == m[j2]);
            }
        }
    } else {
        let i2 = key_index(m, k2);
        if i2 >= 0 {
            assert(r[i2].0 == k2);
            if j2 >= 0 && j2 < i2 {
                assert(r[j2].0 == m[j2].0);
            }
            assert(j2 == i2);
        } else {
            if j2 >= 0 {
                if j2 < m.len() {
                    assert(r[j2].0 == m[j2].0);
                } else {
                    assert(r[j2].0 == k);
                }
            }
        }
    }
}

// ---------------------------------------------------------------------------
// Merging.
/// The value a merge leaves at key `k`: when the base has a usable entry for
/// `k` it is merged onto the defaults' value (scalars win, arrays concatenate
/// base first, objects merge recursively); a missing base entry, a `null`
/// base value, or a guarded key leaves the defaults' value.
pub open spec fn merged_at(bm: Obj, dm: Obj, k: Seq<char>) -> Option<JValue> {
    let j = key_index(bm, k);
    if j < 0 || merge_skips(k, bm[j].1) {
        obj_get(dm, k)
    } else {
        Some(merge_one(bm[j].1, obj_get(dm, k)))
    }
}

proof fn lemma_merge_entries_at(obj: Obj, bm: Obj, i: int, k: Seq<char>)
    requires
        0 <= i <= bm.len(),
        keys_unique(bm),
    ensures
        obj_get(merge_entries(obj, bm, i), k) == {
            let j = find_from(bm, k, i);
            if j < 0 || merge_skips(k, bm[j].1) {
                obj_get(obj, k)
            } else {
                Some(merge_one(bm[j].1, obj_get(obj, k)))
            }
        },
    decreases bm.len() - i,
{
    lemma_find_from(bm, k, i);
    if i < bm.len() {
        let next = if merge_skips(bm[i].0, bm[i].1) {
            obj
        } else {
            obj_insert(obj, bm[i].0, merge_one(bm[i].1, obj_get(obj, bm[i].0)))
        };
        lemma_merge_entries_at(next, bm, i + 1, k);
        lemma_find_from(bm, k, i + 1);
        if !merge_skips(bm[i].0, bm[i].1) {
            lemma_get_after_insert(obj, bm[i].0, merge_one(bm[i].1, obj_get(obj, bm[i].0)), k);
        }
        if bm[i].0 == k {
            assert(find_from(bm, k, i) == i);
            assert(find_from(bm, k, i + 1) == -1) by {
                if find_from(bm, k, i + 1) >= 0 {
                    assert(bm[find_from(bm, k, i + 1)].0 == bm[i].0);
                }
            }
        } else {
            assert(find_from(bm, k, i) == find_from(bm, k, i + 1));
        }
    }
}

/// Merging is decided key by key: at every key the merged object holds what
/// [`merged_at`] says, for a valid base object.
pub proof fn law_merge_keywise(base: JValue, defaults: JValue, k: Seq<char>)
    requires
        base is Object,
        valid_value(base),
    ensures
        merge_spec(base, defaults) is Object,
        obj_get(merge_spec(base, defaults)->Object_0, k) == merged_at(
            base->Object_0,
            entries_of(defaults),
            k,
        ),
{
    lemma_merge_entries_at(entries_of(defaults), base->Object_0, 0, k);
}

/// A base that is not an object, or an empty object, adds nothing: the merge
/// is the defaults' entries as an object (none when the defaults are not an
/// object).
pub proof fn law_merge_empty_base(base: JValue, defaults: JValue)
    requires
        !(base is Object) || base == JValue::Object(Seq::empty()),
    ensures
        merge_spec(base, defaults) == JValue::Object(entries_of(defaults)),
{
}

/// A key is in the merge exactly when the defaults have it or the base has a
/// usable entry for it (not `null`, not `__proto__` or `constructor`); a key
/// without a usable base entry keeps the defaults' value.
pub proof fn law_merge_keys(base: JValue, defaults: JValue, k: Seq<char>)
    requires
        base is Object,
        valid_value(base),
    ensures
        obj_get(merge_spec(base, defaults)->Object_0, k) is Some <==> (obj_get(
            entries_of(defaults),
            k,
        ) is Some || (obj_get(base->Object_0, k) matches Some(b) && !merge_skips(k, b))),
        !(obj_get(base->Object_0, k) matches Some(b) && !merge_skips(k, b)) ==> obj_get(
            merge_spec(base, defaults)->Object_0,
            k,
        ) == obj_get(entries_of(defaults), k),
{
    law_merge_keywise(base, defaults, k);
    crate::value::lemma_key_index(base->Object_0, k);
}

/// At a key with a usable base entry, two arrays concatenate base first, two
/// objects merge recursively, and otherwise the base value wins (an empty
/// string or `false` included).
pub proof fn law_merge_value(base: JValue, defaults: JValue, k: Seq<char>)
    requires
        base is Object,
        valid_value(base),
        obj_get(base->Object_0, k) matches Some(b) && !merge_skips(k, b),
    ensures
        ({
            let b = obj_get(base->Object_0, k)->0;
            let d = obj_get(entries_of(defaults), k);
            obj_get(merge_spec(base, defaults)->Object_0, k) == Some(
                match (b, d) {
                    (JValue::Array(ba), Some(JValue::Array(da))) => JValue::Array(ba + da),
                    (JValue::Object(_), Some(JValue::Object(dm))) => merge_spec(
                        b,
                        JValue::Object(dm),
                    ),
                    _ => b,
                },
            )
        }),
{
    law_merge_keywise(base, defaults, k);
    crate::value::lemma_key_index(base->Object_0, k);
}

// ---------------------------------------------------------------------------
// Paths.
proof fn lemma_normalize_abs(p: Seq<char>)
    requires
        is_abs(p),
    ensures
        is_abs(normalize_spec(p)),
{
}

proof fn lemma_join_abs(a: Seq<char>, b: Seq<char>)
    requires
        is_abs(a),
    ensures
        is_abs(path_join(a, b)),
{
}

/// A resolved path is absolute whenever the working directory is.
pub proof fn law_resolve_absolute(cwd: Seq<char>, dir: Seq<char>, name: Seq<char>)
    requires
        is_abs(cwd),
    ensures
        is_abs(resolve_spec(cwd, dir, name)),
{
    if is_abs(name) {
        lemma_normalize_abs(name);
    } else if is_abs(dir) {
        lemma_join_abs(dir, name);
        lemma_normalize_abs(path_join(dir, name));
    } else {
        lemma_join_abs(cwd, dir);
        lemma_join_abs(path_join(cwd, dir), name);
        lemma_normalize_abs(path_join(path_join(cwd, dir), name));
    }
}

/// Whether components are normalized: none is empty or `.`, the `..`
/// components all come first, and an absolute path has none.
pub open spec fn parts_normal(out: Seq<Seq<char>>, abs: bool) -> bool {
    &&& forall|j: int| 0 <= j < out.len() ==> #[trigger] out[j].len() > 0 && out[j] != dot()
    &&& forall|i: int, j: int|
        0 <= i < j < out.len() && #[trigger] out[j] == dotdot() ==> #[trigger] out[i] == dotdot()
    &&& abs ==> forall|j: int| 0 <= j < out.len() ==> #[trigger] out[j] != dotdot()
}

proof fn lemma_collapse_normal(out: Seq<Seq<char>>, parts: Seq<Seq<char>>, i: int, abs: bool)
    requires
        0 <= i,
        parts_normal(out, abs),
    ensures
        parts_normal(collapse(out, parts, i, abs), abs),
    decreases parts.len() - i,
{
    if i < parts.len() {
        let p = parts[i];
        let next = if p.len() == 0 || p == dot() {
            out
        } else if p == dotdot() {
            if out.len() > 0 && out.last() != dotdot() {
                out.drop_last()
            } else if abs {
                out
            } else {
                out.push(dotdot())
            }
        } else {
            out.push(p)
        };
        assert(parts_normal(next, abs)) by {
            if p.len() == 0 || p == dot() {
            } else if p == dotdot() {
                if out.len() > 0 && out.last() != dotdot() {
                    assert forall|a: int, b: int|
                        0 <= a < b < next.len() && #[trigger] next[b] == dotdot() implies
                        #[trigger] next[a] == dotdot() by {
                        assert(next[b] == out[b] && next[a] == out[a]);
                    }
                } else if abs {
                } else {
                    assert forall|a: int, b: int|
                        0 <= a < b < next.len() && #[trigger] next[b] == dotdot() implies
                        #[trigger] next[a] == dotdot() by {
                        if b < out.len() {
                            assert(next[b] == out[b] && next[a] == out[a]);
                        } else {
                            assert(next[a] == out[a]);
                            if out[a] != dotdot() {
                                assert(out[out.len() - 1] == dotdot());
                            }
                        }
                    }
                    assert forall|j: int| 0 <= j < next.len() implies #[trigger] next[j].len() > 0
                        && next[j] != dot() by {
                        if j < out.len() {
                            assert(next[j] == out[j]);
                        }
                    }
                }
            } else {
                assert forall|a: int, b: int|
                    0 <= a < b < next.len() && #[trigger] next[b] == dotdot() implies
                    #[trigger] next[a] == dotdot() by {
                    assert(next[b] == out[b] && next[a] == out[a]);
                }
                assert forall|j: int| 0 <= j < next.len() implies #[trigger] next[j].len() > 0
                    && next[j] != dot() by {
                    if j < out.len() {
                        assert(next[j] == out[j]);
                    }
                }
                assert(abs ==> forall|j: int| 0 <= j < next.len() ==> #[trigger] next[j] != dotdot())
                    by {
                    if abs {
                        assert forall|j: int| 0 <= j < next.len() implies #[trigger] next[j]
                            != dotdot() by {
                            if j < out.len() {
                                assert(next[j] == out[j]);
                            }
                        }
                    }
                }
            }
        }
        lemma_collapse_normal(next, parts, i + 1, abs);
    }
}

/// Normalizing resolves `.` and `..` textually: the result is the path's
/// leading `/` (if any) and then components joined by `/`, none of them empty
/// or `.`; any `..` components come first, and an absolute path keeps none.
pub proof fn law_normalize_components(p: Seq<char>)
    ensures
        normalize_spec(p) == if is_abs(p) {
            seq!['/'] + join_parts(normalized_parts(p), 0)
        } else {
            join_parts(normalized_parts(p), 0)
        },
        parts_normal(normalized_parts(p), is_abs(p)),
{
    lemma_collapse_normal(Seq::empty(), crate::flat::split_by(p, '/'), 0, is_abs(p));
}

// ---------------------------------------------------------------------------
// Prototype-pollution freedom.
/// Whether no object anywhere inside `v` has the key `__proto__`.
pub open spec fn no_proto(v: JValue) -> bool
    decreases v, 0int,
{
    match v {
        JValue::Object(es) => entries_np(es, 0),
        JValue::Array(items) => items_np(items, 0),
        _ => true,
    }
}

/// Whether the entries from index `i` have keys other than `__proto__` and
/// values free of it.
pub open spec fn entries_np(es: Obj, i: int) -> bool
    decreases es, es.len() - i,
{
    if 0 <= i < es.len() {
        es[i].0 != lit_proto() && no_proto(es[i].1) && entries_np(es, i + 1)
    } else {
        true
    }
}

/// Whether an entry has a key other than `__proto__` and a value free of it.
pub open spec fn entry_ok(e: (Seq<char>, JValue)) -> bool {
    e.0 != lit_proto() && no_proto(e.1)
}

/// Whether the items from index `i` are free of `__proto__` keys.
pub open spec fn items_np(items: Seq<JValue>, i: int) -> bool
    decreases items, items.len() - i,
{
    if 0 <= i < items.len() {
        no_proto(items[i]) && items_np(items, i + 1)
    } else {
        true
    }
}

proof fn lemma_entries_np(es: Obj, i: int)
    requires
        0 <= i <= es.len(),
    ensures
        entries_np(es, i) <==> forall|j: int| i <= j < es.len() ==> #[trigger] entry_ok(es[j]),
    decreases es.len() - i,
{
    if i < es.len() {
        lemma_entries_np(es, i + 1);
        if entries_np(es, i) {
            assert(entry_ok(es[i]));
            assert forall|j: int| i <= j < es.len() implies #[trigger] entry_ok(es[j]) by {
                if j > i {
                }
            }
        }
        if forall|j: int| i <= j < es.len() ==> #[trigger] entry_ok(es[j]) {
            assert(entry_ok(es[i]));
            assert(entries_np(es, i + 1));
            assert(entries_np(es, i));
        }
    }
}

proof fn lemma_items_np(items: Seq<JValue>, i: int)
    requires
        0 <= i <= items.len(),
    ensures
        items_np(items, i) <==> forall|j: int| i <= j < items.len() ==> #[trigger] no_proto(items[j]),
    decreases items.len() - i,
{
    if i < items.len() {
        lemma_items_np(items, i + 1);
        if items_np(items, i) {
            assert(no_proto(items[i]));
            assert forall|j: int| i <= j < items.len() implies #[trigger] no_proto(items[j]) by {
                if j > i {
                }
            }
        }
        if forall|j: int| i <= j < items.len() ==> #[trigger] no_proto(items[j]) {
            assert(no_proto(items[i]));
            assert(items_np(items, i + 1));
            assert(items_np(items, i));
        }
    }
}

/// Every entry has a key other than `__proto__` and a value free of it.
pub open spec fn entries_ok(m: Obj) -> bool {
    forall|i: int| 0 <= i < m.len() ==> #[trigger] entry_ok(m[i])
}

/// Every value of the map is free of `__proto__` keys.
pub open spec fn values_ok(m: Obj) -> bool {
    forall|i: int| 0 <= i < m.len() ==> #[trigger] no_proto(m[i].1)
}

/// Every item is free of `__proto__` keys.
pub open spec fn items_ok(items: Seq<JValue>) -> bool {
    forall|i: int| 0 <= i < items.len() ==> #[trigger] no_proto(items[i])
}

proof fn lemma_no_proto_obj(es: Obj)
    ensures
        no_proto(JValue::Object(es)) == entries_ok(es),
{
    lemma_entries_np(es, 0);
}

proof fn lemma_no_proto_arr(items: Seq<JValue>)
    ensures
        no_proto(JValue::Array(items)) == items_ok(items),
{
    lemma_items_np(items, 0);
}

proof fn lemma_insert_entries_ok(m: Obj, k: Seq<char>, v: JValue)
    requires
        entries_ok(m),
        k != lit_proto(),
        no_proto(v),
    ensures
        entries_ok(obj_insert(m, k, v)),
{
    crate::value::lemma_key_index(m, k);
    let r = obj_insert(m, k, v);
    assert forall|i: int| 0 <= i < r.len() implies #[trigger] entry_ok(r[i]) by {
        if i < m.len() && r[i] == m[i] {
        }
    }
}

proof fn lemma_insert_values_ok(m: Obj, k: Seq<char>, v: JValue)
    requires
        values_ok(m),
        no_proto(v),
    ensures
        values_ok(obj_insert(m, k, v)),
{
    crate::value::lemma_key_index(m, k);
    let r = obj_insert(m, k, v);
    assert forall|i: int| 0 <= i < r.len() implies #[trigger] no_proto(r[i].1) by {
        if i < m.len() && r[i] == m[i] {
        }
    }
}

proof fn lemma_get_ok(m: Obj, k: Seq<char>)
    requires
        values_ok(m),
    ensures
        obj_get(m, k) matches Some(x) ==> no_proto(x),
{
    crate::value::lemma_key_index(m, k);
}

proof fn lemma_strip(v: JValue)
    ensures
        no_proto(strip_spec(v)),
    decreases v, 0int,
{
    match v {
        JValue::Object(es) => {
            lemma_strip_entries(Seq::empty(), es, 0);
            lemma_no_proto_obj(strip_entries(Seq::empty(), es, 0));
        },
        JValue::Array(items) => {
            lemma_strip_items(items, 0);
            lemma_no_proto_arr(strip_items(items, 0));
        },
        _ => {},
    }
}

proof fn lemma_strip_entries(acc: Obj, es: Obj, i: int)
    requires
        entries_ok(acc),
    ensures
        entries_ok(strip_entries(acc, es, i)),
    decreases es, es.len() - i,
{
    if 0 <= i < es.len() {
        let next = if dangerous_entry(es[i].0, es[i].1) {
            acc
        } else {
            obj_insert(acc, es[i].0, strip_spec(es[i].1))
        };
        if !dangerous_entry(es[i].0, es[i].1) {
            lemma_strip(es[i].1);
            lemma_insert_entries_ok(acc, es[i].0, strip_spec(es[i].1));
        }
        lemma_strip_entries(next, es, i + 1);
    }
}

proof fn lemma_strip_items(items: Seq<JValue>, i: int)
    ensures
        items_ok(strip_items(items, i)),
    decreases items, items.len() - i,
{
    if 0 <= i < items.len() {
        lemma_strip(items[i]);
        lemma_strip_items(items, i + 1);
        let r = strip_items(items, i);
        assert forall|j: int| 0 <= j < r.len() implies #[trigger] no_proto(r[j]) by {
            if j > 0 {
                assert(r[j] == strip_items(items, i + 1)[j - 1]);
            }
        }
    }
}

proof fn lemma_normalize(v: JValue)
    requires
        no_proto(v),
    ensures
        no_proto(normalize_value(v)),
    decreases v, 0int,
{
    match v {
        JValue::Object(es) => {
            lemma_no_proto_obj(es);
            lemma_normalize_entries(Seq::empty(), es, 0);
            lemma_no_proto_obj(normalize_entries(Seq::empty(), es, 0));
        },
        JValue::Array(items) => {
            lemma_no_proto_arr(items);
            lemma_normalize_items(items, 0);
            lemma_no_proto_arr(normalize_items(items, 0));
        },
        _ => {},
    }
}

proof fn lemma_normalize_entries(acc: Obj, es: Obj, i: int)
    requires
        entries_ok(acc),
        entries_ok(es),
    ensures
        entries_ok(normalize_entries(acc, es, i)),
    decreases es, es.len() - i,
{
    if 0 <= i < es.len() {
        assert(entry_ok(es[i]));
        lemma_normalize(es[i].1);
        lemma_insert_entries_ok(acc, es[i].0, normalize_value(es[i].1));
        lemma_normalize_entries(obj_insert(acc, es[i].0, normalize_value(es[i].1)), es, i + 1);
    }
}

proof fn lemma_normalize_items(items: Seq<JValue>, i: int)
    requires
        items_ok(items),
    ensures
        items_ok(normalize_items(items, i)),
    decreases items, items.len() - i,
{
    if 0 <= i < items.len() {
        assert(no_proto(items[i]));
        lemma_normalize(items[i]);
        lemma_normalize_items(items, i + 1);
        let r = normalize_items(items, i);
        assert forall|j: int| 0 <= j < r.len() implies #[trigger] no_proto(r[j]) by {
            if j > 0 {
                assert(r[j] == normalize_items(items, i + 1)[j - 1]);
            }
        }
    }
}

proof fn lemma_destr(v: Seq<char>)
    ensures
        no_proto(destr_spec(v)),
{
    match json_decode(v) {
        Ok(j) => {
            lemma_strip(j);
            lemma_normalize(strip_spec(j));
        },
        Err(_) => {},
    }
}

proof fn lemma_concat_onto(base: Seq<JValue>, value: JValue)
    requires
        items_ok(base),
        no_proto(value),
    ensures
        no_proto(concat_onto(base, value)),
{
    match value {
        JValue::Array(items) => {
            lemma_no_proto_arr(items);
            let r = base + items;
            lemma_no_proto_arr(r);
            assert forall|j: int| 0 <= j < r.len() implies #[trigger] no_proto(r[j]) by {
                if j >= base.len() {
                    assert(r[j] == items[j - base.len()]);
                }
            }
        },
        _ => {
            let r = base.push(value);
            lemma_no_proto_arr(r);
            assert forall|j: int| 0 <= j < r.len() implies #[trigger] no_proto(r[j]) by {
                if j < base.len() {
                    assert(r[j] == base[j]);
                }
            }
        },
    }
}

proof fn lemma_push(existing: Option<JValue>, value: JValue)
    requires
        existing matches Some(x) ==> no_proto(x),
        no_proto(value),
    ensures
        no_proto(push_concat_spec(existing, value)),
{
    assert(items_ok(Seq::<JValue>::empty()));
    match existing {
        None => lemma_concat_onto(Seq::empty(), value),
        Some(cur) => {
            lemma_concat_onto(Seq::empty(), value);
            match cur {
                JValue::Array(arr) => {
                    lemma_no_proto_arr(arr);
                    lemma_concat_onto(arr, value);
                },
                _ => {},
            }
        },
    }
}

proof fn lemma_parse_lines(config: Obj, lines: Seq<Seq<char>>, i: int)
    requires
        values_ok(config),
    ensures
        values_ok(parse_lines(config, lines, i)),
    decreases lines.len() - i,
{
    if 0 <= i < lines.len() {
        let line = lines[i];
        match match_key_val(line) {
            None => {},
            Some((key, raw)) => {
                let value = destr_spec(crate::text::trim(raw));
                lemma_destr(crate::text::trim(raw));
                if is_push_key(key) {
                    let nk = key.subrange(0, key.len() - 2);
                    lemma_get_ok(config, nk);
                    lemma_push(obj_get(config, nk), value);
                    lemma_insert_values_ok(config, nk, push_concat_spec(obj_get(config, nk), value));
                } else {
                    lemma_insert_values_ok(config, key, value);
                }
            },
        }
        lemma_parse_lines(parse_line(config, line), lines, i + 1);
    }
}

proof fn lemma_flat_into(m: Obj, v: JValue, p: Option<Seq<char>>)
    requires
        values_ok(m),
        no_proto(v),
    ensures
        values_ok(flat_into(m, v, p)),
    decreases v, 1int,
{
    match v {
        JValue::Object(es) => {
            lemma_no_proto_obj(es);
            lemma_flat_obj_from(m, es, p, 0);
        },
        JValue::Array(items) => {
            lemma_no_proto_arr(items);
            lemma_flat_arr_from(m, items, p, 0);
        },
        _ => {},
    }
}

proof fn lemma_flat_child(m: Obj, key: Seq<char>, child: JValue)
    requires
        values_ok(m),
        no_proto(child),
    ensures
        values_ok(flat_child(m, key, child)),
    decreases child, 2int,
{
    if crate::flat::non_empty_container(child) {
        lemma_flat_into(m, child, Some(key));
    } else {
        lemma_insert_values_ok(m, key, child);
    }
}

proof fn lemma_flat_obj_from(m: Obj, es: Obj, p: Option<Seq<char>>, i: int)
    requires
        values_ok(m),
        entries_ok(es),
    ensures
        values_ok(flat_obj_from(m, es, p, i)),
    decreases es, es.len() - i,
{
    if 0 <= i < es.len() {
        assert(entry_ok(es[i]));
        let key = crate::flat::join_key(p, es[i].0);
        lemma_flat_child(m, key, es[i].1);
        lemma_flat_obj_from(flat_child(m, key, es[i].1), es, p, i + 1);
    }
}

proof fn lemma_flat_arr_from(m: Obj, items: Seq<JValue>, p: Option<Seq<char>>, i: int)
    requires
        values_ok(m),
        items_ok(items),
    ensures
        values_ok(flat_arr_from(m, items, p, i)),
    decreases items, items.len() - i,
{
    if 0 <= i < items.len() {
        assert(no_proto(items[i]));
        let key = crate::flat::join_key(p, decimal(i as nat));
        lemma_flat_child(m, key, items[i]);
        lemma_flat_arr_from(flat_child(m, key, items[i]), items, p, i + 1);
    }
}

proof fn lemma_insert_prefixed(acc: Obj, key: Seq<char>, flat: Obj, i: int)
    requires
        values_ok(acc),
        values_ok(flat),
    ensures
        values_ok(insert_prefixed(acc, key, flat, i)),
    decreases flat.len() - i,
{
    if 0 <= i < flat.len() {
        assert(no_proto(flat[i].1));
        lemma_insert_values_ok(acc, key + seq!['.'] + flat[i].0, flat[i].1);
        lemma_insert_prefixed(
            obj_insert(acc, key + seq!['.'] + flat[i].0, flat[i].1),
            key,
            flat,
            i + 1,
        );
    }
}

proof fn lemma_expand(acc: Obj, es: Obj, i: int)
    requires
        values_ok(acc),
        values_ok(es),
    ensures
        values_ok(expand_from(acc, es, i)),
    decreases es.len() - i,
{
    if 0 <= i < es.len() {
        assert(no_proto(es[i].1));
        if crate::flat::non_empty_container(es[i].1) {
            assert(values_ok(Seq::<(Seq<char>, JValue)>::empty()));
            lemma_flat_into(Seq::empty(), es[i].1, None);
            lemma_insert_prefixed(acc, es[i].0, flatten_spec(es[i].1), 0);
            lemma_expand(insert_prefixed(acc, es[i].0, flatten_spec(es[i].1), 0), es, i + 1);
        } else {
            lemma_insert_values_ok(acc, es[i].0, es[i].1);
            lemma_expand(obj_insert(acc, es[i].0, es[i].1), es, i + 1);
        }
    }
}

proof fn lemma_decimal_last(n: nat)
    ensures
        decimal(n).len() > 0,
        decimal(n).last() == digit_char(n % 10),
    decreases n,
{
}

proof fn lemma_key_text(seg: Seq<char>)
    requires
        seg != lit_proto(),
    ensures
        key_text(get_key_spec(seg)) != lit_proto(),
{
    match get_key_spec(seg) {
        PathKey::Index(n) => {
            lemma_decimal_last(n);
            assert(lit_proto().last() == '_');
        },
        PathKey::Name(_) => {},
    }
}

proof fn lemma_set_child(cur: JValue, key: PathKey, val: JValue)
    requires
        no_proto(cur),
        no_proto(val),
        key_text(key) != lit_proto(),
    ensures
        no_proto(set_child(cur, key, val)),
{
    match cur {
        JValue::Object(m) => {
            lemma_no_proto_obj(m);
            lemma_insert_entries_ok(m, key_text(key), val);
            lemma_no_proto_obj(obj_insert(m, key_text(key), val));
        },
        JValue::Array(items) => {
            match key {
                PathKey::Index(i) => {
                    lemma_no_proto_arr(items);
                    if i < items.len() {
                        let r = items.update(i as int, val);
                        lemma_no_proto_arr(r);
                        assert forall|j: int| 0 <= j < r.len() implies #[trigger] no_proto(r[j]) by {
                            if j != i {
                                assert(r[j] == items[j]);
                            }
                        }
                    } else {
                        let pad = Seq::new((i - items.len()) as nat, |j: int| JValue::Null);
                        let r = (items + pad).push(val);
                        lemma_no_proto_arr(r);
                        assert forall|j: int| 0 <= j < r.len() implies #[trigger] no_proto(r[j]) by {
                            if j < items.len() {
                                assert(r[j] == items[j]);
                            } else if j < items.len() + pad.len() {
                                assert(r[j] == JValue::Null);
                            }
                        }
                    }
                },
                PathKey::Name(_) => {},
            }
        },
        _ => {},
    }
}

proof fn lemma_child_get(cur: JValue, key: PathKey)
    requires
        no_proto(cur),
    ensures
        child_get(cur, key) matches Some(c) ==> no_proto(c),
{
    match cur {
        JValue::Object(m) => {
            lemma_no_proto_obj(m);
            crate::value::lemma_key_index(m, key_text(key));
            let j = key_index(m, key_text(key));
            if j >= 0 {
                assert(entry_ok(m[j]));
            }
        },
        JValue::Array(items) => {
            match key {
                PathKey::Index(i) => {
                    lemma_no_proto_arr(items);
                    if i < items.len() {
                        assert(no_proto(items[i as int]));
                    }
                },
                _ => {},
            }
        },
        _ => {},
    }
}

proof fn lemma_place(cur: JValue, segs: Seq<Seq<char>>, leaf: JValue)
    requires
        no_proto(cur),
        no_proto(leaf),
    ensures
        no_proto(place_spec(cur, segs, leaf)),
    decreases segs.len(),
{
    if segs.len() == 0 || segs[0] == lit_proto() {
    } else {
        let key = get_key_spec(segs[0]);
        lemma_key_text(segs[0]);
        if segs.len() == 1 {
            lemma_set_child(cur, key, leaf);
        } else if cur is Array && key is Name {
        } else {
            lemma_child_get(cur, key);
            let child = if crate::flat::child_is_container(cur, key) {
                child_get(cur, key)->0
            } else {
                fresh_container(get_key_spec(segs[1]) is Index)
            };
            lemma_no_proto_arr(Seq::empty());
            lemma_no_proto_obj(Seq::empty());
            assert(no_proto(child));
            lemma_place(child, segs.drop_first(), leaf);
            lemma_set_child(cur, key, place_spec(child, segs.drop_first(), leaf));
        }
    }
}

proof fn lemma_place_all(root: JValue, ex: Obj, i: int)
    requires
        no_proto(root),
        values_ok(ex),
    ensures
        no_proto(place_all(root, ex, i)),
    decreases ex.len() - i,
{
    if 0 <= i < ex.len() {
        assert(no_proto(ex[i].1));
        let segs = crate::flat::split_by(ex[i].0, '.');
        lemma_place(root, segs, ex[i].1);
        lemma_place_all(place_spec(root, segs, ex[i].1), ex, i + 1);
    }
}

/// Parsing in nested mode never yields an object with a `__proto__` key, at
/// any depth: a `__proto__` line key is skipped, a dotted path stops at a
/// `__proto__` segment, and decoded JSON objects lose such keys.
pub proof fn law_parse_no_proto(contents: Seq<char>)
    ensures
        no_proto(parse_spec(contents, false)),
{
    assert(values_ok(Seq::<(Seq<char>, JValue)>::empty()));
    lemma_parse_lines(Seq::empty(), crate::split_lines(contents), 0);
    let m = parse_flat(contents);
    lemma_expand(Seq::empty(), m, 0);
    lemma_no_proto_obj(Seq::empty());
    lemma_place_all(JValue::Object(Seq::empty()), expand_from(Seq::empty(), m, 0), 0);
}

// ---------------------------------------------------------------------------
// Quoting and flattening.
/// A value wrapped in double quotes and free of backslashes reads as the
/// string between the quotes.
pub proof fn law_quoted_stays_string(s: Seq<char>)
    requires
        !s.contains('\\'),
    ensures
        destr_spec(seq!['"'] + s + seq!['"']) == JValue::Str(s),
{
    let t = seq!['"'] + s + seq!['"'];
    assert(t[0] == '"');
    assert(t[t.len() - 1] == '"');
    assert(!t.contains('\\')) by {
        if t.contains('\\') {
            let j = choose|j: int| 0 <= j < t.len() && t[j] == '\\';
            assert(0 < j < t.len() - 1);
            assert(t[j] == s[j - 1]);
        }
    }
    assert(t.subrange(1, t.len() - 1) =~= s);
}

proof fn lemma_flat_into_unique(m: Obj, v: JValue, p: Option<Seq<char>>)
    requires
        keys_unique(m),
    ensures
        keys_unique(flat_into(m, v, p)),
    decreases v, 1int,
{
    match v {
        JValue::Object(es) => lemma_flat_obj_unique(m, es, p, 0),
        JValue::Array(items) => lemma_flat_arr_unique(m, items, p, 0),
        _ => {},
    }
}

proof fn lemma_flat_child_unique(m: Obj, key: Seq<char>, child: JValue)
    requires
        keys_unique(m),
    ensures
        keys_unique(flat_child(m, key, child)),
    decreases child, 2int,
{
    if crate::flat::non_empty_container(child) {
        lemma_flat_into_unique(m, child, Some(key));
    } else {
        crate::value::lemma_insert_keeps_unique(m, key, child);
    }
}

proof fn lemma_flat_obj_unique(m: Obj, es: Obj, p: Option<Seq<char>>, i: int)
    requires
        keys_unique(m),
    ensures
        keys_unique(flat_obj_from(m, es, p, i)),
    decreases es, es.len() - i,
{
    if 0 <= i < es.len() {
        let key = crate::flat::join_key(p, es[i].0);
        lemma_flat_child_unique(m, key, es[i].1);
        lemma_flat_obj_unique(flat_child(m, key, es[i].1), es, p, i + 1);
    }
}

proof fn lemma_flat_arr_unique(m: Obj, items: Seq<JValue>, p: Option<Seq<char>>, i: int)
    requires
        keys_unique(m),
    ensures
        keys_unique(flat_arr_from(m, items, p, i)),
    decreases items, items.len() - i,
{
    if 0 <= i < items.len() {
        let key = crate::flat::join_key(p, decimal(i as nat));
        lemma_flat_child_unique(m, key, items[i]);
        lemma_flat_arr_unique(flat_child(m, key, items[i]), items, p, i + 1);
    }
}

/// Flattening gives a map: no dotted key occurs twice.
pub proof fn law_flatten_keys_unique(v: JValue)
    ensures
        keys_unique(flatten_spec(v)),
{
    assert(keys_unique(Seq::<(Seq<char>, JValue)>::empty()));
    lemma_flat_into_unique(Seq::empty(), v, None);
}

// ---------------------------------------------------------------------------
// Lines.
/// Apply the lines of `l` to `config`, in order.
pub open spec fn parse_seq(config: Obj, l: Seq<Seq<char>>) -> Obj
    decreases l.len(),
{
    if l.len() == 0 {
        config
    } else {
        parse_seq(parse_line(config, l[0]), l.drop_first())
    }
}

proof fn lemma_parse_lines_seq(config: Obj, l: Seq<Seq<char>>, i: int)
    requires
        0 <= i <= l.len(),
    ensures
        parse_lines(config, l, i) == parse_seq(config, l.skip(i)),
    decreases l.len() - i,
{
    if i < l.len() {
        assert(l.skip(i).drop_first() =~= l.skip(i + 1));
        assert(l.skip(i)[0] == l[i]);
        lemma_parse_lines_seq(parse_line(config, l[i]), l, i + 1);
    } else {
        assert(l.skip(i).len() == 0);
    }
}

proof fn lemma_parse_flat_seq(contents: Seq<char>)
    ensures
        parse_flat(contents) == parse_seq(Seq::empty(), split_lines(contents)),
{
    let l = split_lines(contents);
    lemma_parse_lines_seq(Seq::empty(), l, 0);
    assert(l.skip(0) =~= l);
}

proof fn lemma_parse_seq_concat(config: Obj, a: Seq<Seq<char>>, b: Seq<Seq<char>>)
    ensures
        parse_seq(config, a + b) == parse_seq(parse_seq(config, a), b),
    decreases a.len(),
{
    if a.len() == 0 {
        assert(a + b =~= b);
    } else {
        assert((a + b).drop_first() =~= a.drop_first() + b);
        assert((a + b)[0] == a[0]);
        lemma_parse_seq_concat(parse_line(config, a[0]), a.drop_first(), b);
    }
}

proof fn lemma_parse_seq_push(config: Obj, a: Seq<Seq<char>>, x: Seq<char>)
    ensures
        parse_seq(config, a.push(x)) == parse_line(parse_seq(config, a), x),
{
    lemma_parse_seq_concat(config, a, seq![x]);
    assert(a + seq![x] =~= a.push(x));
    let y = parse_seq(config, a);
    assert(seq![x].drop_first().len() == 0);
    assert(parse_seq(parse_line(y, x), seq![x].drop_first()) == parse_line(y, x));
}

/// Whether a line leaves the config as it is: it does not match `key=value`,
/// or its key is empty, `__proto__` or `constructor`.
pub open spec fn skipped_line(l: Seq<char>) -> bool {
    match match_key_val(l) {
        None => true,
        Some((k, _)) => k.len() == 0 || k == lit_proto() || k == crate::destr::lit_constructor(),
    }
}

/// A blank, comment or otherwise non-matching line, and a line with a guarded
/// key, leave the parse result as it is, wherever the line stands.
pub proof fn law_parse_skips_line(a: Seq<char>, l: Seq<char>, b: Seq<char>, flat: bool)
    requires
        skipped_line(l),
        forall|i: int| 0 <= i < l.len() ==> !crate::is_line_sep(#[trigger] l[i]),
    ensures
        parse_spec(a + seq!['\n'] + l + seq!['\n'] + b, flat) == parse_spec(
            a + seq!['\n'] + b,
            flat,
        ),
{
    let nl = seq!['\n'];
    let whole = a + nl + l + nl + b;
    let rest = l + nl + b;
    assert(whole =~= a + nl + rest);
    crate::roundtrip::lemma_split_lines_concat(a, rest);
    crate::roundtrip::lemma_split_lines_concat(l, b);
    crate::roundtrip::lemma_split_lines_single(l);
    crate::roundtrip::lemma_split_lines_concat(a, b);
    let la = split_lines(a);
    let lb = split_lines(b);
    assert(split_lines(whole) == la + (seq![l] + lb));
    assert(la + (seq![l] + lb) =~= la.push(l) + lb);
    lemma_parse_flat_seq(whole);
    lemma_parse_flat_seq(a + nl + b);
    lemma_parse_seq_concat(Seq::empty(), la.push(l), lb);
    lemma_parse_seq_push(Seq::empty(), la, l);
    lemma_parse_seq_concat(Seq::empty(), la, lb);
    assert(parse_line(parse_seq(Seq::empty(), la), l) == parse_seq(Seq::empty(), la));
    assert(parse_flat(whole) == parse_flat(a + nl + b));
}

/// The text with every line feed written as a carriage return.
pub open spec fn with_cr(s: Seq<char>) -> Seq<char>
    decreases s.len(),
{
    if s.len() == 0 {
        s
    } else {
        with_cr(s.drop_last()).push(
            if s.last() == '\n' {
                '\r'
            } else {
                s.last()
            },
        )
    }
}

/// The text with every line feed written as a carriage return and a line
/// feed.
pub open spec fn with_crlf(s: Seq<char>) -> Seq<char>
    decreases s.len(),
{
    if s.len() == 0 {
        s
    } else if s.last() == '\n' {
        with_crlf(s.drop_last()).push('\r').push('\n')
    } else {
        with_crlf(s.drop_last()).push(s.last())
    }
}

/// The lines that are not empty, in order.
pub open spec fn nonblank(l: Seq<Seq<char>>) -> Seq<Seq<char>>
    decreases l.len(),
{
    if l.len() == 0 {
        l
    } else if l.last().len() == 0 {
        nonblank(l.drop_last())
    } else {
        nonblank(l.drop_last()).push(l.last())
    }
}

proof fn lemma_parse_nonblank(config: Obj, l: Seq<Seq<char>>)
    ensures
        parse_seq(config, l) == parse_seq(config, nonblank(l)),
    decreases l.len(),
{
    if l.len() > 0 {
        let l2 = l.drop_last();
        let x = l.last();
        assert(l2.push(x) =~= l);
        lemma_parse_seq_push(config, l2, x);
        lemma_parse_nonblank(config, l2);
        if x.len() == 0 {
            assert(match_key_val(x) is None);
        } else {
            lemma_parse_seq_push(config, nonblank(l2), x);
        }
    }
}

proof fn lemma_split_cr(s: Seq<char>)
    ensures
        split_lines(with_cr(s)) == split_lines(s),
    decreases s.len(),
{
    if s.len() > 0 {
        lemma_split_cr(s.drop_last());
        let w = with_cr(s);
        let c = if s.last() == '\n' { '\r' } else { s.last() };
        assert(w.drop_last() =~= with_cr(s.drop_last()));
        assert(w.last() == c);
    }
}

proof fn lemma_split_crlf(s: Seq<char>)
    ensures
        split_lines(with_crlf(s)).len() > 0,
        split_lines(s).len() > 0,
        nonblank(split_lines(with_crlf(s)).drop_last()) == nonblank(split_lines(s).drop_last()),
        split_lines(with_crlf(s)).last() == split_lines(s).last(),
    decreases s.len(),
{
    crate::roundtrip::lemma_split_lines_len(s);
    crate::roundtrip::lemma_split_lines_len(with_crlf(s));
    if s.len() > 0 {
        let s2 = s.drop_last();
        let c = s.last();
        lemma_split_crlf(s2);
        crate::roundtrip::lemma_split_lines_len(s2);
        crate::roundtrip::lemma_split_lines_len(with_crlf(s2));
        let x = with_crlf(s2);
        let a2 = split_lines(x);
        let b2 = split_lines(s2);
        let b = split_lines(s);
        let a = split_lines(with_crlf(s));
        if c == '\n' {
            let xr = x.push('\r');
            assert(with_crlf(s).drop_last() =~= xr);
            assert(xr.drop_last() =~= x);
            crate::roundtrip::lemma_split_lines_len(xr);
            assert(split_lines(xr) == a2.push(Seq::empty()));
            assert(a == a2.push(Seq::empty()).push(Seq::empty()));
            assert(b == b2.push(Seq::empty()));
            assert(a.drop_last() =~= a2.push(Seq::empty()));
            assert(b.drop_last() =~= b2);
            assert(a2.push(Seq::empty()).drop_last() =~= a2);
            assert(nonblank(a2) == nonblank(b2));
            let e: Seq<Seq<char>> = a2.push(Seq::empty());
            assert(e.last().len() == 0);
            assert(nonblank(e) == nonblank(e.drop_last()));
        } else if c == '\r' {
            assert(with_crlf(s).drop_last() =~= x);
            assert(a.drop_last() =~= a2);
            assert(b.drop_last() =~= b2);
            assert(nonblank(a2) == nonblank(b2));
        } else {
            assert(with_crlf(s).drop_last() =~= x);
            assert(a.drop_last() =~= a2.drop_last());
            assert(b.drop_last() =~= b2.drop_last());
        }
    }
}

/// Line ends written as `\n`, `\r\n` or `\r` give the same parse result.
pub proof fn law_parse_line_ends(s: Seq<char>, flat: bool)
    ensures
        parse_spec(with_crlf(s), flat) == parse_spec(s, flat),
        parse_spec(with_cr(s), flat) == parse_spec(s, flat),
{
    lemma_split_cr(s);
    lemma_parse_flat_seq(with_cr(s));
    lemma_parse_flat_seq(s);
    lemma_split_crlf(s);
    lemma_parse_flat_seq(with_crlf(s));
    let a = split_lines(with_crlf(s));
    let b = split_lines(s);
    assert(a =~= a.drop_last().push(a.last()));
    assert(b =~= b.drop_last().push(b.last()));
    assert(nonblank(a) == nonblank(b));
    lemma_parse_nonblank(Seq::empty(), a);
    lemma_parse_nonblank(Seq::empty(), b);
}

// ---------------------------------------------------------------------------
// Array slots.
/// Setting an array slot by index replaces the item there, or, past the end,
/// grows the array with `null` items up to the slot; a name leaves an array
/// unchanged.
pub proof fn law_set_child_array(items: Seq<JValue>, idx: nat, x: JValue, name: Seq<char>)
    ensures
        set_child(JValue::Array(items), PathKey::Index(idx), x) is Array,
        ({
            let r = set_child(JValue::Array(items), PathKey::Index(idx), x)->Array_0;
            &&& r.len() == if idx < items.len() {
                items.len() as int
            } else {
                idx as int + 1
            }
            &&& r[idx as int] == x
            &&& forall|i: int| 0 <= i < items.len() && i != idx ==> #[trigger] r[i] == items[i]
            &&& forall|i: int| items.len() <= i < idx ==> #[trigger] r[i] == JValue::Null
        }),
        set_child(JValue::Array(items), PathKey::Name(name), x) == JValue::Array(items),
{
    let r = set_child(JValue::Array(items), PathKey::Index(idx), x)->Array_0;
    if idx >= items.len() {
        let pad = Seq::new((idx - items.len()) as nat, |j: int| JValue::Null);
        assert(r == (items + pad).push(x));
        assert forall|i: int| 0 <= i < items.len() && i != idx implies #[trigger] r[i] == items[i] by {
            assert(r[i] == (items + pad)[i]);
        }
        assert forall|i: int| items.len() <= i < idx implies #[trigger] r[i] == JValue::Null by {
            assert(r[i] == (items + pad)[i]);
            assert((items + pad)[i] == pad[i - items.len()]);
        }
    }
}

// ---------------------------------------------------------------------------
// The line grammar.
/// Whether every character is whitespace.
pub open spec fn all_ws(s: Seq<char>) -> bool {
    forall|i: int| 0 <= i < s.len() ==> is_js_ws(#[trigger] s[i])
}

/// Whether a text is a key: non-empty, with no whitespace and no `=`.
pub open spec fn key_text_ok(k: Seq<char>) -> bool {
    k.len() > 0 && forall|i: int| 0 <= i < k.len() ==> !is_js_ws(#[trigger] k[i]) && k[i] != '='
}

/// Whether the line is whitespace, the key `k`, whitespace, `=`, whitespace
/// and the value `v`, where `v` does not start with whitespace (it may hold
/// `=` and end with whitespace).
pub open spec fn key_val_split(line: Seq<char>, k: Seq<char>, v: Seq<char>) -> bool {
    exists|w1: Seq<char>, w2: Seq<char>, w3: Seq<char>|
        line == w1 + k + w2 + seq!['='] + w3 + v && all_ws(w1) && all_ws(w2) && all_ws(w3)
            && key_text_ok(k) && (v.len() == 0 || !is_js_ws(v[0]))
}

proof fn lemma_ws_run_exact(s: Seq<char>, i: int, j: int)
    requires
        0 <= i <= j <= s.len(),
        forall|m: int| i <= m < j ==> is_js_ws(#[trigger] s[m]),
        j == s.len() || !is_js_ws(s[j]),
    ensures
        ws_run(s, i) == j,
    decreases j - i,
{
    if i < j {
        lemma_ws_run_exact(s, i + 1, j);
    }
}

proof fn lemma_key_end_exact(s: Seq<char>, i: int, j: int)
    requires
        0 <= i <= j <= s.len(),
        forall|m: int| i <= m < j ==> !is_js_ws(#[trigger] s[m]) && s[m] != '=',
        j == s.len() || is_js_ws(s[j]) || s[j] == '=',
    ensures
        crate::key_end(s, i) == j,
    decreases j - i,
{
    if i < j {
        lemma_key_end_exact(s, i + 1, j);
    }
}

proof fn lemma_key_end(s: Seq<char>, i: int)
    requires
        0 <= i <= s.len(),
    ensures
        i <= crate::key_end(s, i) <= s.len(),
        forall|m: int| i <= m < crate::key_end(s, i) ==> !is_js_ws(#[trigger] s[m]) && s[m] != '=',
        crate::key_end(s, i) < s.len() ==> is_js_ws(s[crate::key_end(s, i)]) || s[crate::key_end(
            s,
            i,
        )] == '=',
    decreases s.len() - i,
{
    if i < s.len() && !is_js_ws(s[i]) && s[i] != '=' {
        lemma_key_end(s, i + 1);
    }
}

/// A line matches `key=value` exactly when it splits as whitespace, a key,
/// whitespace, `=`, whitespace and the value; the match gives that key and
/// that value.
pub proof fn law_match_key_val(line: Seq<char>, k: Seq<char>, v: Seq<char>)
    ensures
        match_key_val(line) == Some((k, v)) <==> key_val_split(line, k, v),
{
    if key_val_split(line, k, v) {
        let (w1, w2, w3) = choose|w1: Seq<char>, w2: Seq<char>, w3: Seq<char>|
            line == w1 + k + w2 + seq!['='] + w3 + v && all_ws(w1) && all_ws(w2) && all_ws(w3)
                && key_text_ok(k) && (v.len() == 0 || !is_js_ws(v[0]));
        let a = w1.len() as int;
        let e = a + k.len();
        let r = e + w2.len();
        let q = r + 1 + w3.len();
        assert(line.len() == q + v.len());
        assert forall|m: int| 0 <= m < a implies is_js_ws(#[trigger] line[m]) by {
            assert(line[m] == w1[m]);
        }
        assert(line[a] == k[0]);
        lemma_ws_run_exact(line, 0, a);
        assert forall|m: int| a <= m < e implies !is_js_ws(#[trigger] line[m]) && line[m] != '='
            by {
            assert(line[m] == k[m - a]);
        }
        if w2.len() > 0 {
            assert(line[e] == w2[0]);
        } else {
            assert(line[e] == '=');
        }
        lemma_key_end_exact(line, a, e);
        assert forall|m: int| e <= m < r implies is_js_ws(#[trigger] line[m]) by {
            assert(line[m] == w2[m - e]);
        }
        assert(line[r] == '=');
        lemma_ws_run_exact(line, e, r);
        assert forall|m: int| r + 1 <= m < q implies is_js_ws(#[trigger] line[m]) by {
            assert(line[m] == w3[m - r - 1]);
        }
        if v.len() > 0 {
            assert(line[q] == v[0]);
        }
        lemma_ws_run_exact(line, r + 1, q);
        assert(line.subrange(a, e) =~= k);
        assert(line.skip(q) =~= v);
    }
    if match_key_val(line) == Some((k, v)) {
        let a = ws_run(line, 0);
        crate::text::lemma_ws_run(line, 0);
        let e = crate::key_end(line, a);
        lemma_key_end(line, a);
        let r = ws_run(line, e);
        crate::text::lemma_ws_run(line, e);
        let q = ws_run(line, r + 1);
        crate::text::lemma_ws_run(line, r + 1);
        let w1 = line.subrange(0, a);
        let w2 = line.subrange(e, r);
        let w3 = line.subrange(r + 1, q);
        assert(k =~= line.subrange(a, e));
        assert(v =~= line.skip(q));
        assert(line =~= w1 + k + w2 + seq!['='] + w3 + v);
        assert(all_ws(w1));
        assert(all_ws(w2));
        assert(all_ws(w3));
        assert(key_text_ok(k));
        assert(key_val_split(line, k, v));
    }
}

// ---------------------------------------------------------------------------
// The number gate.
/// Whether every character is an ASCII digit.
pub open spec fn digits_only(s: Seq<char>) -> bool {
    forall|i: int| 0 <= i < s.len() ==> is_digit(#[trigger] s[i])
}

/// Whether `f` is empty or `.` followed by 1 to 17 digits.
pub open spec fn fraction_ok(f: Seq<char>) -> bool {
    f.len() == 0 || (f[0] == '.' && 2 <= f.len() <= 18 && digits_only(f.skip(1)))
}

/// Whether `x` is empty or `e` or `E`, an optional sign and at least one
/// digit.
pub open spec fn exponent_ok(x: Seq<char>) -> bool {
    x.len() == 0 || ((x[0] == 'e' || x[0] == 'E') && {
        let rest = if x.len() > 1 && (x[1] == '+' || x[1] == '-') {
            x.skip(2)
        } else {
            x.skip(1)
        };
        rest.len() >= 1 && digits_only(rest)
    })
}

/// Whether `v` matches `^\s*-?\d{1,16}(\.\d{1,17})?([Ee][+-]?\d+)?\s*$`, with
/// `\d` an ASCII digit and `\s` a whitespace character.
pub open spec fn number_pattern(v: Seq<char>) -> bool {
    exists|w1: Seq<char>, sg: Seq<char>, d: Seq<char>, f: Seq<char>, x: Seq<char>, w2: Seq<char>|
        v == w1 + sg + d + f + x + w2 && all_ws(w1) && all_ws(w2) && (sg.len() == 0 || sg
            == seq!['-']) && 1 <= d.len() <= 16 && digits_only(d) && fraction_ok(f)
            && exponent_ok(x)
}

proof fn lemma_digit_run(s: Seq<char>, i: int)
    requires
        0 <= i <= s.len(),
    ensures
        i <= digit_run(s, i) <= s.len(),
        forall|m: int|
            i <= m < digit_run(s, i) ==> is_digit(#[trigger] s[m]),
        digit_run(s, i) < s.len() ==> !is_digit(
            s[digit_run(s, i)],
        ),
    decreases s.len() - i,
{
    if i < s.len() && is_digit(s[i]) {
        lemma_digit_run(s, i + 1);
    }
}

proof fn lemma_digit_run_exact(s: Seq<char>, i: int, j: int)
    requires
        0 <= i <= j <= s.len(),
        forall|m: int| i <= m < j ==> is_digit(#[trigger] s[m]),
        j == s.len() || !is_digit(s[j]),
    ensures
        digit_run(s, i) == j,
    decreases j - i,
{
    if i < j {
        lemma_digit_run_exact(s, i + 1, j);
    }
}

pub(crate) proof fn lemma_pattern_sig(
    v: Seq<char>,
    w1: Seq<char>,
    sg: Seq<char>,
    d: Seq<char>,
    f: Seq<char>,
    x: Seq<char>,
    w2: Seq<char>,
)
    requires
        v == w1 + sg + d + f + x + w2,
        all_ws(w1),
        all_ws(w2),
        sg.len() == 0 || sg == seq!['-'],
        1 <= d.len() <= 16,
        digits_only(d),
        fraction_ok(f),
        exponent_ok(x),
    ensures
        crate::destr::json_sig_number(v),
{
        let p0 = w1.len() as int;
        let p1 = p0 + sg.len();
        let p2 = p1 + d.len();
        let p3 = p2 + f.len();
        let p4 = p3 + x.len();
        let n = v.len() as int;
        assert(n == p4 + w2.len());
        assert forall|m: int| 0 <= m < p0 implies is_js_ws(#[trigger] v[m]) by {
            assert(v[m] == w1[m]);
        }
        if sg.len() > 0 {
            assert(v[p0] == '-');
        } else {
            assert(v[p0] == d[0]);
            assert(is_digit(d[0]));
        }
        lemma_ws_run_exact(v, 0, p0);
        assert forall|m: int| p1 <= m < p2 implies is_digit(#[trigger] v[m]) by {
            assert(v[m] == d[m - p1]);
        }
        assert forall|m: int| p4 <= m < n implies is_js_ws(#[trigger] v[m]) by {
            assert(v[m] == w2[m - p4]);
        }
        if p2 < n {
            if f.len() > 0 {
                assert(v[p2] == f[0]);
            } else if x.len() > 0 {
                assert(v[p2] == x[0]);
            } else {
                assert(v[p2] == w2[0]);
                assert(is_js_ws(w2[0]));
            }
        }
        lemma_digit_run_exact(v, p1, p2);
        if f.len() > 0 {
            assert(v[p2] == '.');
            assert forall|m: int| p2 + 1 <= m < p3 implies is_digit(#[trigger] v[m]) by {
                assert(v[m] == f[m - p2]);
                assert(f.skip(1)[m - p2 - 1] == f[m - p2]);
            }
            if p3 < n {
                if x.len() > 0 {
                    assert(v[p3] == x[0]);
                } else {
                    assert(v[p3] == w2[0]);
                    assert(is_js_ws(w2[0]));
                }
            }
            lemma_digit_run_exact(v, p2 + 1, p3);
        } else {
            if p2 < n {
                assert(v[p2] != '.');
            }
        }
        if x.len() > 0 {
            assert(v[p3] == x[0]);
            let b = if x.len() > 1 && (x[1] == '+' || x[1] == '-') {
                p3 + 2
            } else {
                p3 + 1
            };
            if x.len() > 1 {
                assert(v[p3 + 1] == x[1]);
            }
            assert forall|m: int| b <= m < p4 implies is_digit(#[trigger] v[m]) by {
                assert(v[m] == x[m - p3]);
                if b == p3 + 2 {
                    assert(x.skip(2)[m - p3 - 2] == x[m - p3]);
                } else {
                    assert(x.skip(1)[m - p3 - 1] == x[m - p3]);
                }
            }
            if p4 < n {
                assert(v[p4] == w2[0]);
                assert(is_js_ws(w2[0]));
            }
            lemma_digit_run_exact(v, b, p4);
            if x.len() == 1 {
                assert(x.skip(1).len() == 0);
            }
        } else {
            if p3 < n {
                assert(v[p3] == w2[0]);
                assert(is_js_ws(w2[0]));
            }
        }
        lemma_ws_run_exact(v, p4, n);
        assert(crate::destr::json_sig_number(v));
    }

#[verifier::rlimit(30)]
proof fn lemma_sig_pattern(v: Seq<char>)
    requires
        crate::destr::json_sig_number(v),
    ensures
        number_pattern(v),
{
        let n = v.len() as int;
        let p0 = ws_run(v, 0);
        crate::text::lemma_ws_run(v, 0);
        let p1 = if p0 < n && v[p0] == '-' {
            p0 + 1
        } else {
            p0
        };
        let p2 = digit_run(v, p1);
        lemma_digit_run(v, p1);
        let p3 = if p2 < n && v[p2] == '.' {
            digit_run(v, p2 + 1)
        } else {
            p2
        };
        if p2 < n && v[p2] == '.' {
            lemma_digit_run(v, p2 + 1);
        }
        let has_exp = p3 < n && (v[p3] == 'e' || v[p3] == 'E');
        let b = if has_exp && p3 + 1 < n && (v[p3 + 1] == '+' || v[p3 + 1] == '-') {
            p3 + 2
        } else {
            p3 + 1
        };
        let p4 = if has_exp {
            digit_run(v, b)
        } else {
            p3
        };
        if has_exp {
            lemma_digit_run(v, b);
        }
        crate::text::lemma_ws_run(v, p4);
        let w1 = v.subrange(0, p0);
        let sg = v.subrange(p0, p1);
        let d = v.subrange(p1, p2);
        let f = v.subrange(p2, p3);
        let x = v.subrange(p3, p4);
        let w2 = v.skip(p4);
        assert(v =~= w1 + sg + d + f + x + w2);
        assert(all_ws(w1));
        assert(all_ws(w2));
        if p1 > p0 {
            assert(sg =~= seq!['-']);
        }
        assert(digits_only(d));
        if p3 > p2 {
            assert(f[0] == '.');
            assert(digits_only(f.skip(1)));
        }
        assert(fraction_ok(f));
        if has_exp {
            if b == p3 + 2 {
                assert(x.skip(2) =~= v.subrange(b, p4));
            } else {
                assert(x.skip(1) =~= v.subrange(b, p4));
                if x.len() > 1 {
                    assert(x[1] == v[p3 + 1]);
                }
            }
            assert(exponent_ok(x));
        } else {
            assert(x.len() == 0);
        }
        assert(number_pattern(v));
    }

/// The number arm of the JSON gate is the pattern
/// `^\s*-?\d{1,16}(\.\d{1,17})?([Ee][+-]?\d+)?\s*$`.
pub proof fn law_json_sig_number(v: Seq<char>)
    ensures
        crate::destr::json_sig_number(v) <==> number_pattern(v),
{
    if number_pattern(v) {
        let (w1, sg, d, f, x, w2) = choose|
            w1: Seq<char>,
            sg: Seq<char>,
            d: Seq<char>,
            f: Seq<char>,
            x: Seq<char>,
            w2: Seq<char>,
        |
            v == w1 + sg + d + f + x + w2 && all_ws(w1) && all_ws(w2) && (sg.len() == 0 || sg
                == seq!['-']) && 1 <= d.len() <= 16 && digits_only(d) && fraction_ok(f)
                && exponent_ok(x);
        lemma_pattern_sig(v, w1, sg, d, f, x, w2);
    }
    if crate::destr::json_sig_number(v) {
        lemma_sig_pattern(v);
    }
}

// ---------------------------------------------------------------------------
// Decoded values.
/// The entries from index `i` that the prototype-pollution filter keeps, each
/// with its value filtered in turn.
pub open spec fn kept_entries(es: Obj, i: int) -> Obj
    decreases es.len() - i,
{
    if 0 <= i < es.len() {
        (if dangerous_entry(es[i].0, es[i].1) {
            Seq::empty()
        } else {
            seq![(es[i].0, strip_spec(es[i].1))]
        }) + kept_entries(es, i + 1)
    } else {
        Seq::empty()
    }
}

proof fn lemma_strip_kept(acc: Obj, es: Obj, i: int)
    requires
        keys_unique(es),
        0 <= i <= es.len(),
        forall|m: int| 0 <= m < acc.len() ==> exists|t: int| 0 <= t < i && #[trigger] acc[m].0 == es[t].0,
    ensures
        strip_entries(acc, es, i) == acc + kept_entries(es, i),
    decreases es.len() - i,
{
    if i < es.len() {
        if dangerous_entry(es[i].0, es[i].1) {
            assert forall|m: int| 0 <= m < acc.len() implies exists|t: int|
                0 <= t < i + 1 && #[trigger] acc[m].0 == es[t].0 by {
                let t = choose|t: int| 0 <= t < i && acc[m].0 == es[t].0;
            }
            lemma_strip_kept(acc, es, i + 1);
            assert(acc + kept_entries(es, i) =~= acc + kept_entries(es, i + 1));
        } else {
            let k = es[i].0;
            crate::value::lemma_key_index(acc, k);
            assert(key_index(acc, k) == -1) by {
                if key_index(acc, k) != -1 {
                    let m = key_index(acc, k);
                    let t = choose|t: int| 0 <= t < i && acc[m].0 == es[t].0;
                    assert(es[t].0 == es[i].0);
                }
            }
            let acc2 = acc.push((k, strip_spec(es[i].1)));
            assert(obj_insert(acc, k, strip_spec(es[i].1)) == acc2);
            assert forall|m: int| 0 <= m < acc2.len() implies exists|t: int|
                0 <= t < i + 1 && #[trigger] acc2[m].0 == es[t].0 by {
                if m < acc.len() {
                    assert(acc2[m] == acc[m]);
                    let t = choose|t: int| 0 <= t < i && acc[m].0 == es[t].0;
                } else {
                    assert(acc2[m].0 == es[i].0);
                }
            }
            lemma_strip_kept(acc2, es, i + 1);
            assert(acc2 + kept_entries(es, i + 1) =~= acc + kept_entries(es, i));
        }
    } else {
        assert(acc + kept_entries(es, i) =~= acc);
    }
}

proof fn lemma_strip_items_map(items: Seq<JValue>, i: int)
    requires
        0 <= i <= items.len(),
    ensures
        strip_items(items, i) == Seq::new((items.len() - i) as nat, |j: int| strip_spec(items[i + j])),
    decreases items.len() - i,
{
    if i < items.len() {
        lemma_strip_items_map(items, i + 1);
        assert(seq![strip_spec(items[i])] + Seq::new(
            (items.len() - i - 1) as nat,
            |j: int| strip_spec(items[i + 1 + j]),
        ) =~= Seq::new((items.len() - i) as nat, |j: int| strip_spec(items[i + j])));
    } else {
        assert(strip_items(items, i) =~= Seq::new(0, |j: int| strip_spec(items[i + j])));
    }
}

/// The prototype-pollution filter removes only what it must. In an object,
/// the `__proto__` entry is removed, and the `constructor` entry is removed
/// exactly when its value is an object with a `prototype` key; every other
/// entry stays, in its order, with its value filtered in turn. In an array
/// every item stays, in its order, filtered in turn. Anything else is left as
/// it is.
pub proof fn law_strip(v: JValue)
    requires
        valid_value(v),
    ensures
        match v {
            JValue::Object(es) => strip_spec(v) == JValue::Object(kept_entries(es, 0)),
            JValue::Array(items) => strip_spec(v) == JValue::Array(
                Seq::new(items.len(), |j: int| strip_spec(items[j])),
            ),
            _ => strip_spec(v) == v,
        },
{
    match v {
        JValue::Object(es) => {
            lemma_strip_kept(Seq::empty(), es, 0);
            assert(Seq::<(Seq<char>, JValue)>::empty() + kept_entries(es, 0) =~= kept_entries(es, 0));
        },
        JValue::Array(items) => {
            lemma_strip_items_map(items, 0);
            assert(Seq::new((items.len() - 0) as nat, |j: int| strip_spec(items[0 + j])) =~= Seq::new(
                items.len(),
                |j: int| strip_spec(items[j]),
            ));
        },
        _ => {},
    }
}

/// Pushing onto a value that is truthy and neither an array nor a string
/// does not apply: the value stays as it is.
pub proof fn law_push_onto_other(cur: JValue, value: JValue)
    requires
        !crate::is_falsy(cur),
        !(cur is Array),
        !(cur is Str),
    ensures
        push_concat_spec(Some(cur), value) == cur,
{
}

/// A value that does not look like JSON, or that the JSON decoder rejects
/// (other than a number-shaped, otherwise valid text beyond the double range,
/// which reads as `null`), stays the string it is; a decoded value loses its
/// dangerous keys and has its numbers normalized.
pub proof fn law_destr_decoded(v: Seq<char>)
    requires
        !crate::destr::quoted_fast_path(v),
        !(crate::text::trim(v).len() <= 9 && crate::destr::keyword_value(crate::text::trim(v)) is Some),
    ensures
        !crate::destr::json_sig(v) ==> destr_spec(v) == JValue::Str(v),
        (crate::destr::json_sig(v) && json_decode(v) is Err && !(crate::destr::json_sig_number(v)
            && crate::destr::lit_out_of_range().is_prefix_of(json_decode(v)->Err_0)
            && crate::destr::json_ws_only(v))) ==> destr_spec(v) == JValue::Str(v),
        (crate::destr::json_sig(v) && json_decode(v) is Ok) ==> destr_spec(v) == normalize_value(
            strip_spec(json_decode(v)->Ok_0),
        ),
{
}

// ---------------------------------------------------------------------------
// Updates.
/// A flat-mode update merges the incoming map over the existing config, key
/// by key, and keeps everything else the existing config holds. At a key
/// where the incoming map has no usable entry (none, `null`, or the key
/// `__proto__` or `constructor`) the result holds what the existing config
/// holds there (an existing non-object counts as empty). At a key with a
/// usable incoming value, two arrays concatenate incoming first, two objects
/// merge, and otherwise the incoming value wins.
pub proof fn law_update_flat(config: JValue, existing: JValue, k: Seq<char>)
    requires
        config is Object,
        valid_value(config),
    ensures
        crate::update_spec(config, existing, true) is Object,
        ({
            let r = crate::update_spec(config, existing, true)->Object_0;
            let e = obj_get(entries_of(existing), k);
            let inc = obj_get(config->Object_0, k);
            let usable = inc is Some && !(k == lit_proto() || k == crate::destr::lit_constructor()
                || inc->0 is Null);
            &&& !usable ==> obj_get(r, k) == e
            &&& usable ==> obj_get(r, k) == Some(
                match (inc->0, e) {
                    (JValue::Array(ca), Some(JValue::Array(ea))) => JValue::Array(ca + ea),
                    (JValue::Object(_), Some(JValue::Object(em))) => merge_spec(
                        inc->0,
                        JValue::Object(em),
                    ),
                    _ => inc->0,
                },
            )
        }),
{
    assert(crate::update_spec(config, existing, true) == merge_spec(config, existing));
    law_merge_keys(config, existing, k);
    if obj_get(config->Object_0, k) matches Some(b) && !merge_skips(k, b) {
        law_merge_value(config, existing, k);
    }
}

proof fn lemma_place_keeps_object(root: JValue, ex: Obj, i: int)
    requires
        root is Object,
        keys_unique(root->Object_0),
    ensures
        place_all(root, ex, i) is Object,
        keys_unique(place_all(root, ex, i)->Object_0),
    decreases ex.len() - i,
{
    if 0 <= i < ex.len() {
        let segs = crate::flat::split_by(ex[i].0, '.');
        let next = place_spec(root, segs, ex[i].1);
        if segs.len() == 0 || segs[0] == lit_proto() {
        } else {
            let key = get_key_spec(segs[0]);
            let m = root->Object_0;
            if segs.len() == 1 {
                crate::value::lemma_insert_keeps_unique(m, key_text(key), ex[i].1);
            } else {
                let child = if crate::flat::child_is_container(root, key) {
                    child_get(root, key)->0
                } else {
                    fresh_container(get_key_spec(segs[1]) is Index)
                };
                crate::value::lemma_insert_keeps_unique(
                    m,
                    key_text(key),
                    place_spec(child, segs.drop_first(), ex[i].1),
                );
            }
        }
        lemma_place_keeps_object(next, ex, i + 1);
    }
}

/// A nested-mode update merges the unflattened incoming config over the
/// existing config, key by key, and keeps everything else the existing config
/// holds: at a key where the unflattened incoming config has no usable entry
/// (none, `null`, or the key `__proto__` or `constructor`) the result holds
/// what the existing config holds there; at a key with a usable incoming
/// value, two arrays concatenate incoming first, two objects merge, and
/// otherwise the incoming value wins.
pub proof fn law_update_nested(config: JValue, existing: JValue, k: Seq<char>)
    requires
        config is Object,
    ensures
        crate::update_spec(config, existing, false) is Object,
        ({
            let r = crate::update_spec(config, existing, false)->Object_0;
            let e = obj_get(entries_of(existing), k);
            let inc = obj_get(unflatten_spec(config)->Object_0, k);
            let usable = inc is Some && !(k == lit_proto() || k == crate::destr::lit_constructor()
                || inc->0 is Null);
            &&& unflatten_spec(config) is Object
            &&& !usable ==> obj_get(r, k) == e
            &&& usable ==> obj_get(r, k) == Some(
                match (inc->0, e) {
                    (JValue::Array(ca), Some(JValue::Array(ea))) => JValue::Array(ca + ea),
                    (JValue::Object(_), Some(JValue::Object(em))) => merge_spec(
                        inc->0,
                        JValue::Object(em),
                    ),
                    _ => inc->0,
                },
            )
        }),
{
    let es = config->Object_0;
    let ex = expand_from(Seq::empty(), es, 0);
    assert(keys_unique(Seq::<(Seq<char>, JValue)>::empty()));
    lemma_place_keeps_object(JValue::Object(Seq::empty()), ex, 0);
    let u = unflatten_spec(config);
    assert(u == place_all(JValue::Object(Seq::empty()), ex, 0));
    let bm = u->Object_0;
    lemma_merge_entries_at(entries_of(existing), bm, 0, k);
    crate::value::lemma_key_index(bm, k);
    lemma_find_from(bm, k, 0);
}

// ---------------------------------------------------------------------------
// Array pushes.
/// The line `key[]=t`.
pub open spec fn push_line(key: Seq<char>, t: Seq<char>) -> Seq<char> {
    key + seq!['[', ']', '='] + t
}

proof fn lemma_push_line_match(key: Seq<char>, t: Seq<char>)
    requires
        key_text_ok(key),
        t.len() == 0 || !is_js_ws(t[0]),
    ensures
        match_key_val(push_line(key, t)) == Some((key + seq!['[', ']'], t)),
{
    let kk = key + seq!['[', ']'];
    let line = push_line(key, t);
    let e = Seq::<char>::empty();
    assert(line =~= e + kk + e + seq!['='] + e + t);
    assert forall|i: int| 0 <= i < kk.len() implies !is_js_ws(#[trigger] kk[i]) && kk[i] != '=' by {
        if i < key.len() {
            assert(kk[i] == key[i]);
        }
    }
    assert(all_ws(e));
    assert(key_text_ok(kk));
    assert(key_val_split(line, kk, t));
    law_match_key_val(line, kk, t);
}

proof fn lemma_parse_push_line(config: Obj, key: Seq<char>, t: Seq<char>)
    requires
        key_text_ok(key),
        t.len() == 0 || !is_js_ws(t[0]),
    ensures
        parse_line(config, push_line(key, t)) == obj_insert(
            config,
            key,
            push_concat_spec(obj_get(config, key), destr_spec(crate::text::trim(t))),
        ),
{
    let kk = key + seq!['[', ']'];
    lemma_push_line_match(key, t);
    crate::roundtrip::lemma_lits_pub();
    assert(kk != lit_proto()) by {
        if kk == lit_proto() {
            assert(kk[kk.len() - 1] == ']');
            assert(lit_proto()[8] == '_');
        }
    }
    assert(kk != crate::destr::lit_constructor()) by {
        if kk == crate::destr::lit_constructor() {
            assert(kk[kk.len() - 1] == ']');
            assert(crate::destr::lit_constructor()[10] == 'r');
        }
    }
    assert(is_push_key(kk));
    assert(kk.subrange(0, kk.len() - 2) =~= key);
}

/// A `[]` line pushes its value onto the key, as `Array.concat` does. Let `x`
/// be the value the text `t` reads as. When the key holds nothing, `null`,
/// `false`, a zero integer or the empty string, the key then holds a fresh
/// array: the items of `x` when `x` is an array, else `[x]`. When the key
/// holds an array `a`, it then holds `a` followed by the items of `x` when
/// `x` is an array, else `a` followed by `x`.
pub proof fn law_parse_push(config: Obj, key: Seq<char>, t: Seq<char>)
    requires
        key_text_ok(key),
        t.len() == 0 || !is_js_ws(t[0]),
    ensures
        ({
            let x = destr_spec(crate::text::trim(t));
            let r = obj_get(parse_line(config, push_line(key, t)), key);
            let cur = obj_get(config, key);
            &&& (cur is None || cur == Some(JValue::Null) || cur == Some(JValue::Bool(false)) || cur
                == Some(JValue::Number(crate::value::NumView::PosInt(0))) || cur == Some(
                JValue::Number(crate::value::NumView::NegInt(0)),
            ) || cur == Some(JValue::Str(Seq::empty()))) ==> r == Some(
                match x {
                    JValue::Array(b) => JValue::Array(b),
                    _ => JValue::Array(seq![x]),
                },
            )
            &&& cur matches Some(JValue::Array(a)) ==> r == Some(
                match x {
                    JValue::Array(b) => JValue::Array(a + b),
                    _ => JValue::Array(a.push(x)),
                },
            )
        }),
{
    lemma_parse_push_line(config, key, t);
    let x = destr_spec(crate::text::trim(t));
    let v = push_concat_spec(obj_get(config, key), x);
    lemma_get_after_insert(config, key, v, key);
    let cur = obj_get(config, key);
    if cur matches Some(JValue::Array(a)) {
        assert(!crate::is_falsy(cur->0));
    }
    assert(Seq::<JValue>::empty() + seq![x] =~= seq![x]);
    if x is Array {
        assert(Seq::<JValue>::empty() + x->Array_0 =~= x->Array_0);
    }
}

/// Pushing onto `false`: the text `key=false` then `key[]=t` parses (in flat
/// mode) to the one key holding a fresh array, the items of the value `t`
/// reads as when that is an array, else that value alone.
pub proof fn law_parse_push_onto_false(key: Seq<char>, t: Seq<char>)
    requires
        key_text_ok(key),
        !is_push_key(key),
        key != lit_proto(),
        key != crate::destr::lit_constructor(),
        t.len() == 0 || !is_js_ws(t[0]),
        forall|i: int| 0 <= i < t.len() ==> !crate::is_line_sep(#[trigger] t[i]),
    ensures
        ({
            let x = destr_spec(crate::text::trim(t));
            parse_spec(key + seq!['=', 'f', 'a', 'l', 's', 'e', '\n'] + push_line(key, t), true)
                == JValue::Object(
                seq![
                    (key, match x {
                        JValue::Array(b) => JValue::Array(b),
                        _ => JValue::Array(seq![x]),
                    }),
                ],
            )
        }),
{
    let f = seq!['f', 'a', 'l', 's', 'e'];
    let a = key + seq!['='] + f;
    let b = push_line(key, t);
    let text = key + seq!['=', 'f', 'a', 'l', 's', 'e', '\n'] + b;
    assert(text =~= a + seq!['\n'] + b);
    assert forall|i: int| 0 <= i < a.len() implies !crate::is_line_sep(#[trigger] a[i]) by {
        if i < key.len() {
            assert(a[i] == key[i]);
        }
    }
    assert forall|i: int| 0 <= i < b.len() implies !crate::is_line_sep(#[trigger] b[i]) by {
        if i < key.len() {
            assert(b[i] == key[i]);
        } else if i >= key.len() + 3 {
            assert(b[i] == t[i - key.len() - 3]);
        }
    }
    crate::roundtrip::lemma_split_lines_concat(a, b);
    crate::roundtrip::lemma_split_lines_single(a);
    crate::roundtrip::lemma_split_lines_single(b);
    let lines = split_lines(text);
    assert(lines =~= seq![a].push(b));
    lemma_parse_flat_seq(text);
    lemma_parse_seq_push(Seq::empty(), seq![a], b);
    lemma_parse_seq_push(Seq::empty(), Seq::empty(), a);
    assert(Seq::<Seq<char>>::empty().push(a) =~= seq![a]);
    let e = Seq::<char>::empty();
    assert(a =~= e + key + e + seq!['='] + e + f);
    assert(all_ws(e));
    assert(key_val_split(a, key, f));
    law_match_key_val(a, key, f);
    assert(ws_run(f, 0) == 0);
    assert(crate::text::ws_run_back(f, 5) == 5);
    assert(f.subrange(0, 5) =~= f);
    assert(crate::destr::lower(f) =~= f);
    assert(destr_spec(crate::text::trim(f)) == JValue::Bool(false));
    let c1 = obj_insert(Seq::empty(), key, JValue::Bool(false));
    assert(c1 =~= seq![(key, JValue::Bool(false))]);
    assert(parse_line(Seq::empty(), a) == c1);
    law_parse_push(c1, key, t);
    let x = destr_spec(crate::text::trim(t));
    let v = push_concat_spec(Some(JValue::Bool(false)), x);
    assert(obj_get(c1, key) == Some(JValue::Bool(false)));
    assert(key_index(c1, key) == 0);
    lemma_parse_push_line(c1, key, t);
    assert(obj_insert(c1, key, v) =~= seq![(key, v)]);
    assert(Seq::<JValue>::empty() + seq![x] =~= seq![x]);
    if x is Array {
        assert(Seq::<JValue>::empty() + x->Array_0 =~= x->Array_0);
    }
}

} // verus!
