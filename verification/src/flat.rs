//! Flatten and unflatten a value tree using `.` as the key delimiter.
//!
//! `flatten` turns nested objects and arrays into a single-level map of dotted
//! keys. `unflatten` reverses it and rebuilds arrays from numeric path
//! segments. Both preserve insertion order.
use vstd::prelude::*;
use crate::text::{decimal, push_decimal, string_from_chars, chars_of, trim, trim_chars, is_digit};
use crate::value::{
    RcValue, JValue, Obj, obj_get, obj_insert, obj_insert_exec, items_view, entries_view,
    lemma_array_view, lemma_object_view, clone_value, find_key,
};
use crate::destr::lit_proto;

verus! {

/// Whether a value is an object or array with at least one entry.
pub open spec fn non_empty_container(v: JValue) -> bool {
    match v {
        JValue::Object(m) => m.len() > 0,
        JValue::Array(items) => items.len() > 0,
        _ => false,
    }
}

/// Whether a value is an object or an array.
pub open spec fn is_container(v: JValue) -> bool {
    v is Object || v is Array
}

/// The dotted key of a child: `prev.key`, or `key` at the top.
pub open spec fn join_key(prev: Option<Seq<char>>, key: Seq<char>) -> Seq<char> {
    match prev {
        Some(p) => p + seq!['.'] + key,
        None => key,
    }
}

/// Emit the leaves of `v` under the prefix `prev` into the map `m`.
pub open spec fn flat_into(m: Obj, v: JValue, prev: Option<Seq<char>>) -> Obj
    decreases v, 1int,
{
    match v {
        JValue::Object(es) => flat_obj_from(m, es, prev, 0),
        JValue::Array(items) => flat_arr_from(m, items, prev, 0),
        _ => m,
    }
}

/// Emit one child: a non-empty container recurses, anything else is a leaf.
pub open spec fn flat_child(m: Obj, key: Seq<char>, child: JValue) -> Obj
    decreases child, 2int,
{
    if non_empty_container(child) {
        flat_into(m, child, Some(key))
    } else {
        obj_insert(m, key, child)
    }
}

/// Emit the entries of an object from index `i`.
pub open spec fn flat_obj_from(m: Obj, es: Obj, prev: Option<Seq<char>>, i: int) -> Obj
    decreases es, es.len() - i,
{
    if 0 <= i < es.len() {
        flat_obj_from(flat_child(m, join_key(prev, es[i].0), es[i].1), es, prev, i + 1)
    } else {
        m
    }
}

/// Emit the items of an array from index `i`, keyed by their index.
pub open spec fn flat_arr_from(m: Obj, items: Seq<JValue>, prev: Option<Seq<char>>, i: int) -> Obj
    decreases items, items.len() - i,
{
    if 0 <= i < items.len() {
        flat_arr_from(flat_child(m, join_key(prev, decimal(i as nat)), items[i]), items, prev, i + 1)
    } else {
        m
    }
}

/// The single-level map of dotted keys for a value. A top-level value that is
/// not an object or array flattens to the empty map.
pub open spec fn flatten_spec(v: JValue) -> Obj {
    if is_container(v) {
        flat_into(Seq::empty(), v, None)
    } else {
        Seq::empty()
    }
}

fn is_non_empty_container(v: &RcValue) -> (r: bool)
    ensures
        r == non_empty_container(v@),
{
    match v {
        RcValue::Object(m) => {
            proof {
                lemma_object_view(*m);
            }
            m.len() > 0
        },
        RcValue::Array(items) => {
            proof {
                lemma_array_view(*items);
            }
            items.len() > 0
        },
        _ => false,
    }
}

fn join_key_exec(prev: &Option<Vec<char>>, key: &Vec<char>) -> (r: Vec<char>)
    ensures
        r@ == join_key(
            match prev {
                Some(p) => Some(p@),
                None => None,
            },
            key@,
        ),
{
    let mut out: Vec<char> = Vec::new();
    match prev {
        Some(p) => {
            let mut k: usize = 0;
            while k < p.len()
                invariant
                    0 <= k <= p@.len(),
                    out@ == p@.take(k as int),
                decreases p@.len() - k,
            {
                out.push(p[k]);
                k += 1;
                assert(out@ =~= p@.take(k as int));
            }
            out.push('.');
        },
        None => {},
    }
    let ghost base = out@;
    let mut k: usize = 0;
    while k < key.len()
        invariant
            0 <= k <= key@.len(),
            out@ == base + key@.take(k as int),
        decreases key@.len() - k,
    {
        out.push(key[k]);
        k += 1;
        assert(out@ =~= base + key@.take(k as int));
    }
    assert(key@.take(k as int) =~= key@);
    match prev {
        Some(p) => {
            assert(p@.take(p@.len() as int) =~= p@);
            assert(out@ =~= p@ + seq!['.'] + key@);
        },
        None => {
            assert(out@ =~= key@);
        },
    }
    out
}

pub open spec fn opt_view(p: Option<Vec<char>>) -> Option<Seq<char>> {
    match p {
        Some(x) => Some(x@),
        None => None,
    }
}

fn step_child(output: &mut Vec<(String, RcValue)>, key: Vec<char>, child: &RcValue)
    ensures
        entries_view(final(output)@) == flat_child(entries_view(old(output)@), key@, child@),
    decreases child, 2int,
{
    if is_non_empty_container(child) {
        step(child, Some(key), output);
    } else {
        let c = clone_value(child);
        obj_insert_exec(output, string_from_chars(key.as_slice()), c);
    }
}

/// Walk one level of the tree, emitting leaves into `output`.
#[verifier::loop_isolation(false)]
fn step(value: &RcValue, prev: Option<Vec<char>>, output: &mut Vec<(String, RcValue)>)
    ensures
        entries_view(final(output)@) == flat_into(entries_view(old(output)@), value@, opt_view(prev)),
    decreases value, 1int,
{
    match value {
        RcValue::Object(es) => {
            proof {
                lemma_object_view(*es);
            }
            let ghost ev = entries_view(es@);
            let mut i: usize = 0;
            while i < es.len()
                invariant
                    0 <= i <= es.len(),
                    flat_obj_from(entries_view(output@), ev, opt_view(prev), i as int)
                        == flat_obj_from(entries_view(old(output)@), ev, opt_view(prev), 0),
                decreases es.len() - i,
            {
                proof {
                    vstd::std_specs::vec::axiom_vec_index_decreases(*es, i as int);
                    assert(decreases_to!(es[i as int] => es[i as int].1));
                    assert(decreases_to!(*value => es[i as int].1));
                }
                let kc = chars_of(es[i].0.as_str());
                let nk = join_key_exec(&prev, &kc);
                step_child(output, nk, &es[i].1);
                i += 1;
            }
        },
        RcValue::Array(items) => {
            proof {
                lemma_array_view(*items);
            }
            let ghost iv = items_view(items@);
            let mut i: usize = 0;
            while i < items.len()
                invariant
                    0 <= i <= items.len(),
                    flat_arr_from(entries_view(output@), iv, opt_view(prev), i as int)
                        == flat_arr_from(entries_view(old(output)@), iv, opt_view(prev), 0),
                decreases items.len() - i,
            {
                proof {
                    vstd::std_specs::vec::axiom_vec_index_decreases(*items, i as int);
                    assert(decreases_to!(*value => items[i as int]));
                }
                let mut kc: Vec<char> = Vec::new();
                push_decimal(&mut kc, i as u128);
                assert(kc@ =~= decimal(i as nat));
                let nk = join_key_exec(&prev, &kc);
                step_child(output, nk, &items[i]);
                i += 1;
            }
        },
        _ => {},
    }
}

/// Flatten a nested value into a single-level map of dotted keys.
///
/// Non-empty objects and arrays recurse and build dotted keys; array elements
/// use their index as the key segment. Empty objects and arrays stay as leaf
/// values. A top-level value that is not an object or array returns an empty
/// map.
pub fn flatten(target: &RcValue) -> (r: Vec<(String, RcValue)>)
    ensures
        entries_view(r@) == flatten_spec(target@),
{
    let mut output: Vec<(String, RcValue)> = Vec::new();
    assert(entries_view(output@) =~= Seq::<(Seq<char>, JValue)>::empty());
    match target {
        RcValue::Object(_) | RcValue::Array(_) => step(target, None, &mut output),
        _ => {},
    }
    output
}

// ---------------------------------------------------------------------------
// Unflatten.
/// The largest array index a path segment may create. A segment whose index
/// exceeds it becomes an object key instead, which caps the allocation one
/// line can cause.
pub open spec fn max_array_index() -> nat {
    100000
}

/// The number written by a run of decimal digits.
pub open spec fn digits_value(s: Seq<char>) -> nat
    decreases s.len(),
{
    if s.len() == 0 {
        0
    } else {
        digits_value(s.drop_last()) * 10 + (s.last() as u32 - '0' as u32) as nat
    }
}

/// Whether every character is an ASCII digit.
pub open spec fn all_digits(s: Seq<char>) -> bool {
    forall|i: int| 0 <= i < s.len() ==> is_digit(#[trigger] s[i])
}

/// The index a path segment denotes: a plain non-negative decimal integer,
/// possibly with surrounding whitespace; an empty or whitespace-only segment
/// denotes zero. A sign, a radix prefix, a fraction, an exponent or anything
/// else denotes no index.
pub open spec fn segment_index(seg: Seq<char>) -> Option<nat> {
    let t = trim(seg);
    if t.len() == 0 {
        Some(0)
    } else if all_digits(t) {
        Some(digits_value(t))
    } else {
        None
    }
}

/// A resolved path segment: an array index or an object key.
pub enum PathKey {
    Index(nat),
    Name(Seq<char>),
}

/// Decide whether a segment is an array index or an object key.
pub open spec fn get_key_spec(seg: Seq<char>) -> PathKey {
    if !seg.contains('.') && segment_index(seg) is Some && segment_index(seg)->0
        <= max_array_index() {
        PathKey::Index(segment_index(seg)->0)
    } else {
        PathKey::Name(seg)
    }
}

/// The object key a path key writes.
pub open spec fn key_text(k: PathKey) -> Seq<char> {
    match k {
        PathKey::Index(i) => decimal(i),
        PathKey::Name(n) => n,
    }
}

/// The child at `key`, if any.
pub open spec fn child_get(cur: JValue, key: PathKey) -> Option<JValue> {
    match cur {
        JValue::Object(m) => obj_get(m, key_text(key)),
        JValue::Array(items) => match key {
            PathKey::Index(i) => if i < items.len() {
                Some(items[i as int])
            } else {
                None
            },
            PathKey::Name(_) => None,
        },
        _ => None,
    }
}

/// Whether the child at `key` is an object or array.
pub open spec fn child_is_container(cur: JValue, key: PathKey) -> bool {
    match child_get(cur, key) {
        Some(c) => is_container(c),
        None => false,
    }
}

/// Set the child at `key`, growing an array with nulls if the index is past
/// its end. A name against an array, or any key against a scalar, changes
/// nothing.
pub open spec fn set_child(cur: JValue, key: PathKey, val: JValue) -> JValue {
    match cur {
        JValue::Object(m) => JValue::Object(obj_insert(m, key_text(key), val)),
        JValue::Array(items) => match key {
            PathKey::Index(i) => if i < items.len() {
                JValue::Array(items.update(i as int, val))
            } else {
                JValue::Array(
                    (items + Seq::new((i - items.len()) as nat, |j: int| JValue::Null)).push(val),
                )
            },
            PathKey::Name(_) => cur,
        },
        _ => cur,
    }
}

/// A fresh container for the next level: an array when the next segment is an
/// index, an object otherwise.
pub open spec fn fresh_container(next_is_index: bool) -> JValue {
    if next_is_index {
        JValue::Array(Seq::empty())
    } else {
        JValue::Object(Seq::empty())
    }
}

/// Insert `leaf` at the path `segs`, creating arrays or objects as needed.
///
/// The walk stops at a `__proto__` segment, leaving the containers built so
/// far. A non-container value on the path is replaced by a fresh container. A
/// name segment that meets an existing array cannot be written there, and the
/// write is dropped.
pub open spec fn place_spec(cur: JValue, segs: Seq<Seq<char>>, leaf: JValue) -> JValue
    decreases segs.len(),
{
    if segs.len() == 0 || segs[0] == lit_proto() {
        cur
    } else {
        let key = get_key_spec(segs[0]);
        if segs.len() == 1 {
            set_child(cur, key, leaf)
        } else if cur is Array && key is Name {
            cur
        } else {
            let child = if child_is_container(cur, key) {
                child_get(cur, key)->0
            } else {
                fresh_container(get_key_spec(segs[1]) is Index)
            };
            set_child(cur, key, place_spec(child, segs.drop_first(), leaf))
        }
    }
}

/// The pieces of `s` between the separator characters.
pub open spec fn split_by(s: Seq<char>, sep: char) -> Seq<Seq<char>>
    decreases s.len(),
{
    if s.len() == 0 {
        seq![Seq::empty()]
    } else {
        let r = split_by(s.drop_last(), sep);
        if s.last() == sep {
            r.push(Seq::empty())
        } else {
            r.update(r.len() - 1, r.last().push(s.last()))
        }
    }
}

pub proof fn lemma_split_by_len(s: Seq<char>, sep: char)
    ensures
        split_by(s, sep).len() >= 1,
    decreases s.len(),
{
    if s.len() > 0 {
        lemma_split_by_len(s.drop_last(), sep);
    }
}

/// Insert the entries of `flat` from index `i` into `acc`, each key prefixed
/// with `key.`.
pub open spec fn insert_prefixed(acc: Obj, key: Seq<char>, flat: Obj, i: int) -> Obj
    decreases flat.len() - i,
{
    if 0 <= i < flat.len() {
        insert_prefixed(
            obj_insert(acc, key + seq!['.'] + flat[i].0, flat[i].1),
            key,
            flat,
            i + 1,
        )
    } else {
        acc
    }
}

/// The pre-pass: nested non-empty containers are flattened so that their
/// inner keys join the dotted keyspace; leaf values keep their key.
pub open spec fn expand_from(acc: Obj, es: Obj, i: int) -> Obj
    decreases es.len() - i,
{
    if 0 <= i < es.len() {
        let next = if non_empty_container(es[i].1) {
            insert_prefixed(acc, es[i].0, flatten_spec(es[i].1), 0)
        } else {
            obj_insert(acc, es[i].0, es[i].1)
        };
        expand_from(next, es, i + 1)
    } else {
        acc
    }
}

/// Place every expanded entry from index `i` into `root`.
pub open spec fn place_all(root: JValue, ex: Obj, i: int) -> JValue
    decreases ex.len() - i,
{
    if 0 <= i < ex.len() {
        place_all(place_spec(root, split_by(ex[i].0, '.'), ex[i].1), ex, i + 1)
    } else {
        root
    }
}

/// Rebuild a nested value from a single-level map of dotted keys. Values in
/// the expanded map are never non-empty containers, so each is placed as it
/// is. Input that is not an object returns unchanged.
pub open spec fn unflatten_spec(v: JValue) -> JValue {
    match v {
        JValue::Object(es) => place_all(
            JValue::Object(Seq::empty()),
            expand_from(Seq::empty(), es, 0),
            0,
        ),
        _ => v,
    }
}

/// A resolved path segment.
pub enum Key {
    Index(usize),
    Name(Vec<char>),
}

impl View for Key {
    type V = PathKey;

    open spec fn view(&self) -> PathKey {
        match self {
            Key::Index(i) => PathKey::Index(*i as nat),
            Key::Name(n) => PathKey::Name(n@),
        }
    }
}

/// The segments of a dotted key.
pub open spec fn segs_view(segs: Seq<Vec<char>>) -> Seq<Seq<char>> {
    Seq::new(segs.len(), |j: int| segs[j]@)
}

/// The pieces of `s` between the `sep` characters.
pub fn split_on(s: &Vec<char>, sep: char) -> (r: Vec<Vec<char>>)
    ensures
        segs_view(r@) == split_by(s@, sep),
{
    let mut segs: Vec<Vec<char>> = Vec::new();
    let mut cur: Vec<char> = Vec::new();
    let mut i: usize = 0;
    assert(s@.take(0) =~= Seq::<char>::empty());
    assert(segs_view(segs@).push(cur@) =~= seq![Seq::<char>::empty()]);
    while i < s.len()
        invariant
            0 <= i <= s@.len(),
            segs_view(segs@).push(cur@) == split_by(s@.take(i as int), sep),
        decreases s@.len() - i,
    {
        let ghost prev = split_by(s@.take(i as int), sep);
        assert(s@.take(i as int + 1).drop_last() =~= s@.take(i as int));
        assert(s@.take(i as int + 1).last() == s@[i as int]);
        let c = s[i];
        if c == sep {
            let done = cur;
            segs.push(done);
            cur = Vec::new();
            assert(segs_view(segs@).push(cur@) =~= prev.push(Seq::empty()));
        } else {
            cur.push(c);
            assert(segs_view(segs@).push(cur@) =~= prev.update(
                prev.len() - 1,
                prev.last().push(c),
            ));
        }
        i += 1;
    }
    assert(s@.take(i as int) =~= s@);
    segs.push(cur);
    segs
}

fn contains_dot(s: &Vec<char>) -> (r: bool)
    ensures
        r == s@.contains('.'),
{
    let mut k: usize = 0;
    while k < s.len()
        invariant
            0 <= k <= s@.len(),
            forall|m: int| 0 <= m < k ==> s@[m] != '.',
        decreases s@.len() - k,
    {
        if s[k] == '.' {
            return true;
        }
        k += 1;
    }
    false
}

proof fn lemma_digits_value_grows(s: Seq<char>, k: int)
    requires
        0 <= k <= s.len(),
        all_digits(s),
    ensures
        digits_value(s.take(k)) <= digits_value(s),
    decreases s.len() - k,
{
    if k < s.len() {
        lemma_digits_value_grows(s, k + 1);
        assert(s.take(k + 1).drop_last() =~= s.take(k));
    }
    if k == s.len() {
        assert(s.take(k) =~= s);
    }
}

/// The index a segment denotes, when it is within the array-index bound.
fn segment_index_capped(seg: &Vec<char>) -> (r: Option<usize>)
    ensures
        match r {
            Some(n) => segment_index(seg@) == Some(n as nat) && n <= max_array_index(),
            None => segment_index(seg@) is None || segment_index(seg@)->0 > max_array_index(),
        },
{
    let t = trim_chars(seg);
    if t.len() == 0 {
        return Some(0);
    }
    let mut val: usize = 0;
    let mut big = false;
    let mut k: usize = 0;
    while k < t.len()
        invariant
            0 <= k <= t@.len(),
            t@ == trim(seg@),
            t@.len() > 0,
            forall|m: int| 0 <= m < k ==> is_digit(#[trigger] t@[m]),
            !big ==> val as nat == digits_value(t@.take(k as int)) && val <= 100000,
            big ==> digits_value(t@.take(k as int)) > 100000,
        decreases t@.len() - k,
    {
        let c = t[k];
        if !('0' <= c && c <= '9') {
            assert(!is_digit(t@[k as int]));
            assert(!all_digits(t@));
            assert(trim(seg@) == t@);
            assert(segment_index(seg@) is None);
            return None;
        }
        assert(t@.take(k as int + 1).drop_last() =~= t@.take(k as int));
        assert(t@.take(k as int + 1).last() == c);
        if !big {
            let d = (c as u32 - '0' as u32) as usize;
            let nv = val * 10 + d;
            if nv > 100000 {
                big = true;
            } else {
                val = nv;
            }
        }
        k += 1;
    }
    assert(t@.take(k as int) =~= t@);
    assert(all_digits(t@));
    if big {
        None
    } else {
        Some(val)
    }
}

/// Decide whether a segment is an array index or an object key.
fn get_key(seg: &Vec<char>) -> (r: Key)
    ensures
        r@ == get_key_spec(seg@),
{
    if !contains_dot(seg) {
        match segment_index_capped(seg) {
            Some(n) => return Key::Index(n),
            None => {},
        }
    }
    let mut copy: Vec<char> = Vec::new();
    let mut k: usize = 0;
    while k < seg.len()
        invariant
            0 <= k <= seg@.len(),
            copy@ == seg@.take(k as int),
        decreases seg@.len() - k,
    {
        copy.push(seg[k]);
        k += 1;
        assert(copy@ =~= seg@.take(k as int));
    }
    assert(copy@ =~= seg@);
    Key::Name(copy)
}

fn key_string(key: &Key) -> (r: String)
    ensures
        r@ == key_text(key@),
{
    match key {
        Key::Index(i) => {
            let mut kc: Vec<char> = Vec::new();
            push_decimal(&mut kc, *i as u128);
            assert(kc@ =~= decimal(*i as nat));
            string_from_chars(kc.as_slice())
        },
        Key::Name(n) => string_from_chars(n.as_slice()),
    }
}

/// A copy of the child at `key` when that child is an object or array.
fn container_child(cur: &RcValue, key: &Key) -> (r: Option<RcValue>)
    ensures
        match r {
            Some(c) => child_is_container(cur@, key@) && c@ == child_get(cur@, key@)->0,
            None => !child_is_container(cur@, key@),
        },
{
    match cur {
        RcValue::Object(m) => {
            proof {
                lemma_object_view(*m);
            }
            let k = key_string(key);
            match find_key(m, &k) {
                Some(j) => {
                    match &m[j].1 {
                        RcValue::Object(_) | RcValue::Array(_) => Some(clone_value(&m[j].1)),
                        _ => None,
                    }
                },
                None => None,
            }
        },
        RcValue::Array(items) => {
            proof {
                lemma_array_view(*items);
            }
            match key {
                Key::Index(i) => {
                    if *i < items.len() {
                        match &items[*i] {
                            RcValue::Object(_) | RcValue::Array(_) => Some(clone_value(&items[*i])),
                            _ => None,
                        }
                    } else {
                        None
                    }
                },
                Key::Name(_) => None,
            }
        },
        _ => None,
    }
}

/// Set the child at `key`, growing an array with nulls if needed.
fn set_child_exec(cur: RcValue, key: &Key, val: RcValue) -> (r: RcValue)
    ensures
        r@ == set_child(cur@, key@, val@),
{
    match cur {
        RcValue::Object(mut m) => {
            proof {
                lemma_object_view(m);
            }
            let k = key_string(key);
            obj_insert_exec(&mut m, k, val);
            proof {
                lemma_object_view(m);
            }
            RcValue::Object(m)
        },
        RcValue::Array(mut items) => {
            proof {
                lemma_array_view(items);
            }
            let ghost old_items = items_view(items@);
            match key {
                Key::Index(i) => {
                    let i = *i;
                    if i < items.len() {
                        items.set(i, val);
                        proof {
                            lemma_array_view(items);
                            assert(items_view(items@) =~= old_items.update(i as int, val@));
                        }
                        RcValue::Array(items)
                    } else {
                        let ghost n0 = items@.len();
                        while items.len() < i
                            invariant
                                n0 <= items@.len() <= i,
                                items_view(items@) =~= old_items + Seq::new(
                                    (items@.len() - n0) as nat,
                                    |j: int| JValue::Null,
                                ),
                            decreases i - items@.len(),
                        {
                            let ghost before = items_view(items@);
                            items.push(RcValue::Null);
                            proof {
                                lemma_array_view(items);
                                assert(items_view(items@) =~= before.push(JValue::Null));
                            }
                        }
                        items.push(val);
                        proof {
                            lemma_array_view(items);
                            assert(items_view(items@) =~= (old_items + Seq::new(
                                (i - old_items.len()) as nat,
                                |j: int| JValue::Null,
                            )).push(val@));
                        }
                        RcValue::Array(items)
                    }
                },
                Key::Name(_) => {
                    proof {
                        lemma_array_view(items);
                    }
                    RcValue::Array(items)
                },
            }
        },
        other => other,
    }
}

/// Insert `leaf` at the path `segs[i..]`, creating arrays or objects as
/// needed.
fn place(cur: RcValue, segs: &Vec<Vec<char>>, i: usize, leaf: &RcValue) -> (r: RcValue)
    requires
        i <= segs@.len(),
    ensures
        r@ == place_spec(cur@, segs_view(segs@).skip(i as int), leaf@),
    decreases segs@.len() - i,
{
    let ghost rest = segs_view(segs@).skip(i as int);
    proof {
        reveal_strlit("__proto__");
    }
    if i >= segs.len() {
        return cur;
    }
    assert(rest[0] == segs@[i as int]@);
    if crate::text::chars_eq(&segs[i], &crate::destr::literal("__proto__")) {
        assert(lit_proto() =~= "__proto__"@);
        return cur;
    }
    assert(rest[0] != lit_proto()) by {
        if rest[0] == lit_proto() {
            assert(lit_proto() =~= "__proto__"@);
        }
    }
    let key = get_key(&segs[i]);
    if i + 1 == segs.len() {
        let v = clone_value(leaf);
        return set_child_exec(cur, &key, v);
    }
    let is_array = match &cur {
        RcValue::Array(_) => true,
        _ => false,
    };
    let is_name = match &key {
        Key::Name(_) => true,
        _ => false,
    };
    if is_array && is_name {
        return cur;
    }
    let next = get_key(&segs[i + 1]);
    assert(rest[1] == segs@[i + 1]@);
    let next_is_index = match next {
        Key::Index(_) => true,
        _ => false,
    };
    let child = match container_child(&cur, &key) {
        Some(c) => c,
        None => if next_is_index {
            let e: Vec<RcValue> = Vec::new();
            proof {
                lemma_array_view(e);
                assert(items_view(e@) =~= Seq::<JValue>::empty());
            }
            RcValue::Array(e)
        } else {
            let e: Vec<(String, RcValue)> = Vec::new();
            proof {
                lemma_object_view(e);
                assert(entries_view(e@) =~= Seq::<(Seq<char>, JValue)>::empty());
            }
            RcValue::Object(e)
        },
    };
    let placed = place(child, segs, i + 1, leaf);
    assert(segs_view(segs@).skip(i + 1) =~= rest.drop_first());
    set_child_exec(cur, &key, placed)
}

fn insert_prefixed_exec(
    acc: &mut Vec<(String, RcValue)>,
    key: &Vec<char>,
    flat: &Vec<(String, RcValue)>,
)
    ensures
        entries_view(final(acc)@) == insert_prefixed(
            entries_view(old(acc)@),
            key@,
            entries_view(flat@),
            0,
        ),
{
    let ghost fv = entries_view(flat@);
    let mut j: usize = 0;
    while j < flat.len()
        invariant
            0 <= j <= flat@.len(),
            fv == entries_view(flat@),
            insert_prefixed(entries_view(acc@), key@, fv, j as int) == insert_prefixed(
                entries_view(old(acc)@),
                key@,
                fv,
                0,
            ),
        decreases flat@.len() - j,
    {
        let kc = chars_of(flat[j].0.as_str());
        let ghost k = Some(key@);
        let nk = join_key_exec(&Some(crate::text::slice_chars(key, 0, key.len())), &kc);
        assert(key@.subrange(0, key@.len() as int) =~= key@);
        let v = clone_value(&flat[j].1);
        obj_insert_exec(acc, string_from_chars(nk.as_slice()), v);
        j += 1;
    }
}

/// Rebuild a nested value from a single-level map of dotted keys.
///
/// Numeric path segments create arrays, other segments create objects. A
/// deeper path replaces a shallower scalar at the same prefix, so flat keys
/// `x` and `x.y` resolve to `{x:{y:...}}`. A path through a `__proto__`
/// segment stops there. Input that is not an object returns unchanged.
pub fn unflatten(target: &RcValue) -> (r: RcValue)
    ensures
        r@ == unflatten_spec(target@),
{
    match target {
        RcValue::Object(es) => {
            proof {
                lemma_object_view(*es);
            }
            let ghost ev = entries_view(es@);
            let mut expanded: Vec<(String, RcValue)> = Vec::new();
            assert(entries_view(expanded@) =~= Seq::<(Seq<char>, JValue)>::empty());
            let mut i: usize = 0;
            while i < es.len()
                invariant
                    0 <= i <= es@.len(),
                    ev == entries_view(es@),
                    expand_from(entries_view(expanded@), ev, i as int) == expand_from(
                        Seq::empty(),
                        ev,
                        0,
                    ),
                decreases es@.len() - i,
            {
                if is_non_empty_container(&es[i].1) {
                    let fl = flatten(&es[i].1);
                    let kc = chars_of(es[i].0.as_str());
                    insert_prefixed_exec(&mut expanded, &kc, &fl);
                } else {
                    let v = clone_value(&es[i].1);
                    obj_insert_exec(&mut expanded, es[i].0.clone(), v);
                }
                i += 1;
            }
            let ghost xv = entries_view(expanded@);
            let e: Vec<(String, RcValue)> = Vec::new();
            proof {
                lemma_object_view(e);
                assert(entries_view(e@) =~= Seq::<(Seq<char>, JValue)>::empty());
            }
            let mut root = RcValue::Object(e);
            let mut j: usize = 0;
            while j < expanded.len()
                invariant
                    0 <= j <= expanded@.len(),
                    xv == entries_view(expanded@),
                    place_all(root@, xv, j as int) == place_all(
                        JValue::Object(Seq::empty()),
                        xv,
                        0,
                    ),
                decreases expanded@.len() - j,
            {
                let kc = chars_of(expanded[j].0.as_str());
                let segs = split_on(&kc, '.');
                assert(segs_view(segs@).skip(0) =~= segs_view(segs@));
                root = place(root, &segs, 0, &expanded[j].1);
                j += 1;
            }
            root
        },
        _ => clone_value(target),
    }
}

} // verus!
