//! The value tree that configs parse into and serialize from.
//!
//! A value is null, a boolean, a number, a string, an array or an object.
//! Objects keep their entries in insertion order; inserting an existing key
//! replaces its value in place. Numbers keep the three shapes of a JSON number:
//! a non-negative integer, a negative integer, or a finite double, which the
//! library holds as its IEEE-754 bit pattern together with its shortest text.
use vstd::prelude::*;

verus! {

/// A finite double held by its bit pattern and the shortest decimal text that
/// reads back as it.
#[derive(Debug, PartialEq)]
pub struct FloatNumber {
    pub bits: u64,
    pub text: String,
}

/// A JSON number.
#[derive(Debug, PartialEq)]
pub enum RcNumber {
    /// A non-negative integer.
    PosInt(u64),
    /// A negative integer.
    NegInt(i64),
    /// A finite double.
    Float(FloatNumber),
}

/// A config value.
#[derive(Debug, PartialEq)]
pub enum RcValue {
    Null,
    Bool(bool),
    Number(RcNumber),
    String(String),
    Array(Vec<RcValue>),
    Object(Vec<(String, RcValue)>),
}

/// The mathematical form of a number.
pub enum NumView {
    PosInt(u64),
    NegInt(i64),
    Float(u64, Seq<char>),
}

/// The mathematical form of a value: strings as character sequences, arrays
/// as sequences, objects as sequences of key/value entries.
pub enum JValue {
    Null,
    Bool(bool),
    Number(NumView),
    Str(Seq<char>),
    Array(Seq<JValue>),
    Object(Seq<(Seq<char>, JValue)>),
}

/// Entries of an object in their mathematical form.
pub type Obj = Seq<(Seq<char>, JValue)>;

impl View for RcNumber {
    type V = NumView;

    open spec fn view(&self) -> NumView {
        match self {
            RcNumber::PosInt(u) => NumView::PosInt(*u),
            RcNumber::NegInt(i) => NumView::NegInt(*i),
            RcNumber::Float(f) => NumView::Float(f.bits, f.text@),
        }
    }
}

impl View for RcValue {
    type V = JValue;

    open spec fn view(&self) -> JValue {
        value_view(*self)
    }
}

/// The mathematical form of a value.
pub open spec fn value_view(v: RcValue) -> JValue
    decreases v,
{
    match v {
        RcValue::Null => JValue::Null,
        RcValue::Bool(b) => JValue::Bool(b),
        RcValue::Number(n) => JValue::Number(n@),
        RcValue::String(s) => JValue::Str(s@),
        RcValue::Array(items) => JValue::Array(
            Seq::new(
                items@.len(),
                |i: int|
                    if 0 <= i < items@.len() {
                        value_view(items@[i])
                    } else {
                        JValue::Null
                    },
            ),
        ),
        RcValue::Object(entries) => JValue::Object(
            Seq::new(
                entries@.len(),
                |i: int|
                    if 0 <= i < entries@.len() {
                        (entries@[i].0@, value_view(entries@[i].1))
                    } else {
                        (Seq::empty(), JValue::Null)
                    },
            ),
        ),
    }
}

/// The mathematical form of a sequence of values.
pub open spec fn items_view(items: Seq<RcValue>) -> Seq<JValue> {
    Seq::new(items.len(), |i: int| items[i]@)
}

/// The mathematical form of a sequence of object entries.
pub open spec fn entries_view(entries: Seq<(String, RcValue)>) -> Obj {
    Seq::new(entries.len(), |i: int| (entries[i].0@, entries[i].1@))
}

pub proof fn lemma_array_view(items: Vec<RcValue>)
    ensures
        RcValue::Array(items)@ == JValue::Array(items_view(items@)),
{
    let s = RcValue::Array(items)@->Array_0;
    assert forall|i: int| 0 <= i < items@.len() implies s[i] == items_view(items@)[i] by {}
    assert(s =~= items_view(items@));
}

pub proof fn lemma_object_view(entries: Vec<(String, RcValue)>)
    ensures
        RcValue::Object(entries)@ == JValue::Object(entries_view(entries@)),
{
    let s = RcValue::Object(entries)@->Object_0;
    assert forall|i: int| 0 <= i < entries@.len() implies s[i] == entries_view(entries@)[i] by {}
    assert(s =~= entries_view(entries@));
}

// ---------------------------------------------------------------------------
// Objects as insertion-ordered maps.
/// Index of the first entry at or after `i` whose key is `k`, or -1.
pub open spec fn find_from(m: Obj, k: Seq<char>, i: int) -> int
    decreases m.len() - i,
{
    if i < 0 || i >= m.len() {
        -1
    } else if m[i].0 == k {
        i
    } else {
        find_from(m, k, i + 1)
    }
}

/// Index of the entry whose key is `k`, or -1.
pub open spec fn key_index(m: Obj, k: Seq<char>) -> int {
    find_from(m, k, 0)
}

/// The value stored at key `k`.
pub open spec fn obj_get(m: Obj, k: Seq<char>) -> Option<JValue> {
    let j = key_index(m, k);
    if j >= 0 {
        Some(m[j].1)
    } else {
        None
    }
}

/// Insert `v` at key `k`: an existing key keeps its position and takes the new
/// value, a new key is appended.
pub open spec fn obj_insert(m: Obj, k: Seq<char>, v: JValue) -> Obj {
    let j = key_index(m, k);
    if j >= 0 {
        m.update(j, (k, v))
    } else {
        m.push((k, v))
    }
}

pub proof fn lemma_find_from(m: Obj, k: Seq<char>, i: int)
    requires
        0 <= i,
    ensures
        find_from(m, k, i) == -1 || (i <= find_from(m, k, i) < m.len() && m[find_from(
            m,
            k,
            i,
        )].0 == k),
        find_from(m, k, i) == -1 ==> forall|l: int| i <= l < m.len() ==> m[l].0 != k,
        find_from(m, k, i) >= 0 ==> forall|l: int| i <= l < find_from(m, k, i) ==> m[l].0 != k,
    decreases m.len() - i,
{
    if i < m.len() && m[i].0 != k {
        lemma_find_from(m, k, i + 1);
    }
}

pub proof fn lemma_key_index(m: Obj, k: Seq<char>)
    ensures
        key_index(m, k) == -1 || (0 <= key_index(m, k) < m.len() && m[key_index(m, k)].0 == k),
        key_index(m, k) == -1 <==> forall|l: int| 0 <= l < m.len() ==> m[l].0 != k,
        key_index(m, k) >= 0 ==> forall|l: int| 0 <= l < key_index(m, k) ==> m[l].0 != k,
{
    lemma_find_from(m, k, 0);
}

/// Whether every key of `m` is distinct.
pub open spec fn keys_unique(m: Obj) -> bool {
    forall|i: int, j: int| 0 <= i < j < m.len() ==> m[i].0 != m[j].0
}

/// Whether a value is one JSON can hold: every object, at any depth, has
/// distinct keys, and every double is finite.
pub open spec fn valid_value(v: JValue) -> bool
    decreases v, 1int,
{
    match v {
        JValue::Object(es) => keys_unique(es) && valid_entries(es, 0),
        JValue::Array(items) => valid_items(items, 0),
        JValue::Number(NumView::Float(bits, _)) => crate::number::f_exp(bits) != 0x7ff,
        _ => true,
    }
}

pub open spec fn valid_entries(es: Obj, i: int) -> bool
    decreases es, es.len() - i,
{
    if 0 <= i < es.len() {
        valid_value(es[i].1) && valid_entries(es, i + 1)
    } else {
        true
    }
}

pub open spec fn valid_items(items: Seq<JValue>, i: int) -> bool
    decreases items, items.len() - i,
{
    if 0 <= i < items.len() {
        valid_value(items[i]) && valid_items(items, i + 1)
    } else {
        true
    }
}

pub proof fn lemma_insert_keeps_unique(m: Obj, k: Seq<char>, v: JValue)
    requires
        keys_unique(m),
    ensures
        keys_unique(obj_insert(m, k, v)),
        obj_get(obj_insert(m, k, v), k) == Some(v),
{
    lemma_key_index(m, k);
    let r = obj_insert(m, k, v);
    lemma_key_index(r, k);
    let j = key_index(m, k);
    if j >= 0 {
        assert(r[j].0 == k);
        assert(key_index(r, k) == j) by {
            if key_index(r, k) != j {
                if key_index(r, k) < j {
                    assert(r[key_index(r, k)] == m[key_index(r, k)]);
                } else {
                    assert(r[j].0 == k);
                }
            }
        }
    } else {
        assert(r[m.len() as int].0 == k);
        assert(key_index(r, k) == m.len()) by {
            if key_index(r, k) != m.len() {
                assert(r[key_index(r, k)] == m[key_index(r, k)]);
            }
        }
    }
}

// ---------------------------------------------------------------------------
// Exec helpers.
/// Whether a key is the given literal.
pub fn key_is(k: &String, lit: &str) -> (r: bool)
    ensures
        r == (k@ == lit@),
{
    let l = lit.to_owned();
    *k == l
}

/// Position of `key` among the entries.
pub fn find_key(entries: &Vec<(String, RcValue)>, key: &String) -> (r: Option<usize>)
    ensures
        match r {
            Some(j) => key_index(entries_view(entries@), key@) == j as int && j < entries@.len()
                && entries@[j as int].0@ == key@,
            None => key_index(entries_view(entries@), key@) == -1,
        },
{
    let ghost m = entries_view(entries@);
    proof {
        lemma_key_index(m, key@);
    }
    let mut i: usize = 0;
    while i < entries.len()
        invariant
            0 <= i <= entries.len(),
            m == entries_view(entries@),
            find_from(m, key@, 0) == find_from(m, key@, i as int),
        decreases entries.len() - i,
    {
        if entries[i].0 == *key {
            assert(m[i as int].0 == key@);
            return Some(i);
        }
        assert(m[i as int].0 != key@);
        i += 1;
    }
    None
}

/// Insert into an object's entries with map semantics.
pub fn obj_insert_exec(entries: &mut Vec<(String, RcValue)>, key: String, value: RcValue)
    ensures
        entries_view(final(entries)@) == obj_insert(entries_view(old(entries)@), key@, value@),
{
    match find_key(entries, &key) {
        Some(j) => {
            entries.set(j, (key, value));
            assert(entries_view(entries@) =~= obj_insert(entries_view(old(entries)@), key@, value@));
        },
        None => {
            entries.push((key, value));
            assert(entries_view(entries@) =~= obj_insert(entries_view(old(entries)@), key@, value@));
        },
    }
}

/// A deep copy of a number.
pub fn clone_number(n: &RcNumber) -> (r: RcNumber)
    ensures
        r@ == n@,
{
    match n {
        RcNumber::PosInt(u) => RcNumber::PosInt(*u),
        RcNumber::NegInt(i) => RcNumber::NegInt(*i),
        RcNumber::Float(f) => RcNumber::Float(FloatNumber { bits: f.bits, text: f.text.clone() }),
    }
}

/// A deep copy of a value.
#[verifier::loop_isolation(false)]
pub fn clone_value(v: &RcValue) -> (r: RcValue)
    ensures
        r@ == v@,
    decreases v,
{
    match v {
        RcValue::Null => RcValue::Null,
        RcValue::Bool(b) => RcValue::Bool(*b),
        RcValue::Number(n) => RcValue::Number(clone_number(n)),
        RcValue::String(s) => RcValue::String(s.clone()),
        RcValue::Array(items) => {
            let mut out: Vec<RcValue> = Vec::new();
            let mut i: usize = 0;
            while i < items.len()
                invariant
                    0 <= i <= items.len(),
                    out@.len() == i,
                    forall|j: int| 0 <= j < i ==> #[trigger] out@[j]@ == items@[j]@,
                decreases items.len() - i,
            {
                proof {
                    vstd::std_specs::vec::axiom_vec_index_decreases(*items, i as int);
                    assert(decreases_to!(*v => (*v)->Array_0));
                    assert(decreases_to!(*v => items[i as int]));
                }
                let c = clone_value(&items[i]);
                out.push(c);
                i += 1;
            }
            proof {
                lemma_array_view(out);
                lemma_array_view(*items);
                assert(items_view(out@) =~= items_view(items@));
            }
            RcValue::Array(out)
        },
        RcValue::Object(entries) => {
            let mut out: Vec<(String, RcValue)> = Vec::new();
            let mut i: usize = 0;
            while i < entries.len()
                invariant
                    0 <= i <= entries.len(),
                    out@.len() == i,
                    forall|j: int|
                        0 <= j < i ==> (#[trigger] out@[j]).0@ == entries@[j].0@ && out@[j].1@
                            == entries@[j].1@,
                decreases entries.len() - i,
            {
                proof {
                    vstd::std_specs::vec::axiom_vec_index_decreases(*entries, i as int);
                    assert(decreases_to!(*v => (*v)->Object_0));
                    assert(decreases_to!(entries[i as int] => entries[i as int].1));
                    assert(decreases_to!(*v => entries[i as int].1));
                }
                let c = clone_value(&entries[i].1);
                let k = entries[i].0.clone();
                out.push((k, c));
                i += 1;
            }
            proof {
                lemma_object_view(out);
                lemma_object_view(*entries);
                assert(entries_view(out@) =~= entries_view(entries@));
            }
            RcValue::Object(out)
        },
    }
}

impl RcValue {
    /// The value stored at `key` when this value is an object.
    pub fn get(&self, key: &str) -> (r: Option<&RcValue>)
        ensures
            match self@ {
                JValue::Object(m) => match r {
                    Some(x) => obj_get(m, key@) == Some(x@),
                    None => obj_get(m, key@) is None,
                },
                _ => r is None,
            },
    {
        match self {
            RcValue::Object(entries) => {
                proof {
                    lemma_object_view(*entries);
                }
                let k = key.to_owned();
                match find_key(entries, &k) {
                    Some(j) => Some(&entries[j].1),
                    None => None,
                }
            },
            _ => None,
        }
    }
}

} // verus!
