//! Deep merge where the base value wins and the defaults fill the gaps.
//!
//! Merge rules:
//! - Plain objects merge key by key.
//! - Arrays concatenate with the base elements first, then the defaults.
//! - A scalar in the base overwrites the default.
//! - A `null` value in the base is skipped and does not clobber the default.
//! - Keys `__proto__` and `constructor` in the base are skipped.
use vstd::prelude::*;
use crate::value::{
    RcValue, JValue, Obj, obj_get, obj_insert, obj_insert_exec, items_view, entries_view,
    lemma_array_view, lemma_object_view, clone_value, find_key,
};
use crate::destr::{lit_proto, lit_constructor};

verus! {

/// The object entries of `v`, or none when it is not an object.
pub open spec fn entries_of(v: JValue) -> Obj {
    match v {
        JValue::Object(m) => m,
        _ => Seq::empty(),
    }
}

/// Merge `base` over `defaults`. When `defaults` is not an object it counts
/// as an empty object; when `base` is not an object the result is the
/// defaults' entries.
pub open spec fn merge_spec(base: JValue, defaults: JValue) -> JValue
    decreases base, 1int,
{
    match base {
        JValue::Object(bm) => JValue::Object(merge_entries(entries_of(defaults), bm, 0)),
        _ => JValue::Object(entries_of(defaults)),
    }
}

/// The merged value for one base entry `v` against the current value `cur`
/// at its key.
pub open spec fn merge_one(v: JValue, cur: Option<JValue>) -> JValue
    decreases v, 2int,
{
    match (v, cur) {
        (JValue::Array(ba), Some(JValue::Array(da))) => JValue::Array(ba + da),
        (JValue::Object(_), Some(JValue::Object(dm))) => merge_spec(v, JValue::Object(dm)),
        _ => v,
    }
}

/// Whether a base entry is skipped: a guarded key, or a null value.
pub open spec fn merge_skips(k: Seq<char>, v: JValue) -> bool {
    k == lit_proto() || k == lit_constructor() || v is Null
}

/// Merge the base entries from index `i` into `obj`.
pub open spec fn merge_entries(obj: Obj, bm: Obj, i: int) -> Obj
    decreases bm, bm.len() - i,
{
    if 0 <= i < bm.len() {
        let next = if merge_skips(bm[i].0, bm[i].1) {
            obj
        } else {
            obj_insert(obj, bm[i].0, merge_one(bm[i].1, obj_get(obj, bm[i].0)))
        };
        merge_entries(next, bm, i + 1)
    } else {
        obj
    }
}

fn defaults_entries(defaults: &RcValue) -> (r: Vec<(String, RcValue)>)
    ensures
        entries_view(r@) == entries_of(defaults@),
{
    match defaults {
        RcValue::Object(_) => {
            let c = clone_value(defaults);
            match c {
                RcValue::Object(m) => {
                    proof {
                        lemma_object_view(m);
                    }
                    m
                },
                _ => {
                    assert(false);
                    Vec::new()
                },
            }
        },
        _ => {
            let e: Vec<(String, RcValue)> = Vec::new();
            assert(entries_view(e@) =~= Seq::<(Seq<char>, JValue)>::empty());
            e
        },
    }
}

fn concat_arrays(a: &RcValue, b: &RcValue) -> (r: RcValue)
    requires
        a is Array,
        b is Array,
    ensures
        r@ == JValue::Array(a@->Array_0 + b@->Array_0),
{
    let mut out: Vec<RcValue> = Vec::new();
    if let (RcValue::Array(x), RcValue::Array(y)) = (a, b) {
        proof {
            lemma_array_view(*x);
            lemma_array_view(*y);
        }
        let mut i: usize = 0;
        while i < x.len()
            invariant
                0 <= i <= x@.len(),
                items_view(out@) == items_view(x@).take(i as int),
            decreases x@.len() - i,
        {
            let c = clone_value(&x[i]);
            let ghost before = items_view(out@);
            out.push(c);
            assert(items_view(out@) =~= before.push(c@));
            i += 1;
            assert(items_view(out@) =~= items_view(x@).take(i as int));
        }
        let mut j: usize = 0;
        while j < y.len()
            invariant
                0 <= j <= y@.len(),
                items_view(out@) == items_view(x@) + items_view(y@).take(j as int),
            decreases y@.len() - j,
        {
            let c = clone_value(&y[j]);
            let ghost before = items_view(out@);
            out.push(c);
            assert(items_view(out@) =~= before.push(c@));
            j += 1;
            assert(items_view(out@) =~= items_view(x@) + items_view(y@).take(j as int));
        }
        assert(items_view(x@).take(x@.len() as int) =~= items_view(x@));
        assert(items_view(y@).take(y@.len() as int) =~= items_view(y@));
    }
    proof {
        lemma_array_view(out);
    }
    RcValue::Array(out)
}

fn merge_one_exec(v: &RcValue, cur: Option<&RcValue>) -> (r: RcValue)
    ensures
        r@ == merge_one(
            v@,
            match cur {
                Some(c) => Some(c@),
                None => None,
            },
        ),
    decreases v, 2int,
{
    match (v, cur) {
        (RcValue::Array(_), Some(RcValue::Array(_))) => concat_arrays(v, cur.unwrap()),
        (RcValue::Object(_), Some(RcValue::Object(_))) => merge(v, cur.unwrap()),
        _ => clone_value(v),
    }
}

/// Recursive merge of one base value onto one defaults value.
#[verifier::loop_isolation(false)]
fn merge(base: &RcValue, defaults: &RcValue) -> (r: RcValue)
    ensures
        r@ == merge_spec(base@, defaults@),
    decreases base, 1int,
{
    let mut object = defaults_entries(defaults);
    match base {
        RcValue::Object(bm) => {
            proof {
                lemma_object_view(*bm);
                reveal_strlit("__proto__");
                reveal_strlit("constructor");
                assert(lit_proto() =~= "__proto__"@);
                assert(lit_constructor() =~= "constructor"@);
            }
            let ghost bv = entries_view(bm@);
            let ghost start = entries_view(object@);
            let mut i: usize = 0;
            while i < bm.len()
                invariant
                    0 <= i <= bm@.len(),
                    merge_entries(entries_view(object@), bv, i as int) == merge_entries(
                        start,
                        bv,
                        0,
                    ),
                decreases bm@.len() - i,
            {
                proof {
                    vstd::std_specs::vec::axiom_vec_index_decreases(*bm, i as int);
                    assert(decreases_to!(bm[i as int] => bm[i as int].1));
                    assert(decreases_to!(*base => bm[i as int].1));
                }
                let key = &bm[i].0;
                let value = &bm[i].1;
                let skip = crate::value::key_is(key, "__proto__") || crate::value::key_is(key, "constructor")
                    || match value {
                    RcValue::Null => true,
                    _ => false,
                };
                if !skip {
                    let merged = {
                        proof {
                            lemma_object_view(object);
                        }
                        let cur = match find_key(&object, key) {
                            Some(j) => Some(&object[j].1),
                            None => None,
                        };
                        merge_one_exec(value, cur)
                    };
                    obj_insert_exec(&mut object, key.clone(), merged);
                }
                i += 1;
            }
            proof {
                lemma_object_view(object);
            }
            RcValue::Object(object)
        },
        _ => {
            proof {
                lemma_object_view(object);
            }
            RcValue::Object(object)
        },
    }
}

/// Merge `base` over `defaults`, returning a new value. `base` is the
/// higher-priority side; `defaults` fills in missing pieces.
pub fn defu(base: &RcValue, defaults: &RcValue) -> (r: RcValue)
    ensures
        r@ == merge_spec(base@, defaults@),
{
    merge(base, defaults)
}

} // verus!
