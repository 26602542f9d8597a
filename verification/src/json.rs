//! JSON text: decoding through serde_json, string quoting, and the compact
//! JSON form of a value.
use vstd::prelude::*;
use crate::text::chars_of;
use crate::value::{RcValue, RcNumber, FloatNumber, JValue, Obj, items_view, entries_view, lemma_array_view, lemma_object_view};
use crate::number::{number_json, push_number_json};

verus! {

#[verifier::external_type_specification]
#[verifier::external_body]
pub struct ExJsonValue(serde_json::Value);

#[verifier::external_type_specification]
#[verifier::external_body]
pub struct ExJsonNumber(serde_json::Number);

/// What `serde_json::from_str::<serde_json::Value>` makes of a text, taken
/// into this library's value model: the decoded value, or the error message.
pub uninterp spec fn json_decode(text: Seq<char>) -> Result<JValue, Seq<char>>;

/// Converts a decoded serde_json number into this library's number, keeping
/// its kind: a non-negative integer, a negative integer, or a double held by
/// its bit pattern and its shortest text.
#[verifier::external_body]
fn number_from_serde(n: &serde_json::Number) -> RcNumber {
    match (n.as_u64(), n.as_i64()) {
        (Some(u), _) => RcNumber::PosInt(u),
        (None, Some(i)) => RcNumber::NegInt(i),
        (None, None) => RcNumber::Float(
            FloatNumber { bits: n.as_f64().map_or(0, |f| f.to_bits()), text: n.to_string() },
        ),
    }
}

/// Converts a decoded serde_json value into this library's value, one
/// variant for one, keeping object entries in their order.
#[verifier::external_body]
fn value_from_serde(v: serde_json::Value) -> RcValue {
    match v {
        serde_json::Value::Null => RcValue::Null,
        serde_json::Value::Bool(b) => RcValue::Bool(b),
        serde_json::Value::Number(n) => RcValue::Number(number_from_serde(&n)),
        serde_json::Value::String(s) => RcValue::String(s),
        serde_json::Value::Array(a) => RcValue::Array(a.into_iter().map(value_from_serde).collect()),
        serde_json::Value::Object(m) => RcValue::Object(
            m.into_iter().map(|(k, x)| (k, value_from_serde(x))).collect(),
        ),
    }
}

/// Decodes JSON text with `serde_json::from_str::<serde_json::Value>`. The
/// contract claims only that the result is determined by the text: it is the
/// value named by `json_decode`, or the error message it names.
#[verifier::external_body]
pub(crate) fn decode_json(text: &str) -> (r: Result<RcValue, String>)
    ensures
        match r {
            Ok(v) => json_decode(text@) == Ok::<JValue, Seq<char>>(v@),
            Err(m) => json_decode(text@) == Err::<JValue, Seq<char>>(m@),
        },
{
    match serde_json::from_str::<serde_json::Value>(text) {
        Ok(v) => Ok(value_from_serde(v)),
        Err(e) => Err(e.to_string()),
    }
}

/// A lowercase hexadecimal digit.
pub open spec fn hex_char(d: nat) -> char {
    if d < 10 {
        crate::text::digit_char(d)
    } else if d == 10 {
        'a'
    } else if d == 11 {
        'b'
    } else if d == 12 {
        'c'
    } else if d == 13 {
        'd'
    } else if d == 14 {
        'e'
    } else {
        'f'
    }
}

/// How one character appears inside a JSON string literal: the quote and the
/// backslash are escaped, the control characters below U+0020 use their short
/// escapes or `\u00XX`, every other character stands for itself.
pub open spec fn escape_char(c: char) -> Seq<char> {
    if c == '"' {
        seq!['\\', '"']
    } else if c == '\\' {
        seq!['\\', '\\']
    } else if c == '\u{8}' {
        seq!['\\', 'b']
    } else if c == '\t' {
        seq!['\\', 't']
    } else if c == '\n' {
        seq!['\\', 'n']
    } else if c == '\u{c}' {
        seq!['\\', 'f']
    } else if c == '\r' {
        seq!['\\', 'r']
    } else if (c as u32) < 0x20 {
        seq!['\\', 'u', '0', '0', hex_char((c as u32 / 16) as nat), hex_char((c as u32 % 16) as nat)]
    } else {
        seq![c]
    }
}

/// The escaped body of a JSON string literal.
pub open spec fn escape_str(s: Seq<char>) -> Seq<char>
    decreases s.len(),
{
    if s.len() == 0 {
        Seq::empty()
    } else {
        escape_str(s.drop_last()) + escape_char(s.last())
    }
}

/// The JSON string literal for `s`.
pub open spec fn json_quoted(s: Seq<char>) -> Seq<char> {
    seq!['"'] + escape_str(s) + seq!['"']
}

/// Writes a string as a JSON string literal with `serde_json::to_string`. The
/// contract states the escaping that serde_json's string writer performs.
#[verifier::external_body]
pub(crate) fn json_quote(s: &str) -> (r: String)
    ensures
        r@ == json_quoted(s@),
{
    serde_json::to_string(s).unwrap_or_default()
}

/// The compact JSON text of a value, as a JSON serializer writes it.
pub open spec fn json_text(v: JValue) -> Seq<char>
    decreases v, 0int,
{
    match v {
        JValue::Null => seq!['n', 'u', 'l', 'l'],
        JValue::Bool(b) => if b {
            seq!['t', 'r', 'u', 'e']
        } else {
            seq!['f', 'a', 'l', 's', 'e']
        },
        JValue::Number(n) => number_json(n),
        JValue::Str(s) => json_quoted(s),
        JValue::Array(items) => seq!['['] + json_items(items, 0) + seq![']'],
        JValue::Object(entries) => seq!['{'] + json_entries(entries, 0) + seq!['}'],
    }
}

/// The comma-separated JSON texts of `items` from index `i`.
pub open spec fn json_items(items: Seq<JValue>, i: int) -> Seq<char>
    decreases items, items.len() - i,
{
    if 0 <= i < items.len() {
        (if i > 0 {
            seq![',']
        } else {
            Seq::empty()
        }) + json_text(items[i]) + json_items(items, i + 1)
    } else {
        Seq::empty()
    }
}

/// The comma-separated `"key":value` texts of `entries` from index `i`.
pub open spec fn json_entries(entries: Obj, i: int) -> Seq<char>
    decreases entries, entries.len() - i,
{
    if 0 <= i < entries.len() {
        (if i > 0 {
            seq![',']
        } else {
            Seq::empty()
        }) + json_quoted(entries[i].0) + seq![':'] + json_text(entries[i].1) + json_entries(
            entries,
            i + 1,
        )
    } else {
        Seq::empty()
    }
}

/// Append the characters of a string.
pub fn push_str(out: &mut Vec<char>, s: &str)
    ensures
        final(out)@ == old(out)@ + s@,
{
    let cs = chars_of(s);
    let mut k: usize = 0;
    while k < cs.len()
        invariant
            0 <= k <= cs@.len(),
            out@ == old(out)@ + cs@.take(k as int),
        decreases cs@.len() - k,
    {
        out.push(cs[k]);
        k += 1;
        assert(out@ =~= old(out)@ + cs@.take(k as int));
    }
    assert(cs@.take(k as int) =~= cs@);
}

/// Append the compact JSON text of a value.
pub fn push_json_text(out: &mut Vec<char>, v: &RcValue)
    ensures
        final(out)@ == old(out)@ + json_text(v@),
    decreases v, 1int,
{
    match v {
        RcValue::Null => {
            push_str(out, "null");
            proof {
                reveal_strlit("null");
            }
        },
        RcValue::Bool(b) => {
            if *b {
                push_str(out, "true");
                proof {
                    reveal_strlit("true");
                }
            } else {
                push_str(out, "false");
                proof {
                    reveal_strlit("false");
                }
            }
        },
        RcValue::Number(n) => push_number_json(out, n),
        RcValue::String(s) => {
            let q = json_quote(s.as_str());
            push_str(out, q.as_str());
        },
        RcValue::Array(_) => push_json_array(out, v),
        RcValue::Object(_) => push_json_object(out, v),
    }
}

#[verifier::loop_isolation(false)]
fn push_json_array(out: &mut Vec<char>, v: &RcValue)
    requires
        v is Array,
    ensures
        final(out)@ == old(out)@ + json_text(v@),
    decreases v, 0int,
{
    if let RcValue::Array(items) = v {
        proof {
            lemma_array_view(*items);
        }
        let ghost iv = items_view(items@);
        out.push('[');
        let ghost start = out@;
        let mut i: usize = 0;
        while i < items.len()
            invariant
                0 <= i <= items.len(),
                out@ + json_items(iv, i as int) == start + json_items(iv, 0),
            decreases items.len() - i,
        {
            proof {
                vstd::std_specs::vec::axiom_vec_index_decreases(*items, i as int);
                assert(decreases_to!(*v => items[i as int]));
            }
            let ghost before = out@;
            if i > 0 {
                out.push(',');
            }
            push_json_text(out, &items[i]);
            i += 1;
            assert(before + json_items(iv, i - 1) =~= out@ + json_items(iv, i as int));
        }
        out.push(']');
        assert(out@ =~= old(out)@ + json_text(v@));
    }
}

#[verifier::loop_isolation(false)]
fn push_json_object(out: &mut Vec<char>, v: &RcValue)
    requires
        v is Object,
    ensures
        final(out)@ == old(out)@ + json_text(v@),
    decreases v, 0int,
{
    if let RcValue::Object(entries) = v {
        proof {
            lemma_object_view(*entries);
        }
        let ghost ev = entries_view(entries@);
        out.push('{');
        let ghost start = out@;
        let mut i: usize = 0;
        while i < entries.len()
            invariant
                0 <= i <= entries.len(),
                out@ + json_entries(ev, i as int) == start + json_entries(ev, 0),
            decreases entries.len() - i,
        {
            proof {
                vstd::std_specs::vec::axiom_vec_index_decreases(*entries, i as int);
                assert(decreases_to!(entries[i as int] => entries[i as int].1));
                assert(decreases_to!(*v => entries[i as int].1));
            }
            let ghost before = out@;
            if i > 0 {
                out.push(',');
            }
            let q = json_quote(entries[i].0.as_str());
            push_str(out, q.as_str());
            out.push(':');
            push_json_text(out, &entries[i].1);
            i += 1;
            assert(before + json_entries(ev, i - 1) =~= out@ + json_entries(ev, i as int));
        }
        out.push('}');
        assert(out@ =~= old(out)@ + json_text(v@));
    }
}

impl RcNumber {
    /// The number a JSON number text decodes to, as serde_json reads it
    /// (without normalization), or `None` when the text is not a JSON number.
    pub fn parse(text: &str) -> (r: Option<RcNumber>)
        ensures
            match r {
                Some(n) => json_decode(text@) == Ok::<JValue, Seq<char>>(JValue::Number(n@)),
                None => !(json_decode(text@) matches Ok(JValue::Number(_))),
            },
    {
        match decode_json(text) {
            Ok(RcValue::Number(n)) => Some(n),
            _ => None,
        }
    }
}

} // verus!
