//! Character-level helpers: the whitespace set, trimming, digit runs and
//! decimal rendering.
use vstd::prelude::*;

verus! {

/// Whitespace characters of the `\s` class of JavaScript regular expressions: ASCII
/// whitespace, the Unicode space separators, the line and paragraph
/// separators, the no-break spaces and the byte order mark.
pub open spec fn is_js_ws(c: char) -> bool {
    ||| c == '\u{0009}'
    ||| c == '\u{000A}'
    ||| c == '\u{000B}'
    ||| c == '\u{000C}'
    ||| c == '\u{000D}'
    ||| c == '\u{0020}'
    ||| c == '\u{00A0}'
    ||| c == '\u{1680}'
    ||| ('\u{2000}' <= c && c <= '\u{200A}')
    ||| c == '\u{2028}'
    ||| c == '\u{2029}'
    ||| c == '\u{202F}'
    ||| c == '\u{205F}'
    ||| c == '\u{3000}'
    ||| c == '\u{FEFF}'
}

/// Whether `c` is in the whitespace set.
pub fn js_whitespace(c: char) -> (r: bool)
    ensures
        r == is_js_ws(c),
{
    c == '\u{0009}' || c == '\u{000A}' || c == '\u{000B}' || c == '\u{000C}' || c == '\u{000D}'
        || c == '\u{0020}' || c == '\u{00A0}' || c == '\u{1680}' || ('\u{2000}' <= c && c
        <= '\u{200A}') || c == '\u{2028}' || c == '\u{2029}' || c == '\u{202F}' || c
        == '\u{205F}' || c == '\u{3000}' || c == '\u{FEFF}'
}

/// The end of the run of whitespace that starts at `i`.
pub open spec fn ws_run(s: Seq<char>, i: int) -> int
    decreases s.len() - i,
{
    if 0 <= i < s.len() && is_js_ws(s[i]) {
        ws_run(s, i + 1)
    } else {
        i
    }
}

/// The start of the run of whitespace that ends just before `j`.
pub open spec fn ws_run_back(s: Seq<char>, j: int) -> int
    decreases j,
{
    if 0 < j <= s.len() && is_js_ws(s[j - 1]) {
        ws_run_back(s, j - 1)
    } else {
        j
    }
}

/// `s` without leading or trailing whitespace.
pub open spec fn trim(s: Seq<char>) -> Seq<char> {
    let a = ws_run(s, 0);
    let b = ws_run_back(s, s.len() as int);
    if a < b {
        s.subrange(a, b)
    } else {
        Seq::empty()
    }
}

pub proof fn lemma_ws_run(s: Seq<char>, i: int)
    requires
        0 <= i <= s.len(),
    ensures
        i <= ws_run(s, i) <= s.len(),
        forall|k: int| i <= k < ws_run(s, i) ==> is_js_ws(#[trigger] s[k]),
        ws_run(s, i) < s.len() ==> !is_js_ws(s[ws_run(s, i)]),
    decreases s.len() - i,
{
    if i < s.len() && is_js_ws(s[i]) {
        lemma_ws_run(s, i + 1);
    }
}

pub proof fn lemma_ws_run_back(s: Seq<char>, j: int)
    requires
        0 <= j <= s.len(),
    ensures
        0 <= ws_run_back(s, j) <= j,
        forall|k: int| ws_run_back(s, j) <= k < j ==> is_js_ws(#[trigger] s[k]),
        ws_run_back(s, j) > 0 ==> !is_js_ws(s[ws_run_back(s, j) - 1]),
    decreases j,
{
    if 0 < j && is_js_ws(s[j - 1]) {
        lemma_ws_run_back(s, j - 1);
    }
}

/// Index of the first non-whitespace character at or after `i`.
pub fn skip_ws(s: &Vec<char>, i: usize) -> (r: usize)
    requires
        i <= s@.len(),
    ensures
        r == ws_run(s@, i as int),
        i <= r <= s@.len(),
{
    let mut k = i;
    while k < s.len() && js_whitespace(s[k])
        invariant
            i <= k <= s@.len(),
            ws_run(s@, i as int) == ws_run(s@, k as int),
        decreases s@.len() - k,
    {
        k += 1;
    }
    k
}

/// Index just past the last non-whitespace character before `j`.
pub fn skip_ws_back(s: &Vec<char>, j: usize) -> (r: usize)
    requires
        j <= s@.len(),
    ensures
        r == ws_run_back(s@, j as int),
        r <= j,
{
    let mut k = j;
    while k > 0 && js_whitespace(s[k - 1])
        invariant
            k <= j <= s@.len(),
            ws_run_back(s@, j as int) == ws_run_back(s@, k as int),
        decreases k,
    {
        k -= 1;
    }
    k
}

/// The characters of `s` from `a` up to `b`.
pub fn slice_chars(s: &Vec<char>, a: usize, b: usize) -> (r: Vec<char>)
    requires
        a <= b <= s@.len(),
    ensures
        r@ == s@.subrange(a as int, b as int),
{
    let mut out: Vec<char> = Vec::new();
    let mut k = a;
    while k < b
        invariant
            a <= k <= b <= s@.len(),
            out@ == s@.subrange(a as int, k as int),
        decreases b - k,
    {
        out.push(s[k]);
        k += 1;
        assert(out@ =~= s@.subrange(a as int, k as int));
    }
    out
}

/// `s` without leading or trailing whitespace.
pub fn trim_chars(s: &Vec<char>) -> (r: Vec<char>)
    ensures
        r@ == trim(s@),
{
    let a = skip_ws(s, 0);
    let b = skip_ws_back(s, s.len());
    if a < b {
        slice_chars(s, a, b)
    } else {
        Vec::new()
    }
}

/// Whether `s` holds exactly the characters of `lit`.
pub fn chars_eq(s: &Vec<char>, lit: &Vec<char>) -> (r: bool)
    ensures
        r == (s@ == lit@),
{
    if s.len() != lit.len() {
        return false;
    }
    let mut k: usize = 0;
    while k < s.len()
        invariant
            s@.len() == lit@.len(),
            0 <= k <= s@.len(),
            forall|m: int| 0 <= m < k ==> s@[m] == lit@[m],
        decreases s@.len() - k,
    {
        if s[k] != lit[k] {
            return false;
        }
        k += 1;
    }
    assert(s@ =~= lit@);
    true
}

/// The characters of a string.
pub fn chars_of(s: &str) -> (r: Vec<char>)
    ensures
        r@ == s@,
{
    broadcast use vstd::string::group_string_axioms;

    let mut out: Vec<char> = Vec::new();
    for c in it: s.chars()
        invariant
            out@ == it.seq().take(it.index() as int),
    {
        out.push(c);
        assert(out@ =~= it.seq().take(it.index() as int + 1));
    }
    assert(out@ =~= s@);
    out
}

/// A string made of the given characters.
#[verifier::external_body]
pub(crate) fn string_from_chars(chars: &[char]) -> (r: String)
    ensures
        r@ == chars@,
{
    chars.iter().collect()
}

// ---------------------------------------------------------------------------
// Decimal digits.
/// The character for a decimal digit.
pub open spec fn digit_char(d: nat) -> char {
    if d == 0 {
        '0'
    } else if d == 1 {
        '1'
    } else if d == 2 {
        '2'
    } else if d == 3 {
        '3'
    } else if d == 4 {
        '4'
    } else if d == 5 {
        '5'
    } else if d == 6 {
        '6'
    } else if d == 7 {
        '7'
    } else if d == 8 {
        '8'
    } else {
        '9'
    }
}

/// Whether `c` is an ASCII decimal digit.
pub open spec fn is_digit(c: char) -> bool {
    '0' <= c && c <= '9'
}

/// The decimal representation of `n` without leading zeros.
pub open spec fn decimal(n: nat) -> Seq<char>
    decreases n,
{
    if n < 10 {
        seq![digit_char(n)]
    } else {
        decimal(n / 10).push(digit_char(n % 10))
    }
}

fn digit_exec(d: u128) -> (c: char)
    requires
        d < 10,
    ensures
        c == digit_char(d as nat),
{
    if d == 0 {
        '0'
    } else if d == 1 {
        '1'
    } else if d == 2 {
        '2'
    } else if d == 3 {
        '3'
    } else if d == 4 {
        '4'
    } else if d == 5 {
        '5'
    } else if d == 6 {
        '6'
    } else if d == 7 {
        '7'
    } else if d == 8 {
        '8'
    } else {
        '9'
    }
}

/// Append the decimal representation of `n`.
pub fn push_decimal(out: &mut Vec<char>, n: u128)
    ensures
        final(out)@ == old(out)@ + decimal(n as nat),
    decreases n,
{
    if n >= 10 {
        push_decimal(out, n / 10);
    }
    let c = digit_exec(n % 10);
    out.push(c);
    assert(final(out)@ =~= old(out)@ + decimal(n as nat));
}

/// Number of ASCII digits at the start of `s` from `i`.
pub open spec fn digit_run(s: Seq<char>, i: int) -> int
    decreases s.len() - i,
{
    if 0 <= i < s.len() && is_digit(s[i]) {
        digit_run(s, i + 1)
    } else {
        i
    }
}

/// Index just past the run of ASCII digits that starts at `i`.
pub fn skip_digits(s: &Vec<char>, i: usize) -> (r: usize)
    requires
        i <= s@.len(),
    ensures
        r == digit_run(s@, i as int),
        i <= r <= s@.len(),
{
    let mut k = i;
    while k < s.len() && '0' <= s[k] && s[k] <= '9'
        invariant
            i <= k <= s@.len(),
            digit_run(s@, i as int) == digit_run(s@, k as int),
        decreases s@.len() - k,
    {
        k += 1;
    }
    k
}

} // verus!
