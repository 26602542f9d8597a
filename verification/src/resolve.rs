//! Path resolution that joins path segments into an absolute, normalized
//! path without touching the filesystem. `/` separates components, `.`
//! components are dropped and `..` removes the previous component. A `..`
//! with no name before it to remove is dropped at the root of an absolute
//! path and kept in a relative one.
use vstd::prelude::*;
use crate::text::{chars_of, string_from_chars};
use crate::flat::{split_by, segs_view, split_on};

verus! {

/// Whether a path is absolute.
pub open spec fn is_abs(p: Seq<char>) -> bool {
    p.len() > 0 && p[0] == '/'
}

/// `b` pushed onto `a`: an absolute `b` replaces `a`, otherwise a separator is
/// added when `a` is non-empty and does not already end in one.
pub open spec fn path_join(a: Seq<char>, b: Seq<char>) -> Seq<char> {
    if is_abs(b) {
        b
    } else if a.len() > 0 && a[a.len() - 1] != '/' {
        a + seq!['/'] + b
    } else {
        a + b
    }
}

pub open spec fn dot() -> Seq<char> {
    seq!['.']
}

pub open spec fn dotdot() -> Seq<char> {
    seq!['.', '.']
}

/// Collapse the components `parts` from index `i` onto `out`. A `..`
/// removes the last kept name; with none to remove it is dropped in an
/// absolute path (`abs`) and kept in a relative one.
pub open spec fn collapse(out: Seq<Seq<char>>, parts: Seq<Seq<char>>, i: int, abs: bool) -> Seq<
    Seq<char>,
>
    decreases parts.len() - i,
{
    if 0 <= i < parts.len() {
        let p = parts[i];
        let next = if p.len() == 0 || p == dot() {
            out
        } else if p == dotdot() {
            if out.len() > 0 && out.last() != dotdot() {
                out.drop_last()
            } else if abs {
                out
            } else {
                out.push(dotdot())
            }
        } else {
            out.push(p)
        };
        collapse(next, parts, i + 1, abs)
    } else {
        out
    }
}

/// Join components with `/` from index `i`.
pub open spec fn join_parts(parts: Seq<Seq<char>>, i: int) -> Seq<char>
    decreases parts.len() - i,
{
    if 0 <= i < parts.len() {
        (if i > 0 {
            seq!['/']
        } else {
            Seq::empty()
        }) + parts[i] + join_parts(parts, i + 1)
    } else {
        Seq::empty()
    }
}

/// The components a path normalizes to.
pub open spec fn normalized_parts(p: Seq<char>) -> Seq<Seq<char>> {
    collapse(Seq::empty(), split_by(p, '/'), 0, is_abs(p))
}

/// The normalized form of a path.
pub open spec fn normalize_spec(p: Seq<char>) -> Seq<char> {
    let out = normalized_parts(p);
    if is_abs(p) {
        seq!['/'] + join_parts(out, 0)
    } else {
        join_parts(out, 0)
    }
}

/// `name` resolved against `dir`, and a relative result against `cwd`.
pub open spec fn resolve_spec(cwd: Seq<char>, dir: Seq<char>, name: Seq<char>) -> Seq<char> {
    if is_abs(name) {
        normalize_spec(name)
    } else if is_abs(dir) {
        normalize_spec(path_join(dir, name))
    } else {
        normalize_spec(path_join(path_join(cwd, dir), name))
    }
}

fn path_join_exec(a: &Vec<char>, b: &Vec<char>) -> (r: Vec<char>)
    ensures
        r@ == path_join(a@, b@),
{
    if b.len() > 0 && b[0] == '/' {
        return crate::text::slice_chars(b, 0, b.len());
    }
    let mut out = crate::text::slice_chars(a, 0, a.len());
    if a.len() > 0 && a[a.len() - 1] != '/' {
        out.push('/');
    }
    let ghost base = out@;
    let mut k: usize = 0;
    while k < b.len()
        invariant
            0 <= k <= b@.len(),
            out@ == base + b@.take(k as int),
        decreases b@.len() - k,
    {
        out.push(b[k]);
        k += 1;
        assert(out@ =~= base + b@.take(k as int));
    }
    assert(b@.take(k as int) =~= b@);
    assert(a@.subrange(0, a@.len() as int) =~= a@);
    assert(out@ =~= path_join(a@, b@));
    out
}

fn normalize_exec(p: &Vec<char>) -> (r: Vec<char>)
    ensures
        r@ == normalize_spec(p@),
{
    let parts = split_on(p, '/');
    let ghost pv = segs_view(parts@);
    let dot_v = chars_of(".");
    let dotdot_v = chars_of("..");
    proof {
        reveal_strlit(".");
        reveal_strlit("..");
        assert(dot_v@ =~= dot());
        assert(dotdot_v@ =~= dotdot());
    }
    let abs = p.len() > 0 && p[0] == '/';
    let mut out: Vec<Vec<char>> = Vec::new();
    assert(segs_view(out@) =~= Seq::<Seq<char>>::empty());
    let mut i: usize = 0;
    while i < parts.len()
        invariant
            0 <= i <= parts@.len(),
            pv == segs_view(parts@),
            dot_v@ == dot(),
            dotdot_v@ == dotdot(),
            abs == is_abs(p@),
            collapse(segs_view(out@), pv, i as int, abs) == collapse(Seq::empty(), pv, 0, abs),
        decreases parts@.len() - i,
    {
        let ghost before = segs_view(out@);
        assert(pv[i as int] == parts@[i as int]@);
        if parts[i].len() == 0 || crate::text::chars_eq(&parts[i], &dot_v) {
        } else if crate::text::chars_eq(&parts[i], &dotdot_v) {
            let n = out.len();
            let last_is_dotdot = n > 0 && crate::text::chars_eq(&out[n - 1], &dotdot_v);
            proof {
                if n > 0 {
                    assert(before.last() == out@[n - 1]@);
                }
            }
            if n > 0 && !last_is_dotdot {
                out.pop();
                assert(segs_view(out@) =~= before.drop_last());
            } else if abs {
            } else {
                let dd = crate::text::slice_chars(&dotdot_v, 0, 2);
                assert(dd@ =~= dotdot());
                out.push(dd);
                assert(segs_view(out@) =~= before.push(dotdot()));
            }
        } else {
            let seg = crate::text::slice_chars(&parts[i], 0, parts[i].len());
            assert(seg@ =~= pv[i as int]);
            out.push(seg);
            assert(segs_view(out@) =~= before.push(pv[i as int]));
        }
        i += 1;
    }
    let ghost ov = segs_view(out@);
    let mut res: Vec<char> = Vec::new();
    if p.len() > 0 && p[0] == '/' {
        res.push('/');
    }
    let ghost base = res@;
    let mut j: usize = 0;
    while j < out.len()
        invariant
            0 <= j <= out@.len(),
            ov == segs_view(out@),
            res@ + join_parts(ov, j as int) == base + join_parts(ov, 0),
        decreases out@.len() - j,
    {
        let ghost before = res@;
        if j > 0 {
            res.push('/');
        }
        let mut k: usize = 0;
        let ghost mid = res@;
        while k < out[j].len()
            invariant
                j < out@.len(),
                0 <= k <= out@[j as int]@.len(),
                res@ == mid + out@[j as int]@.take(k as int),
            decreases out@[j as int]@.len() - k,
        {
            res.push(out[j][k]);
            k += 1;
            assert(res@ =~= mid + out@[j as int]@.take(k as int));
        }
        assert(out@[j as int]@.take(k as int) =~= ov[j as int]);
        j += 1;
        assert(before + join_parts(ov, j - 1) =~= res@ + join_parts(ov, j as int));
    }
    assert(res@ =~= normalize_spec(p@));
    res
}

/// Resolve `name` against `dir` into a normalized path. An absolute `name`
/// is used directly; otherwise it is joined onto `dir`, and a result that is
/// still relative is joined onto the working directory `cwd`.
pub fn resolve(cwd: &str, dir: &str, name: &str) -> (r: String)
    ensures
        r@ == resolve_spec(cwd@, dir@, name@),
{
    let c = chars_of(cwd);
    let d = chars_of(dir);
    let n = chars_of(name);
    let p = if n.len() > 0 && n[0] == '/' {
        normalize_exec(&n)
    } else if d.len() > 0 && d[0] == '/' {
        normalize_exec(&path_join_exec(&d, &n))
    } else {
        normalize_exec(&path_join_exec(&path_join_exec(&c, &d), &n))
    };
    string_from_chars(p.as_slice())
}

/// Resolve `segment` onto the base directory: an absolute segment overrides
/// the base.
pub fn resolve_from(base: &str, segment: &str) -> (r: String)
    ensures
        r@ == if is_abs(segment@) {
            normalize_spec(segment@)
        } else {
            normalize_spec(path_join(base@, segment@))
        },
{
    let b = chars_of(base);
    let s = chars_of(segment);
    let p = if s.len() > 0 && s[0] == '/' {
        normalize_exec(&s)
    } else {
        normalize_exec(&path_join_exec(&b, &s))
    };
    string_from_chars(p.as_slice())
}

} // verus!
