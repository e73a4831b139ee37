//! The path resolver: from a request path to a path under a document root.

use vstd::prelude::*;
use crate::bytes::{append_bytes, component_prefix, is_component_prefix, to_vec};

verus! {

/// Why a path was not resolved.
#[derive(Clone, Copy, Debug, PartialEq, Eq, Structural)]
pub enum Rejection {
    /// The path climbs out of the document root.
    PathEscape,
    /// The path holds a NUL byte, an encoded `/` or a hidden name.
    InvalidPath,
    /// Nothing servable is there.
    NotFound,
}

pub open spec fn dot() -> Seq<u8> {
    seq![46u8]
}

pub open spec fn dot_dot() -> Seq<u8> {
    seq![46u8, 46u8]
}

/// Adds one segment to the stack of directories walked so far: empty and
/// `.` segments are skipped, `..` goes up, and going up from the root
/// escapes (`None`).
pub open spec fn push_segment(stack: Option<Seq<Seq<u8>>>, seg: Seq<u8>) -> Option<Seq<Seq<u8>>> {
    match stack {
        None => None,
        Some(st) => if seg.len() == 0 || seg == dot() {
            Some(st)
        } else if seg == dot_dot() {
            if st.len() == 0 {
                None
            } else {
                Some(st.drop_last())
            }
        } else {
            Some(st.push(seg))
        },
    }
}

/// Walks the bytes of `rest`, with `cur` the segment read so far.
pub open spec fn walk(stack: Option<Seq<Seq<u8>>>, cur: Seq<u8>, rest: Seq<u8>) -> Option<Seq<Seq<u8>>>
    decreases rest.len(),
{
    if rest.len() == 0 {
        push_segment(stack, cur)
    } else if rest[0] == 47u8 {
        walk(push_segment(stack, cur), seq![], rest.drop_first())
    } else {
        walk(stack, cur.push(rest[0]), rest.drop_first())
    }
}

/// The segments that a relative path leads to, `.` and `..` applied; `None`
/// where a `..` climbs above the start.
pub open spec fn segments(rel: Seq<u8>) -> Option<Seq<Seq<u8>>> {
    walk(Some(seq![]), seq![], rel)
}

/// `p` followed by one more path component.
pub open spec fn join_one(p: Seq<u8>, seg: Seq<u8>) -> Seq<u8> {
    if p.len() > 0 && p.last() == 47u8 {
        p + seg
    } else {
        p + seq![47u8] + seg
    }
}

/// `root` followed by each of `segs`.
pub open spec fn join_all(root: Seq<u8>, segs: Seq<Seq<u8>>) -> Seq<u8>
    decreases segs.len(),
{
    if segs.len() == 0 {
        root
    } else {
        join_one(join_all(root, segs.drop_last()), segs.last())
    }
}

pub open spec fn has_nul(s: Seq<u8>) -> bool {
    exists|i: int| 0 <= i < s.len() && s[i] == 0u8
}

/// The value of an ASCII hexadecimal digit.
pub open spec fn hex_value(b: u8) -> Option<u8> {
    if 48 <= b <= 57 {
        Some((b - 48) as u8)
    } else if 65 <= b <= 70 {
        Some((b - 55) as u8)
    } else if 97 <= b <= 102 {
        Some((b - 87) as u8)
    } else {
        None
    }
}

/// Percent-decoding: each `%` followed by two hexadecimal digits becomes
/// the byte they name; every other byte, a stray `%` included, is kept.
pub open spec fn percent_decode(s: Seq<u8>) -> Seq<u8>
    decreases s.len(),
{
    if s.len() == 0 {
        s
    } else if s.len() >= 3 && s[0] == 37u8 && hex_value(s[1]) is Some && hex_value(s[2]) is Some {
        seq![(hex_value(s[1])->0 * 16 + hex_value(s[2])->0) as u8] + percent_decode(s.subrange(3, s.len() as int))
    } else {
        seq![s[0]] + percent_decode(s.drop_first())
    }
}

/// A path without `%` decodes to itself.
pub proof fn lemma_decode_plain(s: Seq<u8>)
    requires
        forall|k: int| 0 <= k < s.len() ==> s[k] != 37u8,
    ensures
        percent_decode(s) == s,
    decreases s.len(),
{
    if s.len() > 0 {
        lemma_decode_plain(s.drop_first());
        assert(seq![s[0]] + s.drop_first() =~= s);
    }
}

/// Number of `/` bytes in `s`.
pub open spec fn slash_count(s: Seq<u8>) -> nat
    decreases s.len(),
{
    if s.len() == 0 {
        0
    } else {
        (if s[0] == 47u8 { 1nat } else { 0nat }) + slash_count(s.drop_first())
    }
}

/// Splits the bytes of `rest` on `/`, with `cur` the segment read so far
/// and `done` the segments before it.
pub open spec fn split_walk(done: Seq<Seq<u8>>, cur: Seq<u8>, rest: Seq<u8>) -> Seq<Seq<u8>>
    decreases rest.len(),
{
    if rest.len() == 0 {
        done.push(cur)
    } else if rest[0] == 47u8 {
        split_walk(done.push(cur), seq![], rest.drop_first())
    } else {
        split_walk(done, cur.push(rest[0]), rest.drop_first())
    }
}

/// The segments of a path as written, split on `/` (empty ones included).
pub open spec fn split_all(p: Seq<u8>) -> Seq<Seq<u8>> {
    split_walk(seq![], seq![], p)
}

/// A segment that names something: neither empty nor `.`.
pub open spec fn keep_segment(s: Seq<u8>) -> bool {
    s.len() > 0 && s != dot()
}

pub open spec fn kept_pred() -> spec_fn(Seq<u8>) -> bool {
    |s: Seq<u8>| keep_segment(s)
}

/// The segments of a path as written, without empty and `.` segments;
/// every `..` stays, for the filesystem to resolve after the symlinks
/// before it.
pub open spec fn kept_segments(p: Seq<u8>) -> Seq<Seq<u8>> {
    split_all(p).filter(kept_pred())
}

/// A hidden name: a segment that starts with `.` but is neither `.` nor
/// `..`.
pub open spec fn is_hidden(s: Seq<u8>) -> bool {
    s.len() > 0 && s[0] == 46u8 && s != dot() && s != dot_dot()
}

pub open spec fn has_hidden(p: Seq<u8>) -> bool {
    exists|k: int| 0 <= k < split_all(p).len() && is_hidden(#[trigger] split_all(p)[k])
}

/// What a relative request path resolves to under `root`, before the
/// filesystem is asked. The path is percent-decoded first; a decoded NUL
/// byte, an encoded `/` or a hidden name makes it invalid, and a `..` that
/// climbs above the root makes it an escape. Otherwise it is the root
/// joined with the segments as written (empty and `.` ones dropped, `..`
/// kept), so that canonicalization resolves symlinks before `..`.
pub open spec fn lexical_target(root: Seq<u8>, rel: Seq<u8>) -> Result<Seq<u8>, Rejection> {
    let d = percent_decode(rel);
    if has_nul(d) || slash_count(d) != slash_count(rel) || has_hidden(d) {
        Err(Rejection::InvalidPath)
    } else {
        match segments(d) {
            None => Err(Rejection::PathEscape),
            Some(_) => Ok(join_all(root, kept_segments(d))),
        }
    }
}

/// A canonical path lies within the canonical root.
pub open spec fn contained(root: Seq<u8>, p: Seq<u8>) -> bool {
    component_prefix(root, p)
}

/// The containment check, component-wise: `/srv/a` contains `/srv/a` and
/// `/srv/a/x`, not `/srv/ab`.
pub fn is_contained(root: &[u8], p: &[u8]) -> (r: bool)
    ensures
        r == contained(root@, p@),
{
    is_component_prefix(root, p)
}

pub open spec fn views(v: Seq<Vec<u8>>) -> Seq<Seq<u8>> {
    Seq::new(v.len(), |i: int| v[i]@)
}

/// `p` with one more component.
pub fn join_component(p: &[u8], seg: &[u8]) -> (r: Vec<u8>)
    ensures
        r@ == join_one(p@, seg@),
{
    let mut r = to_vec(p);
    if !(p.len() > 0 && p[p.len() - 1] == 47u8) {
        r.push(47u8);
    }
    append_bytes(&mut r, seg);
    r
}

fn is_dot(seg: &Vec<u8>) -> (r: bool)
    ensures
        r == (seg@ == dot()),
{
    let r = seg.len() == 1 && seg[0] == 46u8;
    proof {
        if seg@.len() == 1 && seg@[0] == 46u8 {
            assert(seg@ =~= dot());
        }
    }
    r
}

fn is_dot_dot(seg: &Vec<u8>) -> (r: bool)
    ensures
        r == (seg@ == dot_dot()),
{
    let r = seg.len() == 2 && seg[0] == 46u8 && seg[1] == 46u8;
    proof {
        if seg@.len() == 2 && seg@[0] == 46u8 && seg@[1] == 46u8 {
            assert(seg@ =~= dot_dot());
        }
    }
    r
}

/// Applies one segment to the stack; `false` where it escapes.
fn apply_segment(stack: &mut Vec<Vec<u8>>, seg: Vec<u8>) -> (ok: bool)
    ensures
        ok ==> push_segment(Some(views(old(stack)@)), seg@) == Some(views(final(stack)@)),
        !ok ==> push_segment(Some(views(old(stack)@)), seg@) is None,
{
    if seg.len() == 0 || is_dot(&seg) {
        true
    } else if is_dot_dot(&seg) {
        if stack.len() == 0 {
            false
        } else {
            stack.pop();
            assert(views(stack@) =~= views(old(stack)@).drop_last());
            true
        }
    } else {
        let ghost sv = seg@;
        stack.push(seg);
        assert(views(stack@) =~= views(old(stack)@).push(sv));
        true
    }
}

/// The segments of a relative path, `.` and `..` applied, or `None` where a
/// `..` climbs above the start.
pub fn split_segments(rel: &[u8]) -> (r: Option<Vec<Vec<u8>>>)
    ensures
        r matches Some(v) ==> segments(rel@) == Some(views(v@)),
        r is None ==> segments(rel@) is None,
{
    let mut stack: Vec<Vec<u8>> = Vec::new();
    let mut cur: Vec<u8> = Vec::new();
    let mut i: usize = 0;
    assert(views(stack@) =~= Seq::<Seq<u8>>::empty());
    assert(rel@.subrange(0, rel@.len() as int) =~= rel@);
    while i < rel.len()
        invariant
            i <= rel@.len(),
            walk(Some(views(stack@)), cur@, rel@.subrange(i as int, rel@.len() as int)) == segments(rel@),
        decreases rel@.len() - i,
    {
        let ghost rest = rel@.subrange(i as int, rel@.len() as int);
        assert(rest.drop_first() =~= rel@.subrange(i + 1, rel@.len() as int));
        if rel[i] == 47u8 {
            let seg = cur;
            cur = Vec::new();
            if !apply_segment(&mut stack, seg) {
                proof {
                    lemma_walk_escaped(seq![], rest.drop_first());
                }
                return None;
            }
            assert(cur@ =~= seq![]);
        } else {
            cur.push(rel[i]);
        }
        i = i + 1;
    }
    if apply_segment(&mut stack, cur) {
        Some(stack)
    } else {
        None
    }
}

/// Once escaped, a walk stays escaped.
pub proof fn lemma_walk_escaped(cur: Seq<u8>, rest: Seq<u8>)
    ensures
        walk(None, cur, rest) is None,
    decreases rest.len(),
{
    if rest.len() > 0 {
        if rest[0] == 47u8 {
            lemma_walk_escaped(seq![], rest.drop_first());
        } else {
            lemma_walk_escaped(cur.push(rest[0]), rest.drop_first());
        }
    }
}

/// `root` followed by each of `segs`.
pub fn join_segments(root: &[u8], segs: &Vec<Vec<u8>>) -> (r: Vec<u8>)
    ensures
        r@ == join_all(root@, views(segs@)),
{
    let mut r = to_vec(root);
    let mut i: usize = 0;
    while i < segs.len()
        invariant
            i <= segs@.len(),
            r@ == join_all(root@, views(segs@).subrange(0, i as int)),
        decreases segs@.len() - i,
    {
        let ghost before = views(segs@).subrange(0, i as int);
        r = join_component(r.as_slice(), segs[i].as_slice());
        i = i + 1;
        assert(views(segs@).subrange(0, i as int).drop_last() =~= before);
    }
    assert(views(segs@).subrange(0, segs@.len() as int) =~= views(segs@));
    r
}

/// Whether `s` holds a NUL byte.
pub fn contains_nul(s: &[u8]) -> (r: bool)
    ensures
        r == has_nul(s@),
{
    let mut i: usize = 0;
    while i < s.len()
        invariant
            i <= s@.len(),
            forall|k: int| 0 <= k < i ==> s@[k] != 0u8,
        decreases s@.len() - i,
    {
        if s[i] == 0u8 {
            return true;
        }
        i = i + 1;
    }
    false
}

fn hex_digit_value(b: u8) -> (r: Option<u8>)
    ensures
        r == hex_value(b),
{
    if 48 <= b && b <= 57 {
        Some(b - 48)
    } else if 65 <= b && b <= 70 {
        Some(b - 55)
    } else if 97 <= b && b <= 102 {
        Some(b - 87)
    } else {
        None
    }
}

/// Percent-decodes `s`.
pub fn decode_percent(s: &[u8]) -> (r: Vec<u8>)
    ensures
        r@ == percent_decode(s@),
{
    let mut r: Vec<u8> = Vec::new();
    let mut i: usize = 0;
    assert(s@.subrange(0, s@.len() as int) =~= s@);
    assert(r@ + percent_decode(s@) =~= percent_decode(s@));
    while i < s.len()
        invariant
            i <= s@.len(),
            r@ + percent_decode(s@.subrange(i as int, s@.len() as int)) == percent_decode(s@),
        decreases s@.len() - i,
    {
        let ghost rest = s@.subrange(i as int, s@.len() as int);
        let ghost before = r@;
        let mut step: usize = 1;
        let mut byte: u8 = s[i];
        if s[i] == 37u8 && s.len() - i >= 3 {
            if let (Some(hi), Some(lo)) = (hex_digit_value(s[i + 1]), hex_digit_value(s[i + 2])) {
                byte = hi * 16 + lo;
                step = 3;
            }
        }
        proof {
            assert(rest[0] == s@[i as int]);
            if step == 3 {
                assert(rest[1] == s@[i + 1]);
                assert(rest[2] == s@[i + 2]);
                assert(rest.subrange(3, rest.len() as int) =~= s@.subrange(i + 3, s@.len() as int));
            } else {
                assert(rest.drop_first() =~= s@.subrange(i + 1, s@.len() as int));
                if rest.len() >= 3 {
                    assert(rest[1] == s@[i + 1]);
                    assert(rest[2] == s@[i + 2]);
                }
            }
        }
        r.push(byte);
        i = i + step;
        assert(before + percent_decode(rest) == r@ + percent_decode(s@.subrange(i as int, s@.len() as int)));
    }
    proof {
        assert(r@ + percent_decode(s@.subrange(i as int, s@.len() as int)) =~= r@);
    }
    r
}

/// The number of `/` bytes in `s`.
pub fn count_slashes(s: &[u8]) -> (r: usize)
    ensures
        r == slash_count(s@),
{
    let mut n: usize = 0;
    let mut i: usize = s.len();
    assert(s@.subrange(i as int, s@.len() as int) =~= Seq::<u8>::empty());
    while i > 0
        invariant
            i <= s@.len(),
            n == slash_count(s@.subrange(i as int, s@.len() as int)),
            n <= s@.len() - i,
        decreases i,
    {
        assert(s@.subrange(i - 1, s@.len() as int).drop_first() =~= s@.subrange(i as int, s@.len() as int));
        if s[i - 1] == 47u8 {
            n = n + 1;
        }
        i = i - 1;
    }
    assert(s@.subrange(0, s@.len() as int) =~= s@);
    n
}

/// Resolves a relative request path under `root` without touching the
/// filesystem: the path is percent-decoded; a NUL byte or an encoded `/` is
/// an invalid path, a `..` that climbs above the root is an escape,
/// otherwise the root joined with the segments.
pub fn resolve_lexically(root: &[u8], rel: &[u8]) -> (r: Result<Vec<u8>, Rejection>)
    ensures
        match (r, lexical_target(root@, rel@)) {
            (Ok(p), Ok(q)) => p@ == q,
            (Err(e), Err(f)) => e == f,
            _ => false,
        },
{
    let d = decode_percent(rel);
    if contains_nul(d.as_slice()) || count_slashes(d.as_slice()) != count_slashes(rel) {
        return Err(Rejection::InvalidPath);
    }
    let parts = split_all_segments(d.as_slice());
    if any_hidden(&parts) {
        return Err(Rejection::InvalidPath);
    }
    match split_segments(d.as_slice()) {
        None => Err(Rejection::PathEscape),
        Some(_) => {
            let kept = keep_named(&parts);
            Ok(join_segments(root, &kept))
        },
    }
}

/// The segments of `p` as written, split on `/`.
pub fn split_all_segments(p: &[u8]) -> (r: Vec<Vec<u8>>)
    ensures
        views(r@) == split_all(p@),
{
    let mut done: Vec<Vec<u8>> = Vec::new();
    let mut cur: Vec<u8> = Vec::new();
    let mut i: usize = 0;
    assert(views(done@) =~= Seq::<Seq<u8>>::empty());
    assert(p@.subrange(0, p@.len() as int) =~= p@);
    while i < p.len()
        invariant
            i <= p@.len(),
            split_walk(views(done@), cur@, p@.subrange(i as int, p@.len() as int)) == split_all(p@),
        decreases p@.len() - i,
    {
        let ghost rest = p@.subrange(i as int, p@.len() as int);
        assert(rest.drop_first() =~= p@.subrange(i + 1, p@.len() as int));
        if p[i] == 47u8 {
            let ghost dv = views(done@);
            let ghost cv = cur@;
            done.push(cur);
            cur = Vec::new();
            assert(views(done@) =~= dv.push(cv));
            assert(cur@ =~= seq![]);
        } else {
            cur.push(p[i]);
        }
        i = i + 1;
    }
    let ghost dv = views(done@);
    let ghost cv = cur@;
    assert(p@.subrange(i as int, p@.len() as int) =~= Seq::<u8>::empty());
    done.push(cur);
    assert(views(done@) =~= dv.push(cv));
    done
}

fn hidden(s: &Vec<u8>) -> (r: bool)
    ensures
        r == is_hidden(s@),
{
    let r = s.len() > 0 && s[0] == 46u8 && !is_dot(s) && !is_dot_dot(s);
    r
}

/// Whether some segment is a hidden name.
fn any_hidden(parts: &Vec<Vec<u8>>) -> (r: bool)
    ensures
        r == exists|k: int| 0 <= k < parts@.len() && is_hidden(#[trigger] views(parts@)[k]),
{
    let mut i: usize = 0;
    while i < parts.len()
        invariant
            i <= parts@.len(),
            forall|k: int| 0 <= k < i ==> !is_hidden(#[trigger] views(parts@)[k]),
        decreases parts@.len() - i,
    {
        if hidden(&parts[i]) {
            assert(is_hidden(views(parts@)[i as int]));
            return true;
        }
        i = i + 1;
    }
    false
}

/// The segments that name something: neither empty nor `.`.
fn keep_named(parts: &Vec<Vec<u8>>) -> (r: Vec<Vec<u8>>)
    ensures
        views(r@) == views(parts@).filter(kept_pred()),
{
    let mut r: Vec<Vec<u8>> = Vec::new();
    let mut i: usize = 0;
    proof {
        reveal(Seq::filter);
        assert(views(parts@).subrange(0, 0) =~= Seq::<Seq<u8>>::empty());
        assert(views(r@) =~= Seq::<Seq<u8>>::empty());
    }
    while i < parts.len()
        invariant
            i <= parts@.len(),
            views(r@) == views(parts@).subrange(0, i as int).filter(kept_pred()),
        decreases parts@.len() - i,
    {
        let ghost before = views(r@);
        let ghost sub = views(parts@).subrange(0, i + 1);
        proof {
            reveal(Seq::filter);
            assert(sub.drop_last() =~= views(parts@).subrange(0, i as int));
            assert(sub.last() == parts@[i as int]@);
        }
        let seg = &parts[i];
        if seg.len() > 0 && !is_dot(seg) {
            r.push(to_vec(seg.as_slice()));
            assert(views(r@) =~= before.push(seg@));
        }
        i = i + 1;
    }
    assert(views(parts@).subrange(0, parts@.len() as int) =~= views(parts@));
    r
}

} // verus!
