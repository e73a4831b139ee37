//! The cache validator: entity tags, `Last-Modified` and conditional GET.

use vstd::prelude::*;
use crate::bytes::{append_bytes, same_bytes, sub_vec};

verus! {

/// The first second that an HTTP date cannot show (the year 10000).
pub const HTTP_DATE_LIMIT: u64 = 253402300800;

/// The IMF-fixdate text of a time in seconds since the Unix epoch.
pub uninterp spec fn http_date_text(secs: u64) -> Seq<u8>;

/// The time, in seconds since the Unix epoch, that an HTTP date header
/// value names, if it is one.
pub uninterp spec fn http_date_value(text: Seq<u8>) -> Option<u64>;

/// Relies on actix-web's `HttpDate` formatting (httpdate's `Display`): the
/// text depends on the time alone, and httpdate's parser reads it back as
/// the same time; httpdate panics from the start of the year 10000 on.
#[verifier::external_body]
fn format_http_date(secs: u64) -> (r: Vec<u8>)
    requires
        secs < HTTP_DATE_LIMIT,
    ensures
        r@ == http_date_text(secs),
        http_date_value(r@) == Some(secs),
{
    let t = std::time::UNIX_EPOCH + std::time::Duration::from_secs(secs);
    actix_web::http::header::HttpDate::from(t).to_string().into_bytes()
}

/// Relies on actix-web's `HttpDate` parsing (httpdate's `FromStr`): the
/// result depends on the text alone.
#[verifier::external_body]
fn parse_http_date(text: &[u8]) -> (r: Option<u64>)
    ensures
        r == http_date_value(text@),
{
    let s = std::str::from_utf8(text).ok()?;
    let d = s.parse::<actix_web::http::header::HttpDate>().ok()?;
    std::time::SystemTime::from(d).duration_since(std::time::UNIX_EPOCH).ok().map(|x| x.as_secs())
}

pub open spec fn hex_digit(d: nat) -> u8 {
    if d < 10 {
        (48 + d) as u8
    } else {
        (87 + d) as u8
    }
}

/// Lower-case hexadecimal digits of `n`, without leading zeros.
pub open spec fn hex_seq(n: nat) -> Seq<u8>
    decreases n,
{
    if n < 16 {
        seq![hex_digit(n)]
    } else {
        hex_seq(n / 16).push(hex_digit(n % 16))
    }
}

/// The entity tag of a file of `size` bytes modified at `mtime`: the two
/// numbers in hexadecimal, joined by `-`, in double quotes.
pub open spec fn etag_of(size: u64, mtime: u64) -> Seq<u8> {
    seq![34u8] + hex_seq(size as nat) + seq![45u8] + hex_seq(mtime as nat) + seq![34u8]
}

fn push_hex(out: &mut Vec<u8>, n: u64)
    ensures
        final(out)@ == old(out)@ + hex_seq(n as nat),
    decreases n,
{
    if n >= 16 {
        push_hex(out, n / 16);
    }
    let d = n % 16;
    let c: u8 = if d < 10 { 48 + d as u8 } else { 87 + d as u8 };
    out.push(c);
    assert(final(out)@ =~= old(out)@ + hex_seq(n as nat));
}

/// The entity tag of a file from its size and modification time.
pub fn make_etag(size: u64, mtime: u64) -> (r: Vec<u8>)
    ensures
        r@ == etag_of(size, mtime),
{
    let mut r: Vec<u8> = Vec::new();
    r.push(34u8);
    push_hex(&mut r, size);
    r.push(45u8);
    push_hex(&mut r, mtime);
    r.push(34u8);
    assert(r@ =~= etag_of(size, mtime));
    r
}

/// The cache validators of a file.
pub struct CacheToken {
    pub etag: Vec<u8>,
    /// Absent where the time cannot be written as an HTTP date.
    pub last_modified: Option<Vec<u8>>,
}

/// The validators of a file from its size and modification time (seconds
/// since the Unix epoch).
pub fn build_token(size: u64, mtime: u64) -> (r: CacheToken)
    ensures
        r.etag@ == etag_of(size, mtime),
        mtime < HTTP_DATE_LIMIT ==> (r.last_modified matches Some(t) && t@ == http_date_text(mtime)
            && http_date_value(t@) == Some(mtime)),
        mtime >= HTTP_DATE_LIMIT ==> r.last_modified is None,
{
    let last_modified = if mtime < HTTP_DATE_LIMIT {
        Some(format_http_date(mtime))
    } else {
        None
    };
    CacheToken { etag: make_etag(size, mtime), last_modified }
}

pub open spec fn is_ws(b: u8) -> bool {
    b == 32u8 || b == 9u8
}

pub open spec fn trim_start(s: Seq<u8>) -> Seq<u8>
    decreases s.len(),
{
    if s.len() > 0 && is_ws(s[0]) {
        trim_start(s.drop_first())
    } else {
        s
    }
}

pub open spec fn trim_end(s: Seq<u8>) -> Seq<u8>
    decreases s.len(),
{
    if s.len() > 0 && is_ws(s.last()) {
        trim_end(s.drop_last())
    } else {
        s
    }
}

/// An entry without a weak-validator mark `W/`.
pub open spec fn strip_weak(s: Seq<u8>) -> Seq<u8> {
    if s.len() >= 2 && s[0] == 87u8 && s[1] == 47u8 {
        s.subrange(2, s.len() as int)
    } else {
        s
    }
}

/// An entry of an `If-None-Match` list names the tag: equal once blanks
/// around it and a `W/` mark are dropped.
pub open spec fn entry_matches(e: Seq<u8>, tag: Seq<u8>) -> bool {
    strip_weak(trim_end(trim_start(e))) == tag
}

/// `h[i..j]` is one entry of a comma-separated list.
pub open spec fn is_entry(h: Seq<u8>, i: int, j: int) -> bool {
    0 <= i <= j <= h.len() && (i == 0 || h[i - 1] == 44u8) && (j == h.len() || h[j] == 44u8)
        && forall|k: int| i <= k < j ==> h[k] != 44u8
}

/// Some entry of the `If-None-Match` list `h` names the tag.
pub open spec fn list_matches(h: Seq<u8>, tag: Seq<u8>) -> bool {
    exists|i: int, j: int| is_entry(h, i, j) && entry_matches(h.subrange(i, j), tag)
}

/// Whether a conditional request is answered with "not modified": an
/// `If-None-Match` list decides alone where present; otherwise an
/// `If-Modified-Since` time where present, the file counting as unchanged
/// when it is not newer than that time.
pub open spec fn not_modified(etag: Seq<u8>, mtime: u64, if_none_match: Option<Seq<u8>>, if_modified_since: Option<u64>) -> bool {
    match if_none_match {
        Some(h) => list_matches(h, etag),
        None => match if_modified_since {
            Some(t) => mtime <= t,
            None => false,
        },
    }
}

/// The outcome of a conditional check.
#[derive(Clone, Copy, Debug, PartialEq, Eq, Structural)]
pub enum Freshness {
    Fresh,
    NotModified,
}

/// Whether `e` names the tag.
pub fn entry_names(e: &[u8], tag: &[u8]) -> (r: bool)
    ensures
        r == entry_matches(e@, tag@),
{
    let mut a: usize = 0;
    assert(e@.subrange(0, e@.len() as int) =~= e@);
    while a < e.len() && (e[a] == 32u8 || e[a] == 9u8)
        invariant
            a <= e@.len(),
            trim_start(e@.subrange(a as int, e@.len() as int)) == trim_start(e@),
        decreases e@.len() - a,
    {
        assert(e@.subrange(a as int, e@.len() as int).drop_first() =~= e@.subrange(a + 1, e@.len() as int));
        a = a + 1;
    }
    let ghost ts = e@.subrange(a as int, e@.len() as int);
    assert(trim_start(e@) == ts);
    let mut b: usize = e.len();
    assert(ts.subrange(0, ts.len() as int) =~= ts);
    while b > a && (e[b - 1] == 32u8 || e[b - 1] == 9u8)
        invariant
            a <= b <= e@.len(),
            ts == e@.subrange(a as int, e@.len() as int),
            trim_end(e@.subrange(a as int, b as int)) == trim_end(ts),
        decreases b,
    {
        assert(e@.subrange(a as int, b as int).drop_last() =~= e@.subrange(a as int, b - 1));
        b = b - 1;
    }
    assert(trim_end(ts) == e@.subrange(a as int, b as int));
    if b - a >= 2 && e[a] == 87u8 && e[a + 1] == 47u8 {
        a = a + 2;
    }
    let inner = sub_vec(e, a, b);
    assert(inner@ =~= strip_weak(trim_end(trim_start(e@))));
    same_bytes(inner.as_slice(), tag)
}

/// Whether some entry of the `If-None-Match` list `h` names the tag.
pub fn list_names(h: &[u8], tag: &[u8]) -> (r: bool)
    ensures
        r == list_matches(h@, tag@),
{
    let mut start: usize = 0;
    let mut pos: usize = 0;
    while pos < h.len()
        invariant
            pos <= h@.len(),
            is_entry_start(h@, start as int, pos as int),
            forall|i: int, j: int| is_entry(h@, i, j) && j < pos ==> !entry_matches(#[trigger] h@.subrange(i, j), tag@),
        decreases h@.len() - pos,
    {
        if h[pos] == 44u8 {
            if check_entry(h, tag, start, pos) {
                return true;
            }
            start = pos + 1;
        } else {
            proof {
                assert forall|i: int, j: int| is_entry(h@, i, j) && j < pos + 1 implies !entry_matches(#[trigger] h@.subrange(i, j), tag@) by {
                    if j == pos {
                        assert(h@[j] == 44u8);
                    }
                }
            }
        }
        pos = pos + 1;
    }
    check_entry(h, tag, start, pos)
}

/// Checks the entry `h[start..pos]`, which ends at a comma or at the end.
fn check_entry(h: &[u8], tag: &[u8], start: usize, pos: usize) -> (r: bool)
    requires
        is_entry_start(h@, start as int, pos as int),
        pos == h@.len() || h@[pos as int] == 44u8,
        forall|i: int, j: int| is_entry(h@, i, j) && j < pos ==> !entry_matches(#[trigger] h@.subrange(i, j), tag@),
    ensures
        r ==> list_matches(h@, tag@),
        !r ==> forall|i: int, j: int| is_entry(h@, i, j) && j <= pos ==> !entry_matches(#[trigger] h@.subrange(i, j), tag@),
{
    let e = sub_vec(h, start, pos);
    assert(is_entry(h@, start as int, pos as int));
    let r = entry_names(e.as_slice(), tag);
    proof {
        if !r {
            assert forall|i: int, j: int| is_entry(h@, i, j) && j <= pos implies !entry_matches(#[trigger] h@.subrange(i, j), tag@) by {
                if j == pos {
                    lemma_entry_start_unique(h@, i, start as int, j);
                }
            }
        }
    }
    r
}

/// `start` begins the entry that runs up to `pos`.
pub open spec fn is_entry_start(h: Seq<u8>, start: int, pos: int) -> bool {
    0 <= start <= pos <= h.len() && (start == 0 || h[start - 1] == 44u8) && forall|k: int|
        start <= k < pos ==> h[k] != 44u8
}

proof fn lemma_entry_start_unique(h: Seq<u8>, i: int, start: int, j: int)
    requires
        is_entry(h, i, j),
        is_entry_start(h, start, j),
    ensures
        i == start,
{
    if i < start {
        assert(h[start - 1] == 44u8);
    } else if start < i {
        assert(h[i - 1] == 44u8);
    }
}

/// The conditional check on parsed headers.
pub fn evaluate(etag: &[u8], mtime: u64, if_none_match: Option<&[u8]>, if_modified_since: Option<u64>) -> (r: Freshness)
    ensures
        (r == Freshness::NotModified) == not_modified(etag@, mtime, opt_view(if_none_match), if_modified_since),
{
    let nm = match if_none_match {
        Some(h) => list_names(h, etag),
        None => match if_modified_since {
            Some(t) => mtime <= t,
            None => false,
        },
    };
    if nm {
        Freshness::NotModified
    } else {
        Freshness::Fresh
    }
}

pub open spec fn opt_view(o: Option<&[u8]>) -> Option<Seq<u8>> {
    match o {
        Some(s) => Some(s@),
        None => None,
    }
}

/// The `If-Modified-Since` time that a header value gives: nothing where
/// the header is absent or is not an HTTP date.
pub open spec fn since_time(text: Option<Seq<u8>>) -> Option<u64> {
    match text {
        Some(t) => http_date_value(t),
        None => None,
    }
}

/// The conditional check on raw header values; an `If-Modified-Since`
/// value that is not an HTTP date counts as absent.
pub fn evaluate_headers(etag: &[u8], mtime: u64, if_none_match: Option<&[u8]>, if_modified_since: Option<&[u8]>) -> (r: Freshness)
    ensures
        (r == Freshness::NotModified) == not_modified(etag@, mtime, opt_view(if_none_match), since_time(opt_view(if_modified_since))),
{
    let since = match if_modified_since {
        Some(t) => parse_http_date(t),
        None => None,
    };
    evaluate(etag, mtime, if_none_match, since)
}

} // verus!
