//! Properties that hold across the registry, the resolver, the cache
//! validator and the dispatcher.

use vstd::prelude::*;
use crate::bytes::lower_seq;
use crate::cache::{
    entry_matches, etag_of, hex_digit, hex_seq, is_entry, list_matches, not_modified, strip_weak, trim_end,
    trim_start,
};
use crate::dispatch::{is_file_response, method_allowed, relative_path, start_outcome, Response};
use crate::registry::{
    is_chosen, lemma_lookup_chosen, lookup, normalize_host, site_matches, Site, SiteRegistry,
};
use crate::cache::HTTP_DATE_LIMIT;
use crate::registry::mount_covers;
use crate::resolve::{
    has_hidden, kept_pred, kept_segments, percent_decode, split_all, split_walk, Rejection,
    dot, dot_dot, has_nul, join_all, join_one, lemma_decode_plain, lemma_walk_escaped, lexical_target, push_segment,
    segments, walk,
};

verus! {

/// Host names are matched without regard to ASCII case: two `Host` values
/// that differ only in case select the same site.
pub proof fn law_host_case_insensitive(sites: Seq<Site>, h1: Seq<u8>, h2: Seq<u8>, path: Seq<u8>)
    requires
        lower_seq(h1) == lower_seq(h2),
    ensures
        lookup(sites, h1, path) == lookup(sites, h2, path),
{
    assert(normalize_host(h1) == normalize_host(h2));
    assert forall|i: int| is_chosen(sites, h1, path, i) == is_chosen(sites, h2, path, i) by {
        assert forall|j: int| 0 <= j < sites.len() implies site_matches(#[trigger] sites[j], h1, path)
            == site_matches(sites[j], h2, path) by {}
    }
    if exists|i: int| is_chosen(sites, h1, path, i) {
        let i = choose|i: int| is_chosen(sites, h1, path, i);
        lemma_lookup_chosen(sites, h1, path, i);
        lemma_lookup_chosen(sites, h2, path, i);
    }
}

/// Among the sites that match a request, one whose mount prefix is longer
/// than that of every other matching site is the one chosen: a site mounted
/// at `/blog` wins over one at `/` for `/blog/x` under the same host name,
/// and the one at `/` still answers paths that only it covers.
pub proof fn law_longest_prefix_wins(sites: Seq<Site>, host: Seq<u8>, path: Seq<u8>, i: int)
    requires
        0 <= i < sites.len(),
        site_matches(sites[i], host, path),
        forall|j: int| 0 <= j < sites.len() && j != i && site_matches(#[trigger] sites[j], host, path)
            ==> sites[j].mount_prefix@.len() < sites[i].mount_prefix@.len(),
    ensures
        lookup(sites, host, path) == Some(i),
{
    lemma_lookup_chosen(sites, host, path, i);
}

/// A path whose `..` segments climb above the document root is answered
/// with 403 before the filesystem is asked, for every site and every
/// accepted method. (Here the path holds no `%` escape and no NUL byte.)
pub proof fn law_escape_is_forbidden(reg: SiteRegistry, method: Seq<u8>, host: Seq<u8>, path: Seq<u8>)
    requires
        method_allowed(method),
        lookup(reg.sites@, host, path) is Some,
        ({
            let site = reg.sites@[lookup(reg.sites@, host, path)->0];
            let rel = relative_path(site.mount_prefix@, path);
            !has_nul(rel) && !has_hidden(rel) && (forall|k: int| 0 <= k < rel.len() ==> rel[k] != 37u8)
                && segments(rel) is None
        }),
    ensures
        start_outcome(reg, method, host, path) == Err::<Seq<u8>, u16>(403),
{
    let site = reg.sites@[lookup(reg.sites@, host, path)->0];
    lemma_decode_plain(relative_path(site.mount_prefix@, path));
}

/// A relative path that begins with a `..` segment escapes, whatever
/// follows it.
pub proof fn law_leading_parent_escapes(rest: Seq<u8>)
    requires
        rest.len() == 0 || rest[0] == 47u8,
    ensures
        segments(dot_dot() + rest) is None,
{
    let p = dot_dot() + rest;
    let e = Seq::<Seq<u8>>::empty();
    assert(p.drop_first().drop_first() =~= rest);
    assert(seq![46u8].push(46u8) =~= dot_dot());
    assert(Seq::<u8>::empty().push(46u8) =~= dot());
    assert(walk(Some(e), seq![], p) == walk(Some(e), dot(), p.drop_first()));
    assert(walk(Some(e), dot(), p.drop_first()) == walk(Some(e), dot_dot(), rest));
    assert(push_segment(Some(e), dot_dot()) is None);
    if rest.len() > 0 {
        lemma_walk_escaped(seq![], rest.drop_first());
    }
}

/// A plain file name: not empty, not starting with `.`, no `/`, `%` or NUL
/// byte.
pub open spec fn plain_name(n: Seq<u8>) -> bool {
    n.len() > 0 && n[0] != 46u8 && forall|k: int|
        0 <= k < n.len() ==> n[k] != 47u8 && n[k] != 37u8 && n[k] != 0u8
}

proof fn lemma_split_plain(done: Seq<Seq<u8>>, cur: Seq<u8>, rest: Seq<u8>)
    requires
        forall|k: int| 0 <= k < rest.len() ==> rest[k] != 47u8,
    ensures
        split_walk(done, cur, rest) == done.push(cur + rest),
    decreases rest.len(),
{
    if rest.len() == 0 {
        assert(cur + rest =~= cur);
    } else {
        lemma_split_plain(done, cur.push(rest[0]), rest.drop_first());
        assert(cur.push(rest[0]) + rest.drop_first() =~= cur + rest);
    }
}

proof fn lemma_walk_plain(st: Option<Seq<Seq<u8>>>, cur: Seq<u8>, rest: Seq<u8>)
    requires
        forall|k: int| 0 <= k < rest.len() ==> rest[k] != 47u8,
    ensures
        walk(st, cur, rest) == push_segment(st, cur + rest),
    decreases rest.len(),
{
    if rest.len() == 0 {
        assert(cur + rest =~= cur);
    } else {
        lemma_walk_plain(st, cur.push(rest[0]), rest.drop_first());
        assert(cur.push(rest[0]) + rest.drop_first() =~= cur + rest);
    }
}

/// The index file is reached the same way whether the request names the
/// mount point (the directory form, which resolves to the document root
/// and then gets the index file appended) or names the index file under it.
pub proof fn law_index_both_forms(root: Seq<u8>, mount: Seq<u8>, index: Seq<u8>)
    requires
        plain_name(index),
    ensures
        lexical_target(root, relative_path(mount, mount)) == Ok::<Seq<u8>, Rejection>(root),
        lexical_target(root, relative_path(mount, join_one(mount, index))) == Ok::<Seq<u8>, Rejection>(join_one(root, index)),
{
    reveal(Seq::filter);
    let e = Seq::<Seq<u8>>::empty();
    let empty = Seq::<u8>::empty();
    // the directory form
    assert(relative_path(mount, mount) =~= empty);
    lemma_decode_plain(empty);
    assert(split_all(empty) == e.push(empty));
    assert(!has_hidden(empty));
    assert(!has_nul(empty));
    assert(e.push(empty).drop_last() =~= e);
    assert(e.filter(kept_pred()) =~= e);
    assert(!kept_pred()(empty));
    assert(kept_segments(empty) =~= e);
    assert(join_all(root, e) == root);
    // the direct form
    let rel = relative_path(mount, join_one(mount, index));
    lemma_walk_plain(Some(e), seq![], index);
    assert(empty + index =~= index);
    assert(e.push(index).drop_last() =~= e);
    assert(join_all(root, e.push(index)) == join_one(root, index));
    if mount.len() > 0 && mount.last() == 47u8 {
        assert(rel =~= index);
        lemma_decode_plain(index);
        lemma_split_plain(e, empty, index);
        assert(kept_segments(index) =~= e.push(index));
        assert(!has_hidden(index)) by {
            assert(split_all(index) =~= e.push(index));
        }
    } else {
        assert(rel =~= seq![47u8] + index);
        lemma_decode_plain(rel);
        assert(rel.drop_first() =~= index);
        assert(rel[0] == 47u8);
        lemma_split_plain(e.push(empty), empty, index);
        assert(split_all(rel) == e.push(empty).push(index));
        assert(e.push(empty).push(index).drop_last() =~= e.push(empty));
        assert(kept_segments(rel) =~= e.push(index));
        assert(segments(rel) == walk(push_segment(Some(e), empty), empty, index));
        assert(!has_hidden(rel)) by {
            assert(split_all(rel) =~= seq![empty, index]);
        }
        assert(!has_nul(rel)) by {
            if has_nul(rel) {
                let k = choose|k: int| 0 <= k < rel.len() && rel[k] == 0u8;
                if k > 0 {
                    assert(rel[k] == index[k - 1]);
                }
            }
        }
    }
}

pub open spec fn parent_pred() -> spec_fn(Seq<u8>) -> bool {
    |s: Seq<u8>| s == dot_dot()
}

proof fn lemma_parents_kept(s: Seq<Seq<u8>>)
    ensures
        s.filter(kept_pred()).filter(parent_pred()) == s.filter(parent_pred()),
    decreases s.len(),
{
    reveal(Seq::filter);
    if s.len() > 0 {
        lemma_parents_kept(s.drop_last());
        if s.last() == dot_dot() {
            assert(dot_dot().len() == 2 && dot().len() == 1);
            assert(kept_pred()(s.last()));
            assert(s.filter(kept_pred()).drop_last() =~= s.drop_last().filter(kept_pred()));
        } else if kept_pred()(s.last()) {
            assert(s.filter(kept_pred()).drop_last() =~= s.drop_last().filter(kept_pred()));
        }
    }
}

/// The path that a request asks the filesystem to canonicalize keeps every
/// `..` segment that the (decoded) request path holds, in order: the
/// filesystem resolves each after the symlinks before it, so that the
/// containment check sees where the path really leads.
pub proof fn law_target_keeps_parents(root: Seq<u8>, rel: Seq<u8>)
    requires
        lexical_target(root, rel) is Ok,
    ensures
        lexical_target(root, rel) == Ok::<Seq<u8>, Rejection>(join_all(root, kept_segments(percent_decode(rel)))),
        kept_segments(percent_decode(rel)).filter(parent_pred()) == split_all(percent_decode(rel)).filter(parent_pred()),
{
    lemma_parents_kept(split_all(percent_decode(rel)));
}

/// Two sites under one host name, mounted at `/blog` and at `/`, in either
/// order: `/blog/...` goes to the first, every path that `/blog` does not
/// cover goes to the second.
pub proof fn law_blog_and_root_both_reachable(sites: Seq<Site>, host: Seq<u8>, b: int, r: int, rest: Seq<u8>, other: Seq<u8>)
    requires
        sites.len() == 2,
        0 <= b < 2,
        0 <= r < 2,
        b != r,
        sites[b].mount_prefix@ == seq![47u8, 98u8, 108u8, 111u8, 103u8],
        sites[r].mount_prefix@ == seq![47u8],
        lower_seq(sites[b].hostname@) == normalize_host(host),
        lower_seq(sites[r].hostname@) == normalize_host(host),
        other.len() > 0,
        other[0] == 47u8,
        !mount_covers(sites[b].mount_prefix@, other),
    ensures
        lookup(sites, host, sites[b].mount_prefix@ + seq![47u8] + rest) == Some(b),
        lookup(sites, host, other) == Some(r),
{
    let blog = sites[b].mount_prefix@;
    let p = blog + seq![47u8] + rest;
    assert(p.subrange(0, blog.len() as int) =~= blog);
    assert(p[blog.len() as int] == 47u8);
    assert(site_matches(sites[b], host, p));
    law_longest_prefix_wins(sites, host, p, b);
    assert(other.subrange(0, 1) =~= sites[r].mount_prefix@);
    assert(site_matches(sites[r], host, other));
    law_longest_prefix_wins(sites, host, other, r);
}

/// A client that sends back the `Last-Modified` of an answer as
/// `If-Modified-Since` (and no `If-None-Match`) gets 304 for the same file.
pub proof fn law_echoed_last_modified(r1: Response, r2: Response, path: Seq<u8>, size: u64, mtime: u64, head_only: bool, inm: Option<Seq<u8>>, ims: Option<Seq<u8>>)
    requires
        mtime < HTTP_DATE_LIMIT,
        is_file_response(r1, path, size, mtime, head_only, inm, ims),
        is_file_response(r2, path, size, mtime, head_only, None, Some(r1.last_modified->0@)),
    ensures
        r2.status == 304,
        r2.body_file is None,
{
}

/// The answer for a regular file depends on the file (path, size and
/// modification time), the method and the conditional headers alone: two
/// requests that reach the same file, as the two forms of an index request
/// do, get the same status, validators and body.
pub proof fn law_file_response_determined(r1: Response, r2: Response, path: Seq<u8>, size: u64, mtime: u64, head_only: bool, inm: Option<Seq<u8>>, ims: Option<Seq<u8>>)
    requires
        is_file_response(r1, path, size, mtime, head_only, inm, ims),
        is_file_response(r2, path, size, mtime, head_only, inm, ims),
    ensures
        r1.status == r2.status,
        r1.etag->0@ == r2.etag->0@,
        r1.body_file is Some <==> r2.body_file is Some,
        r1.body_file is Some ==> r1.body_file->0@ == r2.body_file->0@,
        r1.content_length == r2.content_length,
{
}

proof fn lemma_hex_no_comma_or_blank(n: nat)
    ensures
        forall|k: int| 0 <= k < hex_seq(n).len() ==> {
            let b = #[trigger] hex_seq(n)[k];
            b != 44u8 && b != 32u8 && b != 9u8
        },
    decreases n,
{
    if n >= 16 {
        lemma_hex_no_comma_or_blank(n / 16);
        let d = hex_digit((n % 16) as nat);
        assert(48 <= d <= 57 || 97 <= d <= 102);
        let h = hex_seq(n);
        assert(h == hex_seq(n / 16).push(d));
        assert forall|k: int| 0 <= k < h.len() implies {
            let b = #[trigger] h[k];
            b != 44u8 && b != 32u8 && b != 9u8
        } by {
            if k < h.len() - 1 {
                assert(h[k] == hex_seq(n / 16)[k]);
            }
        }
    } else {
        let d = hex_digit(n);
        assert(48 <= d <= 57 || 97 <= d <= 102);
        assert(hex_seq(n) == seq![d]);
    }
}

/// An entity tag is one entry of a list that names it.
pub proof fn law_etag_names_itself(size: u64, mtime: u64)
    ensures
        list_matches(etag_of(size, mtime), etag_of(size, mtime)),
{
    let t = etag_of(size, mtime);
    lemma_hex_no_comma_or_blank(size as nat);
    lemma_hex_no_comma_or_blank(mtime as nat);
    let a = hex_seq(size as nat);
    let b = hex_seq(mtime as nat);
    assert forall|k: int| 0 <= k < t.len() implies t[k] != 44u8 by {
        if 1 <= k < 1 + a.len() {
            assert(t[k] == a[k - 1]);
        } else if 2 + a.len() <= k < 2 + a.len() + b.len() {
            assert(t[k] == b[k - 2 - a.len()]);
        }
    }
    assert(is_entry(t, 0, t.len() as int));
    assert(t.subrange(0, t.len() as int) =~= t);
    assert(trim_start(t) == t);
    assert(trim_end(t) == t);
    assert(strip_weak(t) == t);
    assert(entry_matches(t.subrange(0, t.len() as int), t));
}

/// Asking again with `If-None-Match` set to the entity tag of the first
/// answer gives 304, with no body and no length, whatever
/// `If-Modified-Since` says.
pub proof fn law_revalidation_not_modified(r: Response, path: Seq<u8>, size: u64, mtime: u64, head_only: bool, ims: Option<Seq<u8>>)
    requires
        is_file_response(r, path, size, mtime, head_only, Some(etag_of(size, mtime)), ims),
    ensures
        r.status == 304,
        r.body_file is None,
        r.content_length is None,
        r.etag->0@ == etag_of(size, mtime),
{
    law_etag_names_itself(size, mtime);
}

/// A file not modified after the `If-Modified-Since` time, with no
/// `If-None-Match`, is not modified.
pub proof fn law_not_newer_is_not_modified(etag: Seq<u8>, mtime: u64, since: u64)
    requires
        mtime <= since,
    ensures
        not_modified(etag, mtime, None, Some(since)),
{
}

proof fn lemma_hex_digit_injective(a: nat, b: nat)
    requires
        a < 16,
        b < 16,
        hex_digit(a) == hex_digit(b),
    ensures
        a == b,
{
}

proof fn lemma_hex_len(n: nat)
    ensures
        hex_seq(n).len() >= 1,
        n >= 16 ==> hex_seq(n).len() >= 2,
        forall|k: int| 0 <= k < hex_seq(n).len() ==> #[trigger] hex_seq(n)[k] != 45u8,
    decreases n,
{
    if n >= 16 {
        lemma_hex_len(n / 16);
        let h = hex_seq(n);
        assert(h == hex_seq(n / 16).push(hex_digit((n % 16) as nat)));
        assert forall|k: int| 0 <= k < h.len() implies #[trigger] h[k] != 45u8 by {
            if k < h.len() - 1 {
                assert(h[k] == hex_seq(n / 16)[k]);
            }
        }
    } else {
        assert(hex_seq(n) == seq![hex_digit(n)]);
    }
}

proof fn lemma_hex_injective(n: nat, m: nat)
    requires
        hex_seq(n) == hex_seq(m),
    ensures
        n == m,
    decreases n,
{
    lemma_hex_len(n);
    lemma_hex_len(m);
    let h = hex_seq(n);
    if n < 16 && m < 16 {
        assert(h[0] == hex_digit(n));
        assert(hex_seq(m)[0] == hex_digit(m));
        lemma_hex_digit_injective(n, m);
    } else if n >= 16 && m >= 16 {
        assert(h.last() == hex_digit((n % 16) as nat));
        assert(hex_seq(m).last() == hex_digit((m % 16) as nat));
        lemma_hex_digit_injective((n % 16) as nat, (m % 16) as nat);
        assert(hex_seq(n / 16) =~= h.drop_last());
        assert(hex_seq(m / 16) =~= hex_seq(m).drop_last());
        lemma_hex_injective(n / 16, m / 16);
    } else {
        lemma_hex_len(n / 16);
        lemma_hex_len(m / 16);
    }
}

/// The entity tag changes exactly when the size or the modification time
/// does.
pub proof fn law_etag_injective(s1: u64, m1: u64, s2: u64, m2: u64)
    ensures
        (etag_of(s1, m1) == etag_of(s2, m2)) <==> (s1 == s2 && m1 == m2),
{
    if etag_of(s1, m1) == etag_of(s2, m2) {
        let a1 = hex_seq(s1 as nat);
        let n1: int = a1.len() as int;
        let a2 = hex_seq(s2 as nat);
        let n2: int = a2.len() as int;
        let b1 = hex_seq(m1 as nat);
        let b2 = hex_seq(m2 as nat);
        let t = etag_of(s1, m1);
        lemma_hex_len(s1 as nat);
        lemma_hex_len(s2 as nat);
        lemma_hex_len(m1 as nat);
        lemma_hex_len(m2 as nat);
        assert(t[1 + n1] == 45u8);
        assert(etag_of(s2, m2)[1 + n2] == 45u8);
        if n1 < n2 {
            assert(etag_of(s2, m2)[1 + n1] == a2[n1]);
        } else if n2 < n1 {
            assert(t[1 + n2] == a1[n2]);
        }
        assert(n1 == n2);
        assert(a1 =~= t.subrange(1, 1 + n1));
        assert(a2 =~= etag_of(s2, m2).subrange(1, 1 + n2));
        lemma_hex_injective(s1 as nat, s2 as nat);
        assert(b1 =~= t.subrange(2 + n1, t.len() - 1));
        assert(b2 =~= etag_of(s2, m2).subrange(2 + n2, t.len() - 1));
        lemma_hex_injective(m1 as nat, m2 as nat);
    }
}

} // verus!
