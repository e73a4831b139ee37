//! The request dispatcher. It decides each step of a request; the caller
//! does the filesystem work a step asks for (canonicalize a path, read its
//! metadata) and hands the result back, until a response comes out.

use vstd::prelude::*;
use crate::bytes::{sub_vec, to_vec};
use crate::cache::{
    build_token, etag_of, evaluate_headers, http_date_text, http_date_value, not_modified, since_time,
    Freshness, HTTP_DATE_LIMIT,
};
use crate::registry::{lookup, SiteRegistry};
use crate::resolve::{
    contained, is_contained, join_component, join_one, lexical_target, resolve_lexically, Rejection,
};

verus! {

/// A parsed request: what the dispatcher reads of it.
pub struct Request {
    pub method: Vec<u8>,
    pub host: Vec<u8>,
    pub path: Vec<u8>,
    pub if_none_match: Option<Vec<u8>>,
    pub if_modified_since: Option<Vec<u8>>,
}

/// A response descriptor. `body_file` names the file whose bytes form the
/// body; the body is empty where it is absent.
pub struct Response {
    pub status: u16,
    pub etag: Option<Vec<u8>>,
    pub last_modified: Option<Vec<u8>>,
    pub content_type: Option<Vec<u8>>,
    pub content_length: Option<u64>,
    pub body_file: Option<Vec<u8>>,
}

/// Which path a pending request is at: the one the request named, or the
/// index file of the directory it named.
#[derive(Clone, Copy, Debug, PartialEq, Eq, Structural)]
pub enum Phase {
    Target,
    Index,
}

/// A request between two steps.
pub struct Pending {
    pub document_root: Vec<u8>,
    pub index_file: Vec<u8>,
    pub phase: Phase,
    /// The path that the next step is about.
    pub target: Vec<u8>,
    pub head_only: bool,
    pub if_none_match: Option<Vec<u8>>,
    pub if_modified_since: Option<Vec<u8>>,
}

/// What happens next.
pub enum Step {
    /// The request is answered.
    Respond(Response),
    /// Canonicalize `target` and call `on_canonical`.
    Canonicalize(Pending),
    /// Read the metadata of `target` and call `on_metadata`.
    Inspect(Pending),
}

/// What the filesystem says of a path.
#[derive(Clone, Copy, Debug, PartialEq, Eq, Structural)]
pub enum Metadata {
    Missing,
    Directory,
    /// Exists, but is neither a regular file nor a directory.
    Other,
    /// A regular file, with its size and modification time in seconds
    /// since the Unix epoch.
    File { size: u64, mtime: u64 },
}

/// The status that answers a rejected path.
pub open spec fn rejection_status(r: Rejection) -> u16 {
    match r {
        Rejection::PathEscape => 403,
        Rejection::InvalidPath => 400,
        Rejection::NotFound => 404,
    }
}

pub fn status_of(r: Rejection) -> (s: u16)
    ensures
        s == rejection_status(r),
{
    match r {
        Rejection::PathEscape => 403,
        Rejection::InvalidPath => 400,
        Rejection::NotFound => 404,
    }
}

pub open spec fn seq_get() -> Seq<u8> {
    seq![71u8, 69u8, 84u8]
}

pub open spec fn seq_head() -> Seq<u8> {
    seq![72u8, 69u8, 65u8, 68u8]
}

pub open spec fn method_allowed(m: Seq<u8>) -> bool {
    m == seq_get() || m == seq_head()
}

/// The request path below the mount prefix.
pub open spec fn relative_path(mount: Seq<u8>, path: Seq<u8>) -> Seq<u8> {
    path.subrange(mount.len() as int, path.len() as int)
}

/// How a request starts: `Err(status)` where it is answered at once (no
/// site, a method other than GET or HEAD, a rejected path), else `Ok` of
/// the path to canonicalize.
pub open spec fn start_outcome(reg: SiteRegistry, method: Seq<u8>, host: Seq<u8>, path: Seq<u8>) -> Result<Seq<u8>, u16> {
    match lookup(reg.sites@, host, path) {
        None => Err(404),
        Some(i) => if !method_allowed(method) {
            Err(405)
        } else {
            let site = reg.sites@[i];
            match lexical_target(site.document_root@, relative_path(site.mount_prefix@, path)) {
                Err(e) => Err(rejection_status(e)),
                Ok(t) => Ok(t),
            }
        },
    }
}

pub open spec fn opt_seq(o: Option<Vec<u8>>) -> Option<Seq<u8>> {
    match o {
        Some(v) => Some(v@),
        None => None,
    }
}

/// A response of a status alone.
pub open spec fn is_bare(r: Response, status: u16) -> bool {
    r.status == status && r.etag is None && r.last_modified is None && r.content_type is None
        && r.content_length is None && r.body_file is None
}

pub fn bare_response(status: u16) -> (r: Response)
    ensures
        is_bare(r, status),
{
    Response {
        status,
        etag: None,
        last_modified: None,
        content_type: None,
        content_length: None,
        body_file: None,
    }
}

/// The response when the file could not be read after it was validated.
pub fn streaming_failure() -> (r: Response)
    ensures
        is_bare(r, 500),
{
    bare_response(500)
}

fn copy_opt(o: &Option<Vec<u8>>) -> (r: Option<Vec<u8>>)
    ensures
        opt_seq(r) == opt_seq(*o),
{
    match o {
        Some(v) => Some(to_vec(v.as_slice())),
        None => None,
    }
}

fn is_method(m: &[u8]) -> (r: (bool, bool))
    ensures
        r.0 == method_allowed(m@),
        r.1 == (m@ == seq_head()),
{
    let get = m.len() == 3 && m[0] == 71u8 && m[1] == 69u8 && m[2] == 84u8;
    let head = m.len() == 4 && m[0] == 72u8 && m[1] == 69u8 && m[2] == 65u8 && m[3] == 68u8;
    proof {
        if m@.len() == 3 && m@[0] == 71u8 && m@[1] == 69u8 && m@[2] == 84u8 {
            assert(m@ =~= seq_get());
        }
        if m@.len() == 4 && m@[0] == 72u8 && m@[1] == 69u8 && m@[2] == 65u8 && m@[3] == 68u8 {
            assert(m@ =~= seq_head());
        }
    }
    (get || head, head)
}

/// Starts a request: finds its site, checks the method and resolves the
/// path under the site's document root without the filesystem.
pub fn begin(reg: &SiteRegistry, req: &Request) -> (r: Step)
    ensures
        match start_outcome(*reg, req.method@, req.host@, req.path@) {
            Err(s) => r matches Step::Respond(resp) && is_bare(resp, s),
            Ok(t) => r matches Step::Canonicalize(p) && p.target@ == t && p.phase == Phase::Target
                && (exists|i: int| lookup(reg.sites@, req.host@, req.path@) == Some(i)
                    && p.document_root@ == reg.sites@[i].document_root@ && p.index_file@
                    == reg.sites@[i].index_file@) && p.head_only == (req.method@ == seq_head())
                && opt_seq(p.if_none_match) == opt_seq(req.if_none_match)
                && opt_seq(p.if_modified_since) == opt_seq(req.if_modified_since),
        },
{
    let found = reg.find_site(req.host.as_slice(), req.path.as_slice());
    let i = match found {
        None => return Step::Respond(bare_response(404)),
        Some(i) => i,
    };
    let (allowed, head_only) = is_method(req.method.as_slice());
    if !allowed {
        return Step::Respond(bare_response(405));
    }
    let site = &reg.sites[i];
    proof {
        crate::registry::lemma_lookup_chosen(reg.sites@, req.host@, req.path@, i as int);
    }
    let rel = sub_vec(req.path.as_slice(), site.mount_prefix.len(), req.path.len());
    match resolve_lexically(site.document_root.as_slice(), rel.as_slice()) {
        Err(e) => Step::Respond(bare_response(status_of(e))),
        Ok(target) => Step::Canonicalize(
            Pending {
                document_root: to_vec(site.document_root.as_slice()),
                index_file: to_vec(site.index_file.as_slice()),
                phase: Phase::Target,
                target,
                head_only,
                if_none_match: copy_opt(&req.if_none_match),
                if_modified_since: copy_opt(&req.if_modified_since),
            },
        ),
    }
}

/// The media type that actix-files gives a file extension.
pub uninterp spec fn mime_of_extension(ext: Seq<u8>) -> Seq<u8>;

/// Relies on actix-files' `file_extension_to_mime`: the media type for an
/// extension (`application/octet-stream` where unknown), which depends on
/// the extension alone.
#[verifier::external_body]
fn mime_for_extension(ext: &[u8]) -> (r: Vec<u8>)
    ensures
        r@ == mime_of_extension(ext@),
{
    actix_files::file_extension_to_mime(&String::from_utf8_lossy(ext)).to_string().into_bytes()
}

/// Where the extension of the last component of `p` starts: just after its
/// last `.`; `-1` where that component has no `.` other than a leading
/// one.
pub open spec fn ext_start(p: Seq<u8>) -> int
    decreases p.len(),
{
    if p.len() == 0 || p.last() == 47u8 {
        -1
    } else if p.last() == 46u8 {
        if p.len() == 1 || p[p.len() - 2] == 47u8 {
            -1
        } else {
            p.len() as int
        }
    } else {
        ext_start(p.drop_last())
    }
}

/// The extension of the file that `p` names; empty where it has none.
pub open spec fn extension(p: Seq<u8>) -> Seq<u8> {
    if ext_start(p) < 0 {
        seq![]
    } else {
        p.subrange(ext_start(p), p.len() as int)
    }
}

/// The extension of the file that `p` names.
pub fn file_extension(p: &[u8]) -> (r: Vec<u8>)
    ensures
        r@ == extension(p@),
{
    let mut k: usize = p.len();
    assert(p@.subrange(0, k as int) =~= p@);
    while k > 0 && p[k - 1] != 46u8 && p[k - 1] != 47u8
        invariant
            k <= p@.len(),
            ext_start(p@.subrange(0, k as int)) == ext_start(p@),
        decreases k,
    {
        assert(p@.subrange(0, k as int).drop_last() =~= p@.subrange(0, k - 1));
        k = k - 1;
    }
    if k > 1 && p[k - 1] == 46u8 && p[k - 2] != 47u8 {
        sub_vec(p, k, p.len())
    } else {
        Vec::new()
    }
}

/// The media type of the file that `p` names.
pub fn content_type_of(p: &[u8]) -> (r: Vec<u8>)
    ensures
        r@ == mime_of_extension(extension(p@)),
{
    let ext = file_extension(p);
    mime_for_extension(ext.as_slice())
}

/// The answer for a regular file of `size` bytes modified at `mtime`, at
/// `path`: 304 with only the validators where the conditional headers say
/// the client's copy is current, else 200 with validators, type, length
/// and (but for HEAD) the file as body.
pub open spec fn is_file_response(r: Response, path: Seq<u8>, size: u64, mtime: u64, head_only: bool, if_none_match: Option<Seq<u8>>, if_modified_since: Option<Seq<u8>>) -> bool {
    let nm = not_modified(etag_of(size, mtime), mtime, if_none_match, since_time(if_modified_since));
    &&& r.status == (if nm { 304u16 } else { 200u16 })
    &&& r.etag matches Some(e) && e@ == etag_of(size, mtime)
    &&& (mtime < HTTP_DATE_LIMIT ==> (r.last_modified matches Some(t) && t@ == http_date_text(mtime)
        && http_date_value(t@) == Some(mtime)))
    &&& (mtime >= HTTP_DATE_LIMIT ==> r.last_modified is None)
    &&& (nm ==> r.content_type is None && r.content_length is None && r.body_file is None)
    &&& (!nm ==> (r.content_type matches Some(c) && c@ == mime_of_extension(extension(path))))
    &&& (!nm ==> r.content_length == Some(size))
    &&& (!nm && !head_only ==> (r.body_file matches Some(f) && f@ == path))
    &&& (!nm && head_only ==> r.body_file is None)
}

fn as_opt_slice(o: &Option<Vec<u8>>) -> (r: Option<&[u8]>)
    ensures
        crate::cache::opt_view(r) == opt_seq(*o),
{
    match o {
        Some(v) => Some(v.as_slice()),
        None => None,
    }
}

/// The response for a regular file.
pub fn file_response(p: &Pending, size: u64, mtime: u64) -> (r: Response)
    ensures
        is_file_response(r, p.target@, size, mtime, p.head_only, opt_seq(p.if_none_match), opt_seq(p.if_modified_since)),
{
    let token = build_token(size, mtime);
    let fresh = evaluate_headers(
        token.etag.as_slice(),
        mtime,
        as_opt_slice(&p.if_none_match),
        as_opt_slice(&p.if_modified_since),
    );
    match fresh {
        Freshness::NotModified => Response {
            status: 304,
            etag: Some(token.etag),
            last_modified: token.last_modified,
            content_type: None,
            content_length: None,
            body_file: None,
        },
        Freshness::Fresh => Response {
            status: 200,
            etag: Some(token.etag),
            last_modified: token.last_modified,
            content_type: Some(content_type_of(p.target.as_slice())),
            content_length: Some(size),
            body_file: if p.head_only {
                None
            } else {
                Some(to_vec(p.target.as_slice()))
            },
        },
    }
}

/// The next step once `target` was canonicalized (`None`: it does not
/// exist): a path outside the document root is an escape (403), a missing
/// one is not found (404), else its metadata is asked for.
pub fn on_canonical(p: Pending, canonical: Option<Vec<u8>>) -> (r: Step)
    ensures
        match canonical {
            None => r matches Step::Respond(resp) && is_bare(resp, 404),
            Some(c) => if !contained(p.document_root@, c@) {
                r matches Step::Respond(resp) && is_bare(resp, 403)
            } else {
                r matches Step::Inspect(q) && q.target@ == c@ && q.phase == p.phase
                    && q.document_root@ == p.document_root@ && q.index_file@ == p.index_file@
                    && q.head_only == p.head_only && opt_seq(q.if_none_match) == opt_seq(p.if_none_match)
                    && opt_seq(q.if_modified_since) == opt_seq(p.if_modified_since)
            },
        },
{
    match canonical {
        None => Step::Respond(bare_response(status_of(Rejection::NotFound))),
        Some(c) => {
            if !is_contained(p.document_root.as_slice(), c.as_slice()) {
                Step::Respond(bare_response(status_of(Rejection::PathEscape)))
            } else {
                Step::Inspect(Pending { target: c, ..p })
            }
        },
    }
}

/// The next step once the metadata of `target` is known: a regular file is
/// answered; the directory the request named gets its index file appended
/// and canonicalized again; anything else is not found (404).
pub fn on_metadata(p: Pending, meta: Metadata) -> (r: Step)
    ensures
        match meta {
            Metadata::File { size, mtime } => r matches Step::Respond(resp) && is_file_response(
                resp,
                p.target@,
                size,
                mtime,
                p.head_only,
                opt_seq(p.if_none_match),
                opt_seq(p.if_modified_since),
            ),
            Metadata::Directory => if p.phase == Phase::Target {
                r matches Step::Canonicalize(q) && q.target@ == join_one(p.target@, p.index_file@)
                    && q.phase == Phase::Index && q.document_root@ == p.document_root@
                    && q.index_file@ == p.index_file@ && q.head_only == p.head_only
                    && opt_seq(q.if_none_match) == opt_seq(p.if_none_match)
                    && opt_seq(q.if_modified_since) == opt_seq(p.if_modified_since)
            } else {
                r matches Step::Respond(resp) && is_bare(resp, 404)
            },
            _ => r matches Step::Respond(resp) && is_bare(resp, 404),
        },
{
    match meta {
        Metadata::File { size, mtime } => Step::Respond(file_response(&p, size, mtime)),
        Metadata::Directory => {
            if p.phase == Phase::Target {
                let target = join_component(p.target.as_slice(), p.index_file.as_slice());
                Step::Canonicalize(Pending { target, phase: Phase::Index, ..p })
            } else {
                Step::Respond(bare_response(status_of(Rejection::NotFound)))
            }
        },
        _ => Step::Respond(bare_response(status_of(Rejection::NotFound))),
    }
}

} // verus!
