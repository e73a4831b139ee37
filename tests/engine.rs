use static_vhost::bytes::lowercase;
use static_vhost::cache::{build_token, evaluate, evaluate_headers, list_names, make_etag, Freshness};
use static_vhost::dispatch::{
    begin, content_type_of, file_extension, on_canonical, on_metadata, streaming_failure,
    Metadata, Pending, Phase, Request, Response, Step,
};
use static_vhost::registry::{normalized_host, Site, SiteRegistry};
use static_vhost::resolve::{
    count_slashes, decode_percent, is_contained, resolve_lexically, split_segments, Rejection,
};

const T: u64 = 784111777;
const T_TEXT: &str = "Sun, 06 Nov 1994 08:49:37 GMT";

fn site(host: &str, mount: &str, root: &str, index: &str) -> Site {
    Site::new(host.as_bytes(), mount.as_bytes(), root.as_bytes(), index.as_bytes())
}

fn one_site() -> SiteRegistry {
    SiteRegistry::new(vec![site("a.test", "/", "/srv/a", "index.html")])
}

fn get(host: &str, path: &str) -> Request {
    request("GET", host, path, None, None)
}

fn request(method: &str, host: &str, path: &str, inm: Option<&str>, ims: Option<&str>) -> Request {
    Request {
        method: method.as_bytes().to_vec(),
        host: host.as_bytes().to_vec(),
        path: path.as_bytes().to_vec(),
        if_none_match: inm.map(|s| s.as_bytes().to_vec()),
        if_modified_since: ims.map(|s| s.as_bytes().to_vec()),
    }
}

fn respond(step: Step) -> Response {
    match step {
        Step::Respond(r) => r,
        _ => panic!("expected a response"),
    }
}

fn canonicalize(step: Step) -> Pending {
    match step {
        Step::Canonicalize(p) => p,
        _ => panic!("expected a canonicalize step"),
    }
}

fn inspect(step: Step) -> Pending {
    match step {
        Step::Inspect(p) => p,
        _ => panic!("expected an inspect step"),
    }
}

/// Runs a request against a filesystem in which `/srv/a` is a directory
/// holding `index.html` (size 42, modified at `T`) and `page.txt`; every
/// path canonicalizes to itself.
fn run(reg: &SiteRegistry, req: &Request) -> Response {
    let mut step = begin(reg, req);
    loop {
        step = match step {
            Step::Respond(r) => return r,
            Step::Canonicalize(p) => {
                let c = p.target.clone();
                let exists = c == b"/srv/a".to_vec()
                    || c == b"/srv/a/index.html".to_vec()
                    || c == b"/srv/a/page.txt".to_vec();
                on_canonical(p, if exists { Some(c) } else { None })
            }
            Step::Inspect(p) => {
                let meta = if p.target == b"/srv/a".to_vec() {
                    Metadata::Directory
                } else {
                    Metadata::File { size: 42, mtime: T }
                };
                on_metadata(p, meta)
            }
        };
    }
}

#[test]
fn index_served_with_validators() {
    let r = run(&one_site(), &get("a.test", "/"));
    assert_eq!(r.status, 200);
    assert_eq!(r.etag, Some(b"\"2a-2ebc98a1\"".to_vec()));
    assert_eq!(r.last_modified, Some(T_TEXT.as_bytes().to_vec()));
    assert_eq!(r.content_length, Some(42));
    assert_eq!(r.content_type, Some(b"text/html".to_vec()));
    assert_eq!(r.body_file, Some(b"/srv/a/index.html".to_vec()));
}

#[test]
fn if_modified_since_last_modified_is_304() {
    let first = run(&one_site(), &get("a.test", "/"));
    let lm = String::from_utf8(first.last_modified.unwrap()).unwrap();
    let r = run(&one_site(), &request("GET", "a.test", "/", None, Some(&lm)));
    assert_eq!(r.status, 304);
    assert_eq!(r.body_file, None);
    assert_eq!(r.content_length, None);
}

#[test]
fn unknown_host_is_404() {
    let r = run(&one_site(), &get("unknown.test", "/"));
    assert_eq!(r.status, 404);
    assert_eq!(r.etag, None);
    assert_eq!(r.body_file, None);
}

#[test]
fn traversal_is_403() {
    let r = respond(begin(&one_site(), &get("a.test", "/../../etc/passwd")));
    assert_eq!(r.status, 403);
    assert_eq!(r.body_file, None);
}

#[test]
fn traversal_inside_root_stays_inside() {
    let p = canonicalize(begin(&one_site(), &get("a.test", "/x/./../page.txt")));
    assert_eq!(p.target, b"/srv/a/x/../page.txt".to_vec());
    let p = inspect(on_canonical(p, Some(b"/srv/a/page.txt".to_vec())));
    let r = respond(on_metadata(p, Metadata::File { size: 3, mtime: T }));
    assert_eq!(r.status, 200);
    assert_eq!(r.content_type, Some(b"text/plain".to_vec()));
    assert_eq!(r.body_file, Some(b"/srv/a/page.txt".to_vec()));
}

#[test]
fn host_match_ignores_case() {
    let a = run(&one_site(), &get("A.Test", "/"));
    let b = run(&one_site(), &get("a.test", "/"));
    assert_eq!(a.status, 200);
    assert_eq!(a.etag, b.etag);
    let reg = one_site();
    assert_eq!(reg.find_site(b"Example.com", b"/"), None);
    let reg2 = SiteRegistry::new(vec![site("example.com", "/", "/srv/e", "index.html")]);
    assert_eq!(reg2.find_site(b"Example.com", b"/"), Some(0));
    assert_eq!(reg2.find_site(b"example.com", b"/"), Some(0));
}

#[test]
fn host_port_is_stripped() {
    assert_eq!(normalized_host(b"A.Test:8080"), b"a.test".to_vec());
    assert_eq!(normalized_host(b"[::1]:80"), b"[::1]".to_vec());
    assert_eq!(normalized_host(b"[::1]"), b"[::1]".to_vec());
    assert_eq!(one_site().find_site(b"a.test:8080", b"/"), Some(0));
}

#[test]
fn longest_mount_prefix_wins() {
    let reg = SiteRegistry::new(vec![
        site("h.test", "/", "/srv/root", "index.html"),
        site("h.test", "/blog", "/srv/blog", "index.html"),
    ]);
    assert_eq!(reg.find_site(b"h.test", b"/blog/x"), Some(1));
    assert_eq!(reg.find_site(b"h.test", b"/blog"), Some(1));
    assert_eq!(reg.find_site(b"h.test", b"/other"), Some(0));
    assert_eq!(reg.find_site(b"h.test", b"/blogger"), Some(0));
    let p = canonicalize(begin(&reg, &get("h.test", "/blog/x")));
    assert_eq!(p.target, b"/srv/blog/x".to_vec());
}

#[test]
fn duplicate_site_first_wins() {
    let reg = SiteRegistry::new(vec![
        site("d.test", "/", "/srv/one", "index.html"),
        site("d.test", "/", "/srv/two", "index.html"),
    ]);
    assert_eq!(reg.find_site(b"d.test", b"/"), Some(0));
}

#[test]
fn mount_prefix_must_cover_path() {
    let reg = SiteRegistry::new(vec![site("m.test", "/docs", "/srv/docs", "index.html")]);
    assert_eq!(reg.find_site(b"m.test", b"/"), None);
    assert_eq!(respond(begin(&reg, &get("m.test", "/"))).status, 404);
}

#[test]
fn revalidation_with_etag_is_304() {
    let first = run(&one_site(), &get("a.test", "/index.html"));
    let tag = String::from_utf8(first.etag.clone().unwrap()).unwrap();
    let r = run(&one_site(), &request("GET", "a.test", "/index.html", Some(&tag), None));
    assert_eq!(r.status, 304);
    assert_eq!(r.etag, first.etag);
    assert_eq!(r.body_file, None);
    assert_eq!(r.content_length, None);
}

#[test]
fn index_direct_and_directory_form_agree() {
    let a = run(&one_site(), &get("a.test", "/"));
    let b = run(&one_site(), &get("a.test", "/index.html"));
    assert_eq!(a.status, 200);
    assert_eq!(a.etag, b.etag);
    assert_eq!(a.body_file, b.body_file);
    assert_eq!(a.content_length, b.content_length);
}

#[test]
fn symlink_escape_is_403() {
    let p = canonicalize(begin(&one_site(), &get("a.test", "/link")));
    let r = respond(on_canonical(p, Some(b"/etc/passwd".to_vec())));
    assert_eq!(r.status, 403);
}

#[test]
fn sibling_with_root_prefix_is_403() {
    let p = canonicalize(begin(&one_site(), &get("a.test", "/link")));
    let r = respond(on_canonical(p, Some(b"/srv/ab/secret".to_vec())));
    assert_eq!(r.status, 403);
}

#[test]
fn missing_file_is_404() {
    let r = run(&one_site(), &get("a.test", "/nothing.html"));
    assert_eq!(r.status, 404);
}

#[test]
fn directory_without_index_is_404() {
    let p = canonicalize(begin(&one_site(), &get("a.test", "/")));
    let p = inspect(on_canonical(p, Some(b"/srv/a".to_vec())));
    let p = canonicalize(on_metadata(p, Metadata::Directory));
    assert_eq!(p.target, b"/srv/a/index.html".to_vec());
    assert_eq!(p.phase, Phase::Index);
    let p = inspect(on_canonical(p, Some(b"/srv/a/index.html".to_vec())));
    assert_eq!(respond(on_metadata(p, Metadata::Directory)).status, 404);
}

#[test]
fn device_file_is_404() {
    let p = canonicalize(begin(&one_site(), &get("a.test", "/dev")));
    let p = inspect(on_canonical(p, Some(b"/srv/a/dev".to_vec())));
    assert_eq!(respond(on_metadata(p, Metadata::Other)).status, 404);
}

#[test]
fn nul_byte_is_invalid() {
    let r = respond(begin(&one_site(), &get("a.test", "/a\0b")));
    assert_eq!(r.status, 400);
    assert_eq!(resolve_lexically(b"/srv/a", b"a\0b"), Err(Rejection::InvalidPath));
}

#[test]
fn other_methods_are_405() {
    let r = respond(begin(&one_site(), &request("POST", "a.test", "/", None, None)));
    assert_eq!(r.status, 405);
}

#[test]
fn head_has_no_body() {
    let r = run(&one_site(), &request("HEAD", "a.test", "/", None, None));
    assert_eq!(r.status, 200);
    assert_eq!(r.content_length, Some(42));
    assert_eq!(r.body_file, None);
}

#[test]
fn streaming_failure_is_500() {
    let r = streaming_failure();
    assert_eq!(r.status, 500);
    assert_eq!(r.body_file, None);
}

#[test]
fn lexical_resolution() {
    assert_eq!(resolve_lexically(b"/srv/a", b""), Ok(b"/srv/a".to_vec()));
    assert_eq!(resolve_lexically(b"/srv/a", b"/x//y/./z"), Ok(b"/srv/a/x/y/z".to_vec()));
    assert_eq!(resolve_lexically(b"/srv/a", b"x/../.."), Err(Rejection::PathEscape));
    assert_eq!(resolve_lexically(b"/", b"etc"), Ok(b"/etc".to_vec()));
    assert_eq!(split_segments(b"a/../b"), Some(vec![b"b".to_vec()]));
    assert_eq!(split_segments(b".."), None);
}

#[test]
fn etag_is_hex_of_size_and_mtime() {
    assert_eq!(make_etag(255, 16), b"\"ff-10\"".to_vec());
    assert_eq!(make_etag(0, 0), b"\"0-0\"".to_vec());
    assert_ne!(make_etag(1, 2), make_etag(2, 1));
}

#[test]
fn last_modified_is_http_date() {
    let t = build_token(1, T);
    assert_eq!(t.last_modified, Some(T_TEXT.as_bytes().to_vec()));
    assert_eq!(build_token(1, 253402300800).last_modified, None);
}

#[test]
fn if_none_match_lists() {
    assert!(list_names(b"\"x\", W/\"ff-10\" ", b"\"ff-10\""));
    assert!(list_names(b"\"ff-10\"", b"\"ff-10\""));
    assert!(!list_names(b"\"ff-11\"", b"\"ff-10\""));
    assert!(!list_names(b"", b"\"ff-10\""));
}

#[test]
fn if_none_match_takes_precedence() {
    assert_eq!(evaluate(b"\"a\"", 10, Some(b"\"b\""), Some(20)), Freshness::Fresh);
    assert_eq!(evaluate(b"\"a\"", 10, Some(b"\"a\""), Some(5)), Freshness::NotModified);
    assert_eq!(evaluate(b"\"a\"", 10, None, Some(10)), Freshness::NotModified);
    assert_eq!(evaluate(b"\"a\"", 11, None, Some(10)), Freshness::Fresh);
    assert_eq!(evaluate(b"\"a\"", 10, None, None), Freshness::Fresh);
}

#[test]
fn if_modified_since_is_parsed() {
    let ims = T_TEXT.as_bytes();
    assert_eq!(evaluate_headers(b"\"a\"", T, None, Some(ims)), Freshness::NotModified);
    assert_eq!(evaluate_headers(b"\"a\"", T + 1, None, Some(ims)), Freshness::Fresh);
    assert_eq!(evaluate_headers(b"\"a\"", 0, None, Some(b"yesterday")), Freshness::Fresh);
}

#[test]
fn content_types_follow_extension() {
    assert_eq!(file_extension(b"/srv/a/b.tar.gz"), b"gz".to_vec());
    assert_eq!(file_extension(b"/srv/a.d/readme"), Vec::<u8>::new());
    assert_eq!(file_extension(b"/srv/a/.html"), Vec::<u8>::new());
    assert_eq!(file_extension(b".html"), Vec::<u8>::new());
    assert_eq!(file_extension(b"/srv/a/..html"), b"html".to_vec());
    assert_eq!(content_type_of(b"/srv/a/.html"), b"application/octet-stream".to_vec());
    assert_eq!(content_type_of(b"/srv/a/index.html"), b"text/html".to_vec());
    assert_eq!(content_type_of(b"/srv/a/readme"), b"application/octet-stream".to_vec());
}

#[test]
fn lowercase_is_ascii_only() {
    assert_eq!(lowercase(b"AbC-9"), b"abc-9".to_vec());
}

#[test]
fn containment_is_component_wise() {
    assert!(is_contained(b"/srv/a", b"/srv/a"));
    assert!(is_contained(b"/srv/a", b"/srv/a/x"));
    assert!(!is_contained(b"/srv/a", b"/srv/ab"));
    assert!(!is_contained(b"/srv/a", b"/srv"));
    assert!(is_contained(b"/", b"/etc"));
}

#[test]
fn percent_escapes_are_decoded() {
    assert_eq!(decode_percent(b"my%20file.html"), b"my file.html".to_vec());
    assert_eq!(decode_percent(b"%2e%2E/x"), b"../x".to_vec());
    assert_eq!(decode_percent(b"100%"), b"100%".to_vec());
    assert_eq!(decode_percent(b"%zz%4"), b"%zz%4".to_vec());
    assert_eq!(count_slashes(b"/a/b/"), 3);
    assert_eq!(resolve_lexically(b"/srv/a", b"/my%20file.html"), Ok(b"/srv/a/my file.html".to_vec()));
}

#[test]
fn encoded_traversal_is_rejected() {
    assert_eq!(resolve_lexically(b"/srv/a", b"/%2e%2e/etc/passwd"), Err(Rejection::PathEscape));
    assert_eq!(resolve_lexically(b"/srv/a", b"/a%2Fb"), Err(Rejection::InvalidPath));
    assert_eq!(resolve_lexically(b"/srv/a", b"/a%00b"), Err(Rejection::InvalidPath));
    let r = respond(begin(&one_site(), &get("a.test", "/%2e%2e/%2e%2e/etc/passwd")));
    assert_eq!(r.status, 403);
}

#[test]
fn parent_after_symlink_is_left_to_the_filesystem() {
    let p = canonicalize(begin(&one_site(), &get("a.test", "/link/../x")));
    assert_eq!(p.target, b"/srv/a/link/../x".to_vec());
    let r = respond(on_canonical(p, Some(b"/other/x".to_vec())));
    assert_eq!(r.status, 403);
    assert_eq!(r.body_file, None);
    assert_eq!(resolve_lexically(b"/srv/a", b"a/../b"), Ok(b"/srv/a/a/../b".to_vec()));
}

#[test]
fn hidden_names_are_invalid() {
    assert_eq!(resolve_lexically(b"/srv/a", b"/.git/config"), Err(Rejection::InvalidPath));
    assert_eq!(resolve_lexically(b"/srv/a", b"/x/.env"), Err(Rejection::InvalidPath));
    assert_eq!(resolve_lexically(b"/srv/a", b"/x/%2Ehtaccess"), Err(Rejection::InvalidPath));
    assert_eq!(resolve_lexically(b"/srv/a", b"/x/./y"), Ok(b"/srv/a/x/y".to_vec()));
    let r = respond(begin(&one_site(), &get("a.test", "/.git/config")));
    assert_eq!(r.status, 400);
}
