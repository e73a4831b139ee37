//! The site registry: configured virtual hosts and lookup by host and path.

use vstd::prelude::*;
use crate::bytes::{
    component_prefix, is_component_prefix, is_digit, lower_seq, lowercase, same_bytes, to_vec,
};

verus! {

/// One virtual host: the host name it answers to, the URL prefix it is
/// mounted under, its (canonical) document root and its index file name.
pub struct Site {
    pub hostname: Vec<u8>,
    pub mount_prefix: Vec<u8>,
    pub document_root: Vec<u8>,
    pub index_file: Vec<u8>,
}

impl Site {
    pub fn new(hostname: &[u8], mount_prefix: &[u8], document_root: &[u8], index_file: &[u8]) -> (r: Site)
        ensures
            r.hostname@ == hostname@,
            r.mount_prefix@ == mount_prefix@,
            r.document_root@ == document_root@,
            r.index_file@ == index_file@,
    {
        Site {
            hostname: to_vec(hostname),
            mount_prefix: to_vec(mount_prefix),
            document_root: to_vec(document_root),
            index_file: to_vec(index_file),
        }
    }
}

/// Number of ASCII digits at the end of `h`.
pub open spec fn trailing_digits(h: Seq<u8>) -> nat
    decreases h.len(),
{
    if h.len() > 0 && is_digit(h.last()) {
        1 + trailing_digits(h.drop_last())
    } else {
        0
    }
}

/// `h` without a `:port` suffix (a colon followed by digits only).
pub open spec fn strip_port(h: Seq<u8>) -> Seq<u8> {
    let k = trailing_digits(h);
    if k < h.len() && h[h.len() - k - 1] == 58u8 {
        h.subrange(0, h.len() - k - 1)
    } else {
        h
    }
}

/// The form of a `Host` header that is compared with site host names.
pub open spec fn normalize_host(h: Seq<u8>) -> Seq<u8> {
    strip_port(lower_seq(h))
}

/// The mount prefix covers the path: it is a prefix that ends at a segment
/// boundary.
pub open spec fn mount_covers(mount: Seq<u8>, path: Seq<u8>) -> bool {
    component_prefix(mount, path)
}

pub open spec fn site_matches(site: Site, host: Seq<u8>, path: Seq<u8>) -> bool {
    lower_seq(site.hostname@) == normalize_host(host) && mount_covers(site.mount_prefix@, path)
}

/// Site `i` is the one chosen: it matches, no matching site has a longer
/// mount prefix, and every earlier matching site has a shorter one.
pub open spec fn is_chosen(sites: Seq<Site>, host: Seq<u8>, path: Seq<u8>, i: int) -> bool {
    0 <= i < sites.len() && site_matches(sites[i], host, path) && (forall|j: int|
        0 <= j < sites.len() && site_matches(#[trigger] sites[j], host, path)
            ==> sites[j].mount_prefix@.len() <= sites[i].mount_prefix@.len()) && (forall|j: int|
        0 <= j < i && site_matches(#[trigger] sites[j], host, path)
            ==> sites[j].mount_prefix@.len() < sites[i].mount_prefix@.len())
}

/// The site that answers a request for `path` under `host`, if any.
pub open spec fn lookup(sites: Seq<Site>, host: Seq<u8>, path: Seq<u8>) -> Option<int> {
    if exists|i: int| is_chosen(sites, host, path, i) {
        Some(choose|i: int| is_chosen(sites, host, path, i))
    } else {
        None
    }
}

/// At most one site is chosen.
pub proof fn lemma_chosen_unique(sites: Seq<Site>, host: Seq<u8>, path: Seq<u8>, i: int, j: int)
    requires
        is_chosen(sites, host, path, i),
        is_chosen(sites, host, path, j),
    ensures
        i == j,
{
    if i < j {
        assert(site_matches(sites[i], host, path));
    } else if j < i {
        assert(site_matches(sites[j], host, path));
    }
}

/// The chosen site is the one that `lookup` gives.
pub proof fn lemma_lookup_chosen(sites: Seq<Site>, host: Seq<u8>, path: Seq<u8>, i: int)
    requires
        is_chosen(sites, host, path, i),
    ensures
        lookup(sites, host, path) == Some(i),
{
    let c = choose|c: int| is_chosen(sites, host, path, c);
    lemma_chosen_unique(sites, host, path, i, c);
}

/// Where no site matches, `lookup` gives nothing.
pub proof fn lemma_lookup_none(sites: Seq<Site>, host: Seq<u8>, path: Seq<u8>)
    requires
        forall|j: int| 0 <= j < sites.len() ==> !site_matches(#[trigger] sites[j], host, path),
    ensures
        lookup(sites, host, path) is None,
{
}

/// Lower-cases a `Host` header and drops a `:port` suffix.
pub fn normalized_host(host: &[u8]) -> (r: Vec<u8>)
    ensures
        r@ == normalize_host(host@),
{
    let mut h = lowercase(host);
    let ghost lh = h@;
    let mut n: usize = h.len();
    assert(lh.subrange(0, n as int) =~= lh);
    while n > 0 && 48 <= h[n - 1] && h[n - 1] <= 57
        invariant
            h@ == lh,
            n <= lh.len(),
            trailing_digits(lh) == trailing_digits(lh.subrange(0, n as int)) + (lh.len() - n),
        decreases n,
    {
        assert(lh.subrange(0, n as int).drop_last() =~= lh.subrange(0, n - 1));
        assert(trailing_digits(lh.subrange(0, n as int)) == 1 + trailing_digits(lh.subrange(0, n - 1)));
        n = n - 1;
    }
    proof {
        assert(trailing_digits(lh.subrange(0, n as int)) == 0);
    }
    if n > 0 && h[n - 1] == 58u8 {
        h.truncate(n - 1);
    }
    proof {
        assert(h@ =~= normalize_host(host@));
    }
    h
}

/// The registry: the configured sites, in configuration order.
pub struct SiteRegistry {
    pub sites: Vec<Site>,
}

impl SiteRegistry {
    pub fn new(sites: Vec<Site>) -> (r: SiteRegistry)
        ensures
            r.sites@ == sites@,
    {
        SiteRegistry { sites }
    }

    /// The index of the site that answers `path` under `host`: among the
    /// sites whose host name equals the normalized host (ignoring ASCII
    /// case) and whose mount prefix covers the path, the one with the
    /// longest prefix, the earliest on a tie.
    pub fn find_site(&self, host: &[u8], path: &[u8]) -> (r: Option<usize>)
        ensures
            r matches Some(i) ==> lookup(self.sites@, host@, path@) == Some(i as int),
            r is None ==> lookup(self.sites@, host@, path@) is None,
    {
        let h = normalized_host(host);
        let mut best: Option<usize> = None;
        let mut k: usize = 0;
        while k < self.sites.len()
            invariant
                h@ == normalize_host(host@),
                k <= self.sites@.len(),
                best matches Some(b) ==> b < k && site_matches(self.sites@[b as int], host@, path@)
                    && (forall|m: int| 0 <= m < k && site_matches(#[trigger] self.sites@[m], host@, path@)
                        ==> self.sites@[m].mount_prefix@.len() <= self.sites@[b as int].mount_prefix@.len())
                    && (forall|m: int| 0 <= m < b && site_matches(#[trigger] self.sites@[m], host@, path@)
                        ==> self.sites@[m].mount_prefix@.len() < self.sites@[b as int].mount_prefix@.len()),
                best is None ==> forall|m: int| 0 <= m < k ==> !site_matches(#[trigger] self.sites@[m], host@, path@),
            decreases self.sites@.len() - k,
        {
            let site = &self.sites[k];
            let name = lowercase(site.hostname.as_slice());
            if same_bytes(name.as_slice(), h.as_slice()) && is_component_prefix(site.mount_prefix.as_slice(), path) {
                let better = match best {
                    None => true,
                    Some(b) => self.sites[b].mount_prefix.len() < site.mount_prefix.len(),
                };
                if better {
                    best = Some(k);
                }
            }
            k = k + 1;
        }
        proof {
            if let Some(b) = best {
                assert(is_chosen(self.sites@, host@, path@, b as int));
                lemma_lookup_chosen(self.sites@, host@, path@, b as int);
            }
        }
        best
    }
}

} // verus!
