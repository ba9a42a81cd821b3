//! Maps requested HTTPS URIs to local disk or leaves them remote.
use vstd::prelude::*;

use crate::bytes_util::{bytes_eq, copy_bytes};

verus! {

/// An ASCII byte in lower case.
pub open spec fn ascii_lower(b: u8) -> u8 {
    if 65 <= b <= 90 {
        (b + 32) as u8
    } else {
        b
    }
}

/// ASCII octets in lower case.
pub open spec fn lower_seq(s: Seq<u8>) -> Seq<u8> {
    Seq::new(s.len(), |i: int| ascii_lower(s[i]))
}

/// Length of the scheme prefix `https://`.
pub const SCHEME_LEN: usize = 8;

/// The first `/` at or after `from`, or the length.
pub open spec fn first_slash_from(uri: Seq<u8>, from: int) -> int
    decreases uri.len() - from,
{
    if from >= uri.len() {
        uri.len() as int
    } else if uri[from] == 47u8 {
        from
    } else {
        first_slash_from(uri, from + 1)
    }
}

/// The authority of an HTTPS URI: between `https://` and the path.
pub open spec fn authority_of(uri: Seq<u8>) -> Seq<u8> {
    if uri.len() <= SCHEME_LEN {
        Seq::empty()
    } else {
        uri.subrange(SCHEME_LEN as int, first_slash_from(uri, SCHEME_LEN as int))
    }
}

/// The path of an HTTPS URI, starting with its `/` if it has one.
pub open spec fn path_of(uri: Seq<u8>) -> Seq<u8> {
    if uri.len() <= SCHEME_LEN {
        Seq::empty()
    } else {
        uri.subrange(first_slash_from(uri, SCHEME_LEN as int), uri.len() as int)
    }
}

/// The path below `base` named by a URI path: a single leading `/` is
/// stripped; a path without one resolves to `base` itself.
pub open spec fn join_path(base: Seq<u8>, path: Seq<u8>) -> Seq<u8> {
    if path.len() == 0 || path[0] != 47u8 {
        base
    } else if base.len() > 0 && base.last() == 47u8 {
        base + path.drop_first()
    } else {
        base.push(47u8) + path.drop_first()
    }
}

/// The host part of a URI in lower case, as used to name an index scope and
/// to map fetches to disk.
#[derive(Clone, Debug)]
pub struct Fqdn(pub Vec<u8>);

impl View for Fqdn {
    type V = Seq<u8>;

    open spec fn view(&self) -> Seq<u8> {
        self.0@
    }
}

impl Fqdn {
    /// The lowercased authority of an HTTPS URI.
    pub fn from_uri(uri: &[u8]) -> (r: Fqdn)
        ensures
            r@ == lower_seq(authority_of(uri@)),
    {
        let mut out: Vec<u8> = Vec::new();
        if uri.len() <= SCHEME_LEN {
            assert(out@ =~= lower_seq(authority_of(uri@)));
            return Fqdn(out);
        }
        let mut i: usize = SCHEME_LEN;
        while i < uri.len() && uri[i] != 47u8
            invariant
                SCHEME_LEN <= i <= uri@.len(),
                first_slash_from(uri@, SCHEME_LEN as int) == first_slash_from(uri@, i as int),
                out@ =~= lower_seq(uri@.subrange(SCHEME_LEN as int, i as int)),
            decreases uri@.len() - i,
        {
            let b = uri[i];
            let l: u8 = if 65 <= b && b <= 90 { b + 32 } else { b };
            out.push(l);
            i = i + 1;
            assert(out@ =~= lower_seq(uri@.subrange(SCHEME_LEN as int, i as int)));
        }
        Fqdn(out)
    }

    /// The host name as octets.
    pub fn as_bytes(&self) -> (r: &[u8])
        ensures
            r@ == self@,
    {
        self.0.as_slice()
    }
}

/// The source a fetch resolves to.
#[derive(Clone, Debug)]
pub enum ResolvedSource {
    /// A file on local disk.
    File(Vec<u8>),
    /// A remote HTTPS URI, to be fetched as it is.
    Uri(Vec<u8>),
}

/// The mappings of a list of (host, base directory) pairs: a later pair for
/// the same host replaces an earlier one.
pub open spec fn mapping_of(s: Seq<(Seq<u8>, Seq<u8>)>) -> Map<Seq<u8>, Seq<u8>>
    decreases s.len(),
{
    if s.len() == 0 {
        Map::empty()
    } else {
        mapping_of(s.drop_last()).insert(s.last().0, s.last().1)
    }
}

proof fn lemma_mapping_last(s: Seq<(Seq<u8>, Seq<u8>)>, i: int, k: Seq<u8>)
    requires
        0 <= i < s.len(),
        s[i].0 == k,
        forall|j: int| i < j < s.len() ==> s[j].0 != k,
    ensures
        mapping_of(s).contains_key(k),
        mapping_of(s)[k] == s[i].1,
    decreases s.len(),
{
    if i < s.len() - 1 {
        lemma_mapping_last(s.drop_last(), i, k);
    }
}

proof fn lemma_mapping_absent(s: Seq<(Seq<u8>, Seq<u8>)>, k: Seq<u8>)
    requires
        forall|j: int| 0 <= j < s.len() ==> s[j].0 != k,
    ensures
        !mapping_of(s).contains_key(k),
    decreases s.len(),
{
    if s.len() > 0 {
        lemma_mapping_absent(s.drop_last(), k);
    }
}

/// Maps fetches of URIs to a resolved source: a URI whose host has a disk
/// mapping resolves to a path below that mapping's base directory, any other
/// URI is used as it is.
#[derive(Clone, Debug)]
pub struct FetchMapper {
    disk_mappers: Vec<(Fqdn, Vec<u8>)>,
}

impl FetchMapper {
    /// The mappings in the order they were added.
    pub closed spec fn entries(&self) -> Seq<(Seq<u8>, Seq<u8>)> {
        Seq::new(self.disk_mappers@.len(), |i: int| (self.disk_mappers@[i].0@, self.disk_mappers@[i].1@))
    }

    /// The disk mappings, from host to base directory.
    pub open spec fn mappings(&self) -> Map<Seq<u8>, Seq<u8>> {
        mapping_of(self.entries())
    }

    /// A mapper without disk mappings.
    pub fn new() -> (r: FetchMapper)
        ensures
            r.mappings() == Map::<Seq<u8>, Seq<u8>>::empty(),
    {
        let r = FetchMapper { disk_mappers: Vec::new() };
        assert(r.entries() =~= Seq::<(Seq<u8>, Seq<u8>)>::empty());
        r
    }

    /// Maps the host `fqdn` to the directory `base_dir`, replacing an earlier
    /// mapping of that host.
    pub fn add_disk_mapper(&mut self, fqdn: Fqdn, base_dir: Vec<u8>)
        ensures
            final(self).mappings() == old(self).mappings().insert(fqdn@, base_dir@),
    {
        let ghost k = fqdn@;
        let ghost v = base_dir@;
        self.disk_mappers.push((fqdn, base_dir));
        assert(self.entries().drop_last() =~= old(self).entries());
        assert(self.entries().last() == (k, v));
    }

    /// Resolves a URI to the source to fetch it from.
    pub fn resolve(&self, uri: &[u8]) -> (r: ResolvedSource)
        ensures
            ({
                let host = lower_seq(authority_of(uri@));
                match r {
                    ResolvedSource::File(p) => self.mappings().contains_key(host) && p@ == join_path(
                        self.mappings()[host],
                        path_of(uri@),
                    ),
                    ResolvedSource::Uri(u) => !self.mappings().contains_key(host) && u@ == uri@,
                }
            }),
    {
        let fqdn = Fqdn::from_uri(uri);
        let ghost host = fqdn@;
        let mut i: usize = self.disk_mappers.len();
        while i > 0
            invariant
                i <= self.disk_mappers@.len(),
                host == fqdn@,
                host == lower_seq(authority_of(uri@)),
                forall|j: int| i <= j < self.entries().len() ==> self.entries()[j].0 != host,
            decreases i,
        {
            i = i - 1;
            if bytes_eq(self.disk_mappers[i].0.as_bytes(), fqdn.as_bytes()) {
                proof {
                    assert(self.entries()[i as int] == (self.disk_mappers@[i as int].0@, self.disk_mappers@[i as int].1@));
                    lemma_mapping_last(self.entries(), i as int, host);
                }
                let base = &self.disk_mappers[i].1;
                let p = join_uri_path(base, uri);
                return ResolvedSource::File(p);
            }
        }
        proof {
            lemma_mapping_absent(self.entries(), host);
        }
        ResolvedSource::Uri(copy_bytes(uri))
    }
}

fn join_uri_path(base: &Vec<u8>, uri: &[u8]) -> (r: Vec<u8>)
    ensures
        r@ == join_path(base@, path_of(uri@)),
{
    let mut start: usize = uri.len();
    if uri.len() > SCHEME_LEN {
        let mut i: usize = SCHEME_LEN;
        while i < uri.len() && uri[i] != 47u8
            invariant
                SCHEME_LEN <= i <= uri@.len(),
                first_slash_from(uri@, SCHEME_LEN as int) == first_slash_from(uri@, i as int),
            decreases uri@.len() - i,
        {
            i = i + 1;
        }
        start = i;
    }
    let ghost path = path_of(uri@);
    assert(path =~= uri@.subrange(start as int, uri@.len() as int));
    let mut out = copy_bytes(base.as_slice());
    if start >= uri.len() || uri[start] != 47u8 {
        return out;
    }
    if base.len() == 0 || base[base.len() - 1] != 47u8 {
        out.push(47u8);
    }
    let mut j: usize = start + 1;
    while j < uri.len()
        invariant
            start < j <= uri@.len(),
            out@ == (if base@.len() > 0 && base@.last() == 47u8 { base@ } else { base@.push(47u8) })
                + uri@.subrange(start + 1, j as int),
        decreases uri@.len() - j,
    {
        out.push(uri[j]);
        j = j + 1;
        assert(out@ =~= (if base@.len() > 0 && base@.last() == 47u8 { base@ } else { base@.push(47u8) })
            + uri@.subrange(start + 1, j as int));
    }
    assert(path.drop_first() =~= uri@.subrange(start + 1, uri@.len() as int));
    out
}

/// The outcome of a fetch.
#[derive(Clone, Debug)]
pub enum FetchResponse {
    /// The content, and the entity tag that came with it.
    Data { bytes: Vec<u8>, etag: Option<Vec<u8>> },
    /// The content has not changed since the entity tag sent.
    UnModified,
}

/// A fetch that was expected to give content did not.
#[derive(Clone, Copy, Debug, PartialEq, Eq, Structural)]
pub enum FetchError {
    NoData,
}

impl FetchResponse {
    /// The content of the response; an error where it had none.
    pub fn try_into_data(self) -> (r: Result<Vec<u8>, FetchError>)
        ensures
            match self {
                FetchResponse::Data { bytes, .. } => r matches Ok(b) && b@ == bytes@,
                FetchResponse::UnModified => r == Err::<Vec<u8>, FetchError>(FetchError::NoData),
            },
    {
        match self {
            FetchResponse::Data { bytes, .. } => Ok(bytes),
            FetchResponse::UnModified => Err(FetchError::NoData),
        }
    }
}

} // verus!
