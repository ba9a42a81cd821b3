//! The content-addressed object store and the extraction of manifest
//! references from the objects in it.
use vstd::prelude::*;

use crate::bytes_util::{bytes_eq, copy_bytes};
use crate::digest::{sha256, sha256_of};
use crate::erik::{check_ia5, check_rsync_uri, number_from_array, ManifestRef};
use crate::der::{at_within, take_content, tlv, TAG_GENERALIZED_TIME};
use crate::time::Time;
use crate::erik::{strip_leading, ManifestRefView};
use rpki::dep::bcder::encode::Values;
use rpki::dep::bcder::Mode;

verus! {

/// An object published in the repository: its rsync URI and its octets.
#[derive(Clone, Debug)]
pub struct RepoContentElement {
    pub uri: Vec<u8>,
    pub data: Vec<u8>,
}

impl RepoContentElement {
    /// An object from its URI and octets.
    pub fn new(uri: Vec<u8>, data: Vec<u8>) -> (r: RepoContentElement)
        ensures
            r.uri@ == uri@,
            r.data@ == data@,
    {
        RepoContentElement { uri, data }
    }

    /// The octets of the object.
    pub fn data(&self) -> (r: &Vec<u8>)
        ensures
            r@ == self.data@,
    {
        &self.data
    }

    /// A copy of the object.
    pub fn duplicate(&self) -> (r: RepoContentElement)
        ensures
            r.uri@ == self.uri@,
            r.data@ == self.data@,
    {
        RepoContentElement { uri: copy_bytes(self.uri.as_slice()), data: copy_bytes(self.data.as_slice()) }
    }
}

/// Objects by the SHA-256 digest of their octets. An entry is never
/// replaced once stored.
#[derive(Clone, Debug)]
pub struct ObjectStore {
    entries: Vec<(Vec<u8>, RepoContentElement)>,
}

impl ObjectStore {
    /// The digests in the store, in the order they came in.
    pub closed spec fn digests(&self) -> Seq<Seq<u8>> {
        Seq::new(self.entries@.len(), |i: int| self.entries@[i].0@)
    }

    /// The (URI, octets) of each object, at the position of its digest.
    pub closed spec fn objects(&self) -> Seq<(Seq<u8>, Seq<u8>)> {
        Seq::new(self.entries@.len(), |i: int| (self.entries@[i].1.uri@, self.entries@[i].1.data@))
    }

    /// Each object sits under the digest of its octets, 32 octets long, and
    /// no digest twice.
    pub open spec fn wf(&self) -> bool {
        &&& self.digests().len() == self.objects().len()
        &&& forall|i: int| 0 <= i < self.digests().len() ==> #[trigger] self.digests()[i] == sha256_of(self.objects()[i].1)
            && self.digests()[i].len() == 32
        &&& forall|i: int, j: int| 0 <= i < j < self.digests().len() ==> #[trigger] self.digests()[i] != #[trigger] self.digests()[j]
    }

    /// The store holds an object with digest `d`.
    pub open spec fn contains(&self, d: Seq<u8>) -> bool {
        self.digests().contains(d)
    }

    /// An empty store.
    pub fn new() -> (r: ObjectStore)
        ensures
            r.wf(),
            r.digests().len() == 0,
    {
        let r = ObjectStore { entries: Vec::new() };
        assert(r.digests() =~= Seq::<Seq<u8>>::empty());
        r
    }

    /// A copy of the store.
    pub fn duplicate(&self) -> (r: ObjectStore)
        ensures
            r.digests() == self.digests(),
            r.objects() == self.objects(),
    {
        let mut entries: Vec<(Vec<u8>, RepoContentElement)> = Vec::new();
        let mut i: usize = 0;
        while i < self.entries.len()
            invariant
                i <= self.entries@.len(),
                entries@.len() == i,
                forall|j: int| 0 <= j < i ==> (#[trigger] entries@[j]).0@ == self.entries@[j].0@
                    && entries@[j].1.uri@ == self.entries@[j].1.uri@ && entries@[j].1.data@ == self.entries@[j].1.data@,
            decreases self.entries@.len() - i,
        {
            let e = &self.entries[i];
            entries.push((copy_bytes(e.0.as_slice()), e.1.duplicate()));
            i = i + 1;
        }
        let r = ObjectStore { entries };
        assert(r.digests() =~= self.digests());
        assert(r.objects() =~= self.objects());
        r
    }

    /// The number of objects.
    pub fn len(&self) -> (r: usize)
        ensures
            r == self.digests().len(),
    {
        self.entries.len()
    }

    /// The position of the object with digest `d`.
    fn find(&self, d: &[u8]) -> (r: Option<usize>)
        requires
            self.wf(),
        ensures
            r matches Some(i) ==> i < self.digests().len() && self.digests()[i as int] == d@,
            r is None ==> !self.contains(d@),
    {
        let mut i: usize = 0;
        while i < self.entries.len()
            invariant
                i <= self.entries@.len(),
                self.digests().len() == self.entries@.len(),
                forall|j: int| 0 <= j < i ==> self.digests()[j] != d@,
            decreases self.entries@.len() - i,
        {
            if bytes_eq(self.entries[i].0.as_slice(), d) {
                return Some(i);
            }
            i = i + 1;
        }
        None
    }

    /// Whether the store holds an object with digest `d`.
    pub fn contains_digest(&self, d: &[u8]) -> (r: bool)
        requires
            self.wf(),
        ensures
            r == self.contains(d@),
    {
        self.find(d).is_some()
    }

    /// The object with digest `d`.
    pub fn get(&self, d: &[u8]) -> (r: Option<&RepoContentElement>)
        requires
            self.wf(),
        ensures
            r is None <==> !self.contains(d@),
            r matches Some(e) ==> exists|i: int| 0 <= i < self.digests().len() && self.digests()[i] == d@
                && #[trigger] self.objects()[i] == (e.uri@, e.data@),
            r matches Some(e) ==> sha256_of(e.data@) == d@,
    {
        match self.find(d) {
            Some(i) => {
                let e = &self.entries[i].1;
                assert(self.objects()[i as int] == (e.uri@, e.data@));
                Some(e)
            },
            None => None,
        }
    }

    /// The object at position `i`, with its digest.
    pub fn entry(&self, i: usize) -> (r: (&Vec<u8>, &RepoContentElement))
        requires
            i < self.digests().len(),
        ensures
            r.0@ == self.digests()[i as int],
            (r.1.uri@, r.1.data@) == self.objects()[i as int],
    {
        let e = &self.entries[i];
        (&e.0, &e.1)
    }

    /// Stores an object under the digest of its octets, unless an object
    /// with that digest is there already. Returns whether it was added.
    pub fn insert_if_absent(&mut self, element: RepoContentElement) -> (added: bool)
        requires
            old(self).wf(),
        ensures
            final(self).wf(),
            added == !old(self).contains(sha256_of(element.data@)),
            !added ==> final(self).digests() == old(self).digests() && final(self).objects() == old(self).objects(),
            added ==> final(self).digests() == old(self).digests().push(sha256_of(element.data@))
                && final(self).objects() == old(self).objects().push((element.uri@, element.data@)),
    {
        let d = sha256(element.data.as_slice());
        if self.find(d.as_slice()).is_some() {
            return false;
        }
        let ghost od = self.digests();
        let ghost oo = self.objects();
        let ghost e = (element.uri@, element.data@);
        self.entries.push((d, element));
        assert(self.digests() =~= od.push(sha256_of(e.1)));
        assert(self.objects() =~= oo.push(e));
        true
    }
}

/// Why no manifest reference came from an object.
#[derive(Clone, Copy, Debug, PartialEq, Eq, Structural)]
pub enum ManifestError {
    /// The URI does not end in `.mft`.
    NotAManifest,
    /// The object does not decode as a manifest.
    Malformed,
    /// The manifest's next-update time has passed.
    Stale,
    /// The EE certificate has no authority key identifier.
    NoKeyIdentifier,
    /// The EE certificate has no signed-object URI.
    NoLocation,
    /// The manifest is 2^32 octets or longer.
    TooLarge,
}

/// The URI ends in `.mft`.
pub open spec fn is_manifest_uri(uri: Seq<u8>) -> bool {
    uri.len() >= 4 && uri.subrange(uri.len() - 4, uri.len() as int) == seq![46u8, 109, 102, 116]
}

fn ends_with_mft(uri: &[u8]) -> (r: bool)
    ensures
        r == is_manifest_uri(uri@),
{
    let n = uri.len();
    if n < 4 {
        return false;
    }
    let r = uri[n - 4] == 46u8 && uri[n - 3] == 109u8 && uri[n - 2] == 102u8 && uri[n - 1] == 116u8;
    proof {
        let t = uri@.subrange(n - 4, n as int);
        if r {
            assert(t =~= seq![46u8, 109, 102, 116]);
        } else {
            assert(t[0] == uri@[n - 4] && t[1] == uri@[n - 3] && t[2] == uri@[n - 2] && t[3] == uri@[n - 1]);
        }
    }
    r
}

/// The fields that a decoded manifest gives: the EE certificate's key
/// identifier and signed-object URI, the manifest number as 20 octets, and
/// the this-update time as a DER GeneralizedTime.
pub struct ManifestFields {
    pub aki: Option<Vec<u8>>,
    pub number: Vec<u8>,
    pub this_update: Vec<u8>,
    pub location: Option<Vec<u8>>,
}

/// The fields of a manifest as plain values: key identifier, number,
/// this-update time, location.
pub open spec fn fields_view(f: ManifestFields) -> (Option<Seq<u8>>, Seq<u8>, Seq<u8>, Option<Seq<u8>>) {
    (opt_seq(f.aki), f.number@, f.this_update@, opt_seq(f.location))
}

pub open spec fn opt_seq(o: Option<Vec<u8>>) -> Option<Seq<u8>> {
    match o {
        Some(v) => Some(v@),
        None => None,
    }
}

/// The fields that the manifest in `data` gives, if `data` decodes as a
/// manifest: the EE certificate's key identifier, the manifest number as 20
/// octets, the this-update time as a DER GeneralizedTime, and the EE
/// certificate's signed-object URI.
pub uninterp spec fn manifest_fields_of(data: Seq<u8>) -> Option<(Option<Seq<u8>>, Seq<u8>, Seq<u8>, Option<Seq<u8>>)>;

/// Relies on `rpki::repository::Manifest::decode` and the manifest's
/// accessors: the fields of the manifest, which depend on the octets alone,
/// the number being `rpki`'s 20-octet serial.
#[verifier::external_body]
fn decode_manifest_fields(data: &[u8]) -> (r: Option<ManifestFields>)
    ensures
        match r {
            Some(f) => manifest_fields_of(data@) == Some(fields_view(f)) && f.number@.len() == 20,
            None => manifest_fields_of(data@) is None,
        },
{
    rpki::repository::Manifest::decode(data, false).ok().map(|m| ManifestFields {
        aki: m.cert().authority_key_identifier().map(|k| k.as_slice().to_vec()),
        number: m.manifest_number().into_array().to_vec(),
        this_update: m.this_update().encode_generalized_time().to_captured(Mode::Der).into_bytes().to_vec(),
        location: m.cert().signed_object().map(|u| u.as_slice().to_vec()),
    })
}

/// Relies on `rpki::repository::Manifest::decode` and `is_stale`: whether
/// the octets decode as a manifest whose next-update time lies before the
/// current time. The answer depends on the clock.
#[verifier::external_body]
fn manifest_data_is_stale(data: &[u8]) -> (r: bool) {
    rpki::repository::Manifest::decode(data, false).map(|m| m.is_stale()).unwrap_or(false)
}

/// The manifest reference that the fields of the manifest in `data` give,
/// where they are valid.
pub open spec fn fields_ref(data: Seq<u8>, f: (Option<Seq<u8>>, Seq<u8>, Seq<u8>, Option<Seq<u8>>)) -> Option<ManifestRefView> {
    if data.len() <= u32::MAX && f.0 is Some && f.0->Some_0.len() == 20 && f.1.len() == 20 && f.1[0] < 128
        && f.3 is Some && crate::erik::location_wf(f.3->Some_0) && time_from_der(f.2) is Some {
        Some(
            ManifestRefView {
                hash: sha256_of(data),
                size: data.len() as u32,
                aki: f.0->Some_0,
                manifest_number: strip_leading(f.1),
                this_update: time_from_der(f.2)->Some_0,
                location: f.3->Some_0,
            },
        )
    } else {
        None
    }
}

/// The manifest reference of a published object, where its URI names a
/// manifest and its octets decode as a valid one (staleness aside).
pub open spec fn object_ref(uri: Seq<u8>, data: Seq<u8>) -> Option<ManifestRefView> {
    if is_manifest_uri(uri) {
        match manifest_fields_of(data) {
            Some(f) => fields_ref(data, f),
            None => None,
        }
    } else {
        None
    }
}

/// The manifest reference for the manifest object `data`, from the fields
/// its decoding gave and whether it is stale.
pub fn manifest_ref_from_fields(
    data: &[u8],
    fields: ManifestFields,
    stale: bool,
    accept_stale: bool,
) -> (r: Result<ManifestRef, ManifestError>)
    ensures
        r is Ok <==> (fields_ref(data@, fields_view(fields)) is Some && !(stale && !accept_stale)),
        r == Err::<ManifestRef, ManifestError>(ManifestError::Stale) <==> (fields_ref(data@, fields_view(fields)) is Some && stale
            && !accept_stale),
        r matches Ok(m) ==> m@.wf() && fields_ref(data@, fields_view(fields)) == Some(m@),
        r != Err::<ManifestRef, ManifestError>(ManifestError::NotAManifest),
{
    let aki = match fields.aki {
        Some(a) => a,
        None => { return Err(ManifestError::NoKeyIdentifier); },
    };
    if aki.len() != 20 {
        return Err(ManifestError::Malformed);
    }
    let location = match fields.location {
        Some(l) => l,
        None => { return Err(ManifestError::NoLocation); },
    };
    if !check_ia5(location.as_slice()) || !check_rsync_uri(location.as_slice()) {
        return Err(ManifestError::Malformed);
    }
    let manifest_number = match number_from_array(fields.number.as_slice()) {
        Some(n) => n,
        None => { return Err(ManifestError::Malformed); },
    };
    let this_update = match make_time(fields.this_update.as_slice()) {
        Some(t) => t,
        None => { return Err(ManifestError::Malformed); },
    };
    if data.len() > 4294967295 {
        return Err(ManifestError::TooLarge);
    }
    if stale && !accept_stale {
        return Err(ManifestError::Stale);
    }
    let hash = sha256(data);
    let m = ManifestRef { hash, size: data.len() as u32, aki, manifest_number, this_update, location };
    assert(m@ == fields_ref(data@, fields_view(fields))->Some_0);
    Ok(m)
}

/// The time that a DER GeneralizedTime holds, where it holds a valid one.
pub open spec fn time_from_der(b: Seq<u8>) -> Option<Time> {
    if exists|t: Time| t.wf() && tlv(TAG_GENERALIZED_TIME, t.spec_generalized()) == b {
        Some(choose|t: Time| t.wf() && tlv(TAG_GENERALIZED_TIME, t.spec_generalized()) == b)
    } else {
        None
    }
}

fn make_time(b: &[u8]) -> (r: Option<Time>)
    ensures
        r == time_from_der(b@),
{
    proof {
        assert forall|t: Time| t.wf() && #[trigger] tlv(TAG_GENERALIZED_TIME, t.spec_generalized()) == b@ implies
            at_within(b@, 0, b@.len() as int, tlv(TAG_GENERALIZED_TIME, t.spec_generalized())) by {
            assert(b@.subrange(0, b@.len() as int) =~= b@);
        }
    }
    match take_content(b, 0, b.len(), TAG_GENERALIZED_TIME) {
        Some((c, e)) => {
            if e != b.len() {
                return None;
            }
            let r = Time::parse_generalized(c.as_slice());
            proof {
                if let Some(t) = r {
                    assert(b@.subrange(0, e as int) =~= b@);
                    let u = choose|u: Time| u.wf() && tlv(TAG_GENERALIZED_TIME, u.spec_generalized()) == b@;
                    assert(at_within(b@, 0, b@.len() as int, tlv(TAG_GENERALIZED_TIME, u.spec_generalized())));
                }
            }
            r
        },
        None => None,
    }
}

impl RepoContentElement {
    /// The manifest reference for this object, where its URI ends in `.mft`
    /// and it decodes as a valid manifest; a stale manifest only where
    /// `accept_stale`.
    pub fn try_manifest_ref(&self, accept_stale: bool) -> (r: Result<ManifestRef, ManifestError>)
        ensures
            !is_manifest_uri(self.uri@) ==> r == Err::<ManifestRef, ManifestError>(ManifestError::NotAManifest),
            is_manifest_uri(self.uri@) ==> r != Err::<ManifestRef, ManifestError>(ManifestError::NotAManifest),
            r matches Ok(m) ==> m@.wf() && object_ref(self.uri@, self.data@) == Some(m@),
            r != Err::<ManifestRef, ManifestError>(ManifestError::Stale) ==> (r is Ok <==> object_ref(self.uri@, self.data@) is Some),
            r == Err::<ManifestRef, ManifestError>(ManifestError::Stale) ==> !accept_stale && object_ref(self.uri@, self.data@) is Some,
    {
        if !ends_with_mft(self.uri.as_slice()) {
            return Err(ManifestError::NotAManifest);
        }
        let fields = match decode_manifest_fields(self.data.as_slice()) {
            Some(f) => f,
            None => { return Err(ManifestError::Malformed); },
        };
        let stale = if accept_stale { false } else { manifest_data_is_stale(self.data.as_slice()) };
        let r = manifest_ref_from_fields(self.data.as_slice(), fields, stale, accept_stale);
        r
    }
}

} // verus!
