//! The Erik index and partition objects and their canonical DER encoding.
use vstd::prelude::*;

use crate::bytes_util::{append_bytes, bytes_eq, copy_bytes};
use crate::der::{
    at_within, lemma_content_at, lemma_split, len_octets, push_tlv, read_uint, take_content, take_tlv, tlv,
    uint_bytes, uint_content, TAG_CTX_6, TAG_GENERALIZED_TIME, TAG_INTEGER, TAG_OCTET_STRING, TAG_OID,
    TAG_SEQUENCE,
};
use crate::order::{
    lemma_lex_asymmetric, lemma_lex_irreflexive, lemma_lex_total, lemma_lex_transitive, lex_less, lex_lt,
};
use crate::time::Time;

verus! {

/// Content octets of the object identifier of the Erik index,
/// 1.3.6.1.4.1.41948.826.
pub open spec fn erik_index_oid() -> Seq<u8> {
    seq![43u8, 6, 1, 4, 1, 130, 199, 92, 134, 58]
}

/// Content octets of the SHA-256 object identifier, 2.16.840.1.101.3.4.2.1.
pub open spec fn sha256_oid() -> Seq<u8> {
    seq![0x60u8, 0x86, 0x48, 0x01, 0x65, 0x03, 0x04, 0x02, 0x01]
}

/// Content octets of id-ad-signedObject, 1.3.6.1.5.5.7.48.11.
pub open spec fn signed_object_oid() -> Seq<u8> {
    seq![0x2bu8, 0x06, 0x01, 0x05, 0x05, 0x07, 0x30, 0x0b]
}

/// The octets of an rsync URI that `rpki::uri::Rsync` accepts.
pub uninterp spec fn is_rsync_uri(s: Seq<u8>) -> bool;

/// Relies on `rpki::uri::Rsync::from_bytes`: whether the octets form an rsync
/// URI; the answer depends on the octets alone.
#[verifier::external_body]
pub(crate) fn check_rsync_uri(s: &[u8]) -> (r: bool)
    ensures
        r == is_rsync_uri(s@),
{
    rpki::uri::Rsync::from_bytes(bytes::Bytes::copy_from_slice(s)).is_ok()
}

/// All octets are IA5 (ASCII) characters.
pub open spec fn is_ia5(s: Seq<u8>) -> bool {
    forall|i: int| 0 <= i < s.len() ==> s[i] < 128
}

pub(crate) fn check_ia5(s: &[u8]) -> (r: bool)
    ensures
        r == is_ia5(s@),
{
    let mut i: usize = 0;
    while i < s.len()
        invariant
            i <= s@.len(),
            forall|j: int| 0 <= j < i ==> s@[j] < 128,
        decreases s@.len() - i,
    {
        if s[i] >= 128 {
            return false;
        }
        i = i + 1;
    }
    true
}

/// A manifest number as minimal big-endian octets: at most 20 octets, no
/// leading zero octet, and below 2^159 as certificate serials are.
pub open spec fn number_wf(s: Seq<u8>) -> bool {
    &&& 1 <= s.len() <= 20
    &&& (s.len() == 1 || s[0] != 0)
    &&& (s.len() == 20 ==> s[0] < 128)
}

/// The INTEGER content octets of a manifest number.
pub open spec fn number_content(s: Seq<u8>) -> Seq<u8> {
    if s[0] >= 128 {
        seq![0u8] + s
    } else {
        s
    }
}

/// The numeric order of manifest numbers in minimal big-endian octets.
pub open spec fn number_less(a: Seq<u8>, b: Seq<u8>) -> bool {
    a.len() < b.len() || (a.len() == b.len() && lex_less(a, b))
}

/// Whether manifest number `a` is below `b`.
pub fn number_lt(a: &[u8], b: &[u8]) -> (r: bool)
    ensures
        r == number_less(a@, b@),
{
    if a.len() != b.len() {
        a.len() < b.len()
    } else {
        lex_lt(a, b)
    }
}

/// Big-endian octets without their leading zero octets, one octet kept.
pub open spec fn strip_leading(s: Seq<u8>) -> Seq<u8>
    decreases s.len(),
{
    if s.len() > 1 && s[0] == 0 {
        strip_leading(s.drop_first())
    } else {
        s
    }
}

/// The minimal octets of a manifest number given as 20 big-endian octets,
/// or `None` where it does not fit a certificate serial.
pub fn number_from_array(a: &[u8]) -> (r: Option<Vec<u8>>)
    ensures
        r matches Some(v) ==> number_wf(v@) && a@.len() == 20 && a@[0] < 128 && v@ == strip_leading(a@),
        r is None ==> a@.len() != 20 || a@[0] >= 128,
{
    if a.len() != 20 || a[0] >= 128 {
        return None;
    }
    let mut i: usize = 0;
    assert(a@.subrange(0, 20) =~= a@);
    while i < 19 && a[i] == 0
        invariant
            i <= 19,
            a@.len() == 20,
            strip_leading(a@.subrange(i as int, 20)) == strip_leading(a@),
        decreases 19 - i,
    {
        assert(a@.subrange(i as int, 20).drop_first() =~= a@.subrange(i + 1, 20));
        i = i + 1;
    }
    assert(strip_leading(a@.subrange(i as int, 20)) == a@.subrange(i as int, 20));
    let mut v: Vec<u8> = Vec::new();
    let mut j: usize = i;
    while j < 20
        invariant
            i <= j <= 20,
            a@.len() == 20,
            v@ == a@.subrange(i as int, j as int),
        decreases 20 - j,
    {
        v.push(a[j]);
        j = j + 1;
        assert(v@ =~= a@.subrange(i as int, j as int));
    }
    Some(v)
}

/// A manifest reference as plain values.
pub struct ManifestRefView {
    pub hash: Seq<u8>,
    pub size: u32,
    pub aki: Seq<u8>,
    pub manifest_number: Seq<u8>,
    pub this_update: Time,
    pub location: Seq<u8>,
}

impl ManifestRefView {
    /// A digest of 32 octets, a key identifier of 20, a valid number, time and
    /// location.
    pub open spec fn wf(self) -> bool {
        &&& self.hash.len() == 32
        &&& self.aki.len() == 20
        &&& number_wf(self.manifest_number)
        &&& self.this_update.wf()
        &&& is_ia5(self.location)
        &&& is_rsync_uri(self.location)
    }
}

/// The `locations` of a manifest reference: the signed-object access
/// description.
pub open spec fn location_der(location: Seq<u8>) -> Seq<u8> {
    tlv(TAG_SEQUENCE, tlv(TAG_OID, signed_object_oid()) + tlv(TAG_CTX_6, location))
}

/// The fields of a manifest reference, encoded one after the other.
pub open spec fn manifest_ref_content(m: ManifestRefView) -> Seq<u8> {
    tlv(TAG_OCTET_STRING, m.hash) + tlv(TAG_INTEGER, uint_content(m.size as nat)) + tlv(
        TAG_OCTET_STRING,
        m.aki,
    ) + tlv(TAG_INTEGER, number_content(m.manifest_number)) + tlv(
        TAG_GENERALIZED_TIME,
        m.this_update.spec_generalized(),
    ) + location_der(m.location)
}

/// The DER encoding of a manifest reference.
#[verifier::opaque]
pub open spec fn manifest_ref_der(m: ManifestRefView) -> Seq<u8> {
    tlv(TAG_SEQUENCE, manifest_ref_content(m))
}

/// The encodings of manifest references, one after the other.
pub open spec fn manifest_refs_der(s: Seq<ManifestRefView>) -> Seq<u8>
    decreases s.len(),
{
    if s.len() == 0 {
        Seq::empty()
    } else {
        manifest_ref_der(s[0]) + manifest_refs_der(s.drop_first())
    }
}

/// Strictly ascending by digest.
pub open spec fn refs_sorted(s: Seq<ManifestRefView>) -> bool {
    forall|i: int, j: int| 0 <= i < j < s.len() ==> lex_less(#[trigger] s[i].hash, #[trigger] s[j].hash)
}

/// A manifest reference: one manifest of the repository, by its digest.
#[derive(Clone, Debug)]
pub struct ManifestRef {
    pub hash: Vec<u8>,
    pub size: u32,
    pub aki: Vec<u8>,
    pub manifest_number: Vec<u8>,
    pub this_update: Time,
    pub location: Vec<u8>,
}

impl View for ManifestRef {
    type V = ManifestRefView;

    open spec fn view(&self) -> ManifestRefView {
        ManifestRefView {
            hash: self.hash@,
            size: self.size,
            aki: self.aki@,
            manifest_number: self.manifest_number@,
            this_update: self.this_update,
            location: self.location@,
        }
    }
}

/// The references as plain values.
pub open spec fn refs_view(s: Seq<ManifestRef>) -> Seq<ManifestRefView> {
    s.map_values(|m: ManifestRef| m@)
}

impl ManifestRef {
    /// A manifest reference from its fields.
    pub fn new(
        hash: Vec<u8>,
        size: u32,
        aki: Vec<u8>,
        manifest_number: Vec<u8>,
        this_update: Time,
        location: Vec<u8>,
    ) -> (r: ManifestRef)
        ensures
            r@ == (ManifestRefView {
                hash: hash@,
                size,
                aki: aki@,
                manifest_number: manifest_number@,
                this_update,
                location: location@,
            }),
    {
        ManifestRef { hash, size, aki, manifest_number, this_update, location }
    }

    /// A copy with the same view.
    pub fn duplicate(&self) -> (r: ManifestRef)
        ensures
            r@ == self@,
    {
        ManifestRef {
            hash: copy_bytes(self.hash.as_slice()),
            size: self.size,
            aki: copy_bytes(self.aki.as_slice()),
            manifest_number: copy_bytes(self.manifest_number.as_slice()),
            this_update: self.this_update,
            location: copy_bytes(self.location.as_slice()),
        }
    }

    /// The DER encoding of this reference.
    pub fn encode(&self) -> (r: Vec<u8>)
        requires
            self@.wf(),
        ensures
            r@ == manifest_ref_der(self@),
    {
        let mut c: Vec<u8> = Vec::new();
        push_tlv(&mut c, TAG_OCTET_STRING, self.hash.as_slice());
        let size = uint_bytes(self.size);
        push_tlv(&mut c, TAG_INTEGER, size.as_slice());
        push_tlv(&mut c, TAG_OCTET_STRING, self.aki.as_slice());
        let number = number_bytes(self.manifest_number.as_slice());
        push_tlv(&mut c, TAG_INTEGER, number.as_slice());
        let time = self.this_update.generalized();
        push_tlv(&mut c, TAG_GENERALIZED_TIME, time.as_slice());
        let loc = encode_location(self.location.as_slice());
        append_bytes(&mut c, loc.as_slice());
        assert(c@ =~= manifest_ref_content(self@));
        let mut out: Vec<u8> = Vec::new();
        push_tlv(&mut out, TAG_SEQUENCE, c.as_slice());
        reveal(manifest_ref_der);
        assert(out@ =~= manifest_ref_der(self@));
        out
    }
}

fn number_bytes(s: &[u8]) -> (r: Vec<u8>)
    requires
        number_wf(s@),
    ensures
        r@ == number_content(s@),
{
    if s[0] >= 128 {
        let mut r: Vec<u8> = Vec::new();
        r.push(0u8);
        append_bytes(&mut r, s);
        assert(r@ =~= seq![0u8] + s@);
        r
    } else {
        copy_bytes(s)
    }
}

fn oid_bytes_signed_object() -> (r: Vec<u8>)
    ensures
        r@ == signed_object_oid(),
{
    let r = vec![0x2bu8, 0x06, 0x01, 0x05, 0x05, 0x07, 0x30, 0x0b];
    assert(r@ =~= signed_object_oid());
    r
}

pub(crate) fn oid_bytes_sha256() -> (r: Vec<u8>)
    ensures
        r@ == sha256_oid(),
{
    let r = vec![0x60u8, 0x86, 0x48, 0x01, 0x65, 0x03, 0x04, 0x02, 0x01];
    assert(r@ =~= sha256_oid());
    r
}

pub(crate) fn oid_bytes_erik_index() -> (r: Vec<u8>)
    ensures
        r@ == erik_index_oid(),
{
    let r = vec![43u8, 6, 1, 4, 1, 130, 199, 92, 134, 58];
    assert(r@ =~= erik_index_oid());
    r
}

fn encode_location(location: &[u8]) -> (r: Vec<u8>)
    ensures
        r@ == location_der(location@),
{
    let mut c: Vec<u8> = Vec::new();
    let oid = oid_bytes_signed_object();
    push_tlv(&mut c, TAG_OID, oid.as_slice());
    push_tlv(&mut c, TAG_CTX_6, location);
    let mut out: Vec<u8> = Vec::new();
    push_tlv(&mut out, TAG_SEQUENCE, c.as_slice());
    assert(c@ =~= tlv(TAG_OID, signed_object_oid()) + tlv(TAG_CTX_6, location@));
    out
}


/// Why an encoded object was refused.
#[derive(Clone, Copy, Debug, PartialEq, Eq, Structural)]
pub enum DecodeError {
    /// The structure is not the expected DER: a tag, a length, trailing
    /// elements, or references out of ascending order of digest.
    Malformed,
    /// The object identifier is not that of the Erik index.
    WrongOid,
    /// The hash algorithm is not SHA-256.
    WrongHashAlgorithm,
    /// A digest is not 32 octets long.
    InvalidHash,
    /// A size is negative or does not fit in 32 bits.
    InvalidSize,
    /// A key identifier is not 20 octets long.
    InvalidKeyIdentifier,
    /// A manifest number is not a serial of at most 20 octets.
    InvalidNumber,
    /// A time is not a valid GeneralizedTime `YYYYMMDDHHMMSSZ`.
    InvalidTime,
    /// The location is not a signed-object rsync URI.
    InvalidLocation,
    /// The index scope is not an IA5 string.
    InvalidScope,
}

/// Reads the content octets of a manifest number.
fn read_number(c: &[u8]) -> (r: Option<Vec<u8>>)
    ensures
        r matches Some(v) ==> number_wf(v@) && number_content(v@) == c@,
        forall|s: Seq<u8>| number_wf(s) && #[trigger] number_content(s) == c@ ==> (r matches Some(v) && v@ == s),
{
    proof {
        assert forall|s: Seq<u8>| number_wf(s) && #[trigger] number_content(s) == c@ implies
            (s[0] >= 128 ==> c@.len() > 1 && c@[0] == 0 && c@[1] >= 128 && s == c@.drop_first())
            && (s[0] < 128 ==> c@[0] == s[0] && s == c@) by {
            if s[0] >= 128 {
                assert((seq![0u8] + s).drop_first() =~= s);
                assert((seq![0u8] + s)[1] == s[0]);
            }
        }
    }
    if c.len() == 0 || c[0] >= 128 {
        return None;
    }
    if c.len() > 1 && c[0] == 0 {
        if c[1] < 128 || c.len() > 20 {
            return None;
        }
        let v = copy_bytes(&c[1..c.len()]);
        assert(v@ =~= c@.drop_first());
        assert(number_content(v@) =~= c@);
        return Some(v);
    }
    if c.len() > 20 {
        return None;
    }
    let v = copy_bytes(c);
    Some(v)
}

/// The location octets stand for a valid location.
pub open spec fn location_wf(loc: Seq<u8>) -> bool {
    is_ia5(loc) && is_rsync_uri(loc)
}

/// Reads a fixed value at `pos`: succeeds where the octets there are
/// exactly `expected`.
pub(crate) fn take_fixed(b: &[u8], pos: usize, end: usize, tag: u8, expected: &[u8]) -> (r: Option<usize>)
    requires
        pos <= end <= b@.len(),
    ensures
        r matches Some(e) ==> at_within(b@, pos as int, end as int, tlv(tag, expected@)) && e == pos + tlv(tag, expected@).len(),
        at_within(b@, pos as int, end as int, tlv(tag, expected@)) ==> r == Some((pos + tlv(tag, expected@).len()) as usize),
{
    match take_content(b, pos, end, tag) {
        Some((v, e)) => {
            if bytes_eq(v.as_slice(), expected) {
                Some(e)
            } else {
                None
            }
        },
        None => None,
    }
}

impl ManifestRef {
    /// Reads the signed-object location at `pos`: the rsync URI and the
    /// position after it.
    pub fn take_locations(b: &[u8], pos: usize, end: usize) -> (r: Result<(Vec<u8>, usize), DecodeError>)
        requires
            pos <= end <= b@.len(),
        ensures
            r matches Ok((v, e)) ==> location_wf(v@) && e <= end && at_within(b@, pos as int, end as int, location_der(v@))
                && e == pos + location_der(v@).len(),
            forall|loc: Seq<u8>| location_wf(loc) && #[trigger] at_within(b@, pos as int, end as int, location_der(loc))
                ==> (r matches Ok((v, e)) && v@ == loc && e == pos + location_der(loc).len()),
    {
        let oid = oid_bytes_signed_object();
        let (s, e) = match take_tlv(b, pos, end, TAG_SEQUENCE) {
            Some(x) => x,
            None => { return Err(DecodeError::Malformed); },
        };
        proof {
            assert forall|loc: Seq<u8>| location_wf(loc) && #[trigger] at_within(b@, pos as int, end as int, location_der(loc))
                implies at_within(b@, s as int, e as int, tlv(TAG_OID, signed_object_oid()))
                && at_within(b@, s + tlv(TAG_OID, signed_object_oid()).len(), e as int, tlv(TAG_CTX_6, loc))
                && e == pos + location_der(loc).len() by {
                let c = tlv(TAG_OID, signed_object_oid()) + tlv(TAG_CTX_6, loc);
                assert(at_within(b@, pos as int, end as int, tlv(TAG_SEQUENCE, c)));
                lemma_content_at(b@, s as int, e as int, c);
                lemma_split(b@, s as int, e as int, tlv(TAG_OID, signed_object_oid()), tlv(TAG_CTX_6, loc));
            }
        }
        let p = match take_fixed(b, s, e, TAG_OID, oid.as_slice()) {
            Some(p) => p,
            None => { return Err(DecodeError::InvalidLocation); },
        };
        let (loc, pos2) = match take_content(b, p, e, TAG_CTX_6) {
            Some(x) => x,
            None => { return Err(DecodeError::InvalidLocation); },
        };
        if pos2 != e {
            proof {
                assert forall|l: Seq<u8>| location_wf(l) implies !#[trigger] at_within(b@, pos as int, end as int, location_der(l)) by {
                    if at_within(b@, pos as int, end as int, location_der(l)) {
                        assert(at_within(b@, p as int, e as int, tlv(TAG_CTX_6, l)));
                    }
                }
            }
            return Err(DecodeError::Malformed);
        }
        if !check_ia5(loc.as_slice()) || !check_rsync_uri(loc.as_slice()) {
            proof {
                assert forall|l: Seq<u8>| location_wf(l) implies !#[trigger] at_within(b@, pos as int, end as int, location_der(l)) by {
                    if at_within(b@, pos as int, end as int, location_der(l)) {
                        assert(at_within(b@, p as int, e as int, tlv(TAG_CTX_6, l)));
                    }
                }
            }
            return Err(DecodeError::InvalidLocation);
        }
        proof {
            assert(b@.subrange(s as int, e as int) =~= tlv(TAG_OID, signed_object_oid()) + tlv(TAG_CTX_6, loc@)) by {
                assert(b@.subrange(s as int, p as int) == tlv(TAG_OID, signed_object_oid()));
                assert(b@.subrange(p as int, e as int) == tlv(TAG_CTX_6, loc@));
                assert(b@.subrange(s as int, e as int) =~= b@.subrange(s as int, p as int) + b@.subrange(p as int, e as int));
            }
            assert forall|l: Seq<u8>| location_wf(l) && #[trigger] at_within(b@, pos as int, end as int, location_der(l))
                implies l == loc@ by {
                assert(at_within(b@, p as int, e as int, tlv(TAG_CTX_6, l)));
            }
        }
        Ok((loc, e))
    }
}

/// A manifest reference stands in `b` at `pos`.
pub open spec fn ref_at(b: Seq<u8>, pos: int, end: int, mv: ManifestRefView) -> bool {
    mv.wf() && at_within(b, pos, end, manifest_ref_der(mv))
}

/// The first three fields of a manifest reference: digest, size, and key
/// identifier.
pub open spec fn ref_head(hash: Seq<u8>, size: u32, aki: Seq<u8>) -> Seq<u8> {
    tlv(TAG_OCTET_STRING, hash) + tlv(TAG_INTEGER, uint_content(size as nat)) + tlv(TAG_OCTET_STRING, aki)
}

/// The last three fields of a manifest reference: number, time, location.
pub open spec fn ref_tail(number: Seq<u8>, time: Time, location: Seq<u8>) -> Seq<u8> {
    tlv(TAG_INTEGER, number_content(number)) + tlv(TAG_GENERALIZED_TIME, time.spec_generalized())
        + location_der(location)
}

proof fn lemma_ref_split(b: Seq<u8>, pos: int, end: int, mv: ManifestRefView)
    requires
        ref_at(b, pos, end, mv),
    ensures
        ({
            let c = manifest_ref_content(mv);
            let s = pos + 1 + len_octets(c.len()).len();
            let e = s + c.len();
            let h = ref_head(mv.hash, mv.size, mv.aki);
            &&& e == pos + manifest_ref_der(mv).len()
            &&& at_within(b, pos, end, tlv(TAG_SEQUENCE, c))
            &&& at_within(b, s, e, h)
            &&& at_within(b, s + h.len(), e, ref_tail(mv.manifest_number, mv.this_update, mv.location))
            &&& s + h.len() + ref_tail(mv.manifest_number, mv.this_update, mv.location).len() == e
        }),
{
    let c = manifest_ref_content(mv);
    let lo = len_octets(c.len());
    let s = pos + 1 + lo.len();
    let e = s + c.len();
    let h = ref_head(mv.hash, mv.size, mv.aki);
    let t = ref_tail(mv.manifest_number, mv.this_update, mv.location);
    reveal(manifest_ref_der);
    assert(manifest_ref_der(mv) =~= (seq![TAG_SEQUENCE] + lo) + c);
    lemma_split(b, pos, end, seq![TAG_SEQUENCE] + lo, c);
    assert(c =~= h + t);
    lemma_split(b, s, e, h, t);
}

/// Reads digest, size and key identifier of a manifest reference.
fn take_ref_head(b: &[u8], s: usize, e: usize) -> (r: Result<(Vec<u8>, u32, Vec<u8>, usize), DecodeError>)
    requires
        s <= e <= b@.len(),
    ensures
        r matches Ok((h, n, k, p)) ==> h@.len() == 32 && k@.len() == 20 && s <= p <= e
            && b@.subrange(s as int, p as int) == ref_head(h@, n, k@),
        forall|h: Seq<u8>, n: u32, k: Seq<u8>| h.len() == 32 && k.len() == 20 && #[trigger] at_within(b@, s as int, e as int, ref_head(h, n, k))
            ==> (r matches Ok((h2, n2, k2, p)) && h2@ == h && n2 == n && k2@ == k && p == s + ref_head(h, n, k).len()),
{
    proof {
        assert forall|h: Seq<u8>, n: u32, k: Seq<u8>| #[trigger] at_within(b@, s as int, e as int, ref_head(h, n, k))
            implies at_within(b@, s as int, e as int, tlv(TAG_OCTET_STRING, h))
            && at_within(b@, s + tlv(TAG_OCTET_STRING, h).len(), e as int, tlv(TAG_INTEGER, uint_content(n as nat)))
            && at_within(b@, s + tlv(TAG_OCTET_STRING, h).len() + tlv(TAG_INTEGER, uint_content(n as nat)).len(), e as int, tlv(TAG_OCTET_STRING, k)) by {
            let x = tlv(TAG_OCTET_STRING, h);
            let y = tlv(TAG_INTEGER, uint_content(n as nat));
            let z = tlv(TAG_OCTET_STRING, k);
            lemma_split(b@, s as int, e as int, x + y, z);
            lemma_split(b@, s as int, e as int, x, y);
        }
    }
    let (hash, pos1) = match take_content(b, s, e, TAG_OCTET_STRING) {
        Some(x) => x,
        None => { return Err(DecodeError::Malformed); },
    };
    if hash.len() != 32 {
        return Err(DecodeError::InvalidHash);
    }
    let (size_c, pos2) = match take_content(b, pos1, e, TAG_INTEGER) {
        Some(x) => x,
        None => { return Err(DecodeError::Malformed); },
    };
    let size = match read_uint(size_c.as_slice()) {
        Some(n) => n,
        None => { return Err(DecodeError::InvalidSize); },
    };
    let (aki, pos3) = match take_content(b, pos2, e, TAG_OCTET_STRING) {
        Some(x) => x,
        None => { return Err(DecodeError::Malformed); },
    };
    if aki.len() != 20 {
        return Err(DecodeError::InvalidKeyIdentifier);
    }
    proof {
        assert(b@.subrange(s as int, pos3 as int) =~= b@.subrange(s as int, pos1 as int) + b@.subrange(pos1 as int, pos2 as int)
            + b@.subrange(pos2 as int, pos3 as int));
    }
    Ok((hash, size, aki, pos3))
}

/// Reads manifest number, this-update time and location of a manifest
/// reference, which must end at `e`.
fn take_ref_tail(b: &[u8], p: usize, e: usize) -> (r: Result<(Vec<u8>, Time, Vec<u8>), DecodeError>)
    requires
        p <= e <= b@.len(),
    ensures
        r matches Ok((n, t, l)) ==> number_wf(n@) && t.wf() && location_wf(l@)
            && b@.subrange(p as int, e as int) == ref_tail(n@, t, l@),
        forall|n: Seq<u8>, t: Time, l: Seq<u8>| number_wf(n) && t.wf() && location_wf(l) && #[trigger] at_within(b@, p as int, e as int, ref_tail(n, t, l))
            && p + ref_tail(n, t, l).len() == e
            ==> (r matches Ok((n2, t2, l2)) && n2@ == n && t2 == t && l2@ == l),
{
    proof {
        assert forall|n: Seq<u8>, t: Time, l: Seq<u8>| #[trigger] at_within(b@, p as int, e as int, ref_tail(n, t, l))
            implies at_within(b@, p as int, e as int, tlv(TAG_INTEGER, number_content(n)))
            && at_within(b@, p + tlv(TAG_INTEGER, number_content(n)).len(), e as int, tlv(TAG_GENERALIZED_TIME, t.spec_generalized()))
            && at_within(b@, p + tlv(TAG_INTEGER, number_content(n)).len() + tlv(TAG_GENERALIZED_TIME, t.spec_generalized()).len(), e as int, location_der(l)) by {
            let x = tlv(TAG_INTEGER, number_content(n));
            let y = tlv(TAG_GENERALIZED_TIME, t.spec_generalized());
            let z = location_der(l);
            lemma_split(b@, p as int, e as int, x + y, z);
            lemma_split(b@, p as int, e as int, x, y);
        }
    }
    let (num_c, pos4) = match take_content(b, p, e, TAG_INTEGER) {
        Some(x) => x,
        None => { return Err(DecodeError::Malformed); },
    };
    let number = match read_number(num_c.as_slice()) {
        Some(v) => v,
        None => { return Err(DecodeError::InvalidNumber); },
    };
    let (time_c, pos5) = match take_content(b, pos4, e, TAG_GENERALIZED_TIME) {
        Some(x) => x,
        None => { return Err(DecodeError::Malformed); },
    };
    let this_update = match Time::parse_generalized(time_c.as_slice()) {
        Some(t) => t,
        None => { return Err(DecodeError::InvalidTime); },
    };
    let (location, pos6) = match ManifestRef::take_locations(b, pos5, e) {
        Ok(x) => x,
        Err(err) => { return Err(err); },
    };
    if pos6 != e {
        return Err(DecodeError::Malformed);
    }
    proof {
        assert(b@.subrange(pos5 as int, e as int) == location_der(location@));
        assert(b@.subrange(p as int, e as int) =~= b@.subrange(p as int, pos4 as int) + b@.subrange(pos4 as int, pos5 as int)
            + b@.subrange(pos5 as int, e as int));
    }
    Ok((number, this_update, location))
}

proof fn lemma_ref_sound(b: Seq<u8>, pos: int, s: int, mid: int, e: int, m: ManifestRefView)
    requires
        0 <= pos < s <= mid <= e <= b.len(),
        b.subrange(pos, e) == tlv(TAG_SEQUENCE, b.subrange(s, e)),
        b.subrange(s, mid) == ref_head(m.hash, m.size, m.aki),
        b.subrange(mid, e) == ref_tail(m.manifest_number, m.this_update, m.location),
    ensures
        b.subrange(pos, e) == manifest_ref_der(m),
{
    reveal(manifest_ref_der);
    assert(b.subrange(s, e) =~= b.subrange(s, mid) + b.subrange(mid, e));
    assert(manifest_ref_content(m) =~= ref_head(m.hash, m.size, m.aki) + ref_tail(m.manifest_number, m.this_update, m.location));
}

impl ManifestRef {
    /// Reads a manifest reference at `pos` if a SEQUENCE starts there: the
    /// reference and the position after it. `Ok(None)` where the content
    /// ends at `pos` or something other than a SEQUENCE starts there.
    pub fn take_opt_from(b: &[u8], pos: usize, end: usize) -> (r: Result<Option<(ManifestRef, usize)>, DecodeError>)
        requires
            pos <= end <= b@.len(),
        ensures
            r matches Ok(Some((m, e))) ==> m@.wf() && pos < e <= end,
            r matches Ok(Some((m, e))) ==> b@.subrange(pos as int, e as int) == manifest_ref_der(m@),
            r matches Ok(None) ==> pos == end || b@[pos as int] != TAG_SEQUENCE,
            pos == end ==> r matches Ok(None),
            (pos < end && b@[pos as int] != TAG_SEQUENCE) ==> r matches Ok(None),
            forall|mv: ManifestRefView| #[trigger] ref_at(b@, pos as int, end as int, mv) ==> (r matches Ok(Some((m, e)))
                && m@ == mv && e == pos + manifest_ref_der(mv).len()),
    {
        proof {
            assert forall|mv: ManifestRefView| #[trigger] ref_at(b@, pos as int, end as int, mv) implies pos < end && b@[pos as int] == TAG_SEQUENCE by {
                lemma_ref_split(b@, pos as int, end as int, mv);
                assert(b@.subrange(pos as int, pos + manifest_ref_der(mv).len())[0] == b@[pos as int]);
            }
        }
        if pos >= end || b[pos] != TAG_SEQUENCE {
            return Ok(None);
        }
        let (s, e) = match take_tlv(b, pos, end, TAG_SEQUENCE) {
            Some(x) => x,
            None => {
                proof {
                    assert forall|mv: ManifestRefView| !#[trigger] ref_at(b@, pos as int, end as int, mv) by {
                        if ref_at(b@, pos as int, end as int, mv) {
                            lemma_ref_split(b@, pos as int, end as int, mv);
                        }
                    }
                }
                return Err(DecodeError::Malformed);
            },
        };
        proof {
            assert forall|mv: ManifestRefView| #[trigger] ref_at(b@, pos as int, end as int, mv) implies
                e == pos + manifest_ref_der(mv).len()
                && at_within(b@, s as int, e as int, ref_head(mv.hash, mv.size, mv.aki)) by {
                lemma_ref_split(b@, pos as int, end as int, mv);
            }
        }
        let (hash, size, aki, pos3) = match take_ref_head(b, s, e) {
            Ok(x) => x,
            Err(err) => { return Err(err); },
        };
        proof {
            assert forall|mv: ManifestRefView| #[trigger] ref_at(b@, pos as int, end as int, mv) implies
                hash@ == mv.hash && size == mv.size && aki@ == mv.aki
                && at_within(b@, pos3 as int, e as int, ref_tail(mv.manifest_number, mv.this_update, mv.location))
                && pos3 + ref_tail(mv.manifest_number, mv.this_update, mv.location).len() == e by {
                lemma_ref_split(b@, pos as int, end as int, mv);
            }
        }
        let (manifest_number, this_update, location) = match take_ref_tail(b, pos3, e) {
            Ok(x) => x,
            Err(err) => { return Err(err); },
        };
        let m = ManifestRef { hash, size, aki, manifest_number, this_update, location };
        proof {
            lemma_ref_sound(b@, pos as int, s as int, pos3 as int, e as int, m@);
        }
        Ok(Some((m, e)))
    }
}

/// Adds a reference to a list kept strictly ascending by digest; a reference
/// whose digest is already there leaves the list as it is.
pub fn insert_ref(refs: &mut Vec<ManifestRef>, m: ManifestRef) -> (inserted: bool)
    requires
        refs_sorted(refs_view(old(refs)@)),
    ensures
        inserted == !(exists|i: int| 0 <= i < old(refs)@.len() && old(refs)@[i]@.hash == m@.hash),
        refs_sorted(refs_view(final(refs)@)),
        (exists|i: int| 0 <= i < old(refs)@.len() && old(refs)@[i]@.hash == m@.hash) ==> refs_view(final(refs)@)
            == refs_view(old(refs)@),
        !(exists|i: int| 0 <= i < old(refs)@.len() && old(refs)@[i]@.hash == m@.hash) ==> (
        refs_view(final(refs)@).len() == refs_view(old(refs)@).len() + 1 && (forall|x: ManifestRefView|
            refs_view(final(refs)@).contains(x) <==> (refs_view(old(refs)@).contains(x) || x == m@))),
        (forall|i: int| 0 <= i < old(refs)@.len() ==> lex_less(#[trigger] old(refs)@[i]@.hash, m@.hash))
            ==> refs_view(final(refs)@) == refs_view(old(refs)@).push(m@),
{
    let ghost old_v = refs_view(refs@);
    let mut i: usize = 0;
    while i < refs.len() && lex_lt(refs[i].hash.as_slice(), m.hash.as_slice())
        invariant
            i <= refs@.len(),
            refs@ == old(refs)@,
            old_v == refs_view(refs@),
            forall|j: int| 0 <= j < i ==> lex_less(#[trigger] old_v[j].hash, m@.hash),
        decreases refs@.len() - i,
    {
        i = i + 1;
    }
    if i == refs.len() {
        refs.push(m);
        proof {
            assert(refs_view(refs@) =~= old_v.push(m@));
            assert forall|x: ManifestRefView| old_v.contains(x) implies x.hash != m@.hash by {
                let j = choose|j: int| 0 <= j < old_v.len() && old_v[j] == x;
                lemma_lex_asymmetric(old_v[j].hash, m@.hash);
            }
            assert(!(exists|j: int| 0 <= j < old(refs)@.len() && old(refs)@[j]@.hash == m@.hash)) by {
                if exists|j: int| 0 <= j < old(refs)@.len() && old(refs)@[j]@.hash == m@.hash {
                    let j = choose|j: int| 0 <= j < old(refs)@.len() && old(refs)@[j]@.hash == m@.hash;
                    assert(old_v.contains(old_v[j]));
                }
            }
            let nv = refs_view(refs@);
            assert forall|x: ManifestRefView| nv.contains(x) <==> (old_v.contains(x) || x == m@) by {
                if nv.contains(x) {
                    let j = choose|j: int| 0 <= j < nv.len() && nv[j] == x;
                    if j < old_v.len() {
                        assert(old_v[j] == x);
                    }
                }
                if old_v.contains(x) {
                    let j = choose|j: int| 0 <= j < old_v.len() && old_v[j] == x;
                    assert(nv[j] == x);
                }
                if x == m@ {
                    assert(nv[old_v.len() as int] == x);
                }
            }
        }
        return true;
    }
    if crate::bytes_util::bytes_eq(refs[i].hash.as_slice(), m.hash.as_slice()) {
        proof {
            assert(old(refs)@[i as int]@.hash == m@.hash);
            assert(!lex_less(old_v[i as int].hash, m@.hash)) by {
                lemma_lex_irreflexive(m@.hash);
            }
        }
        return false;
    }
    proof {
        lemma_lex_total(old_v[i as int].hash, m@.hash);
        assert(lex_less(m@.hash, old_v[i as int].hash));
        assert forall|j: int| i <= j < old_v.len() implies lex_less(m@.hash, #[trigger] old_v[j].hash) by {
            if j > i {
                lemma_lex_transitive(m@.hash, old_v[i as int].hash, old_v[j].hash);
            }
        }
        assert forall|j: int| 0 <= j < old_v.len() implies #[trigger] old_v[j].hash != m@.hash by {
            if j < i {
                lemma_lex_asymmetric(old_v[j].hash, m@.hash);
            } else {
                lemma_lex_asymmetric(m@.hash, old_v[j].hash);
            }
        }
        assert(!(exists|j: int| 0 <= j < old(refs)@.len() && old(refs)@[j]@.hash == m@.hash)) by {
            if exists|j: int| 0 <= j < old(refs)@.len() && old(refs)@[j]@.hash == m@.hash {
                let j = choose|j: int| 0 <= j < old(refs)@.len() && old(refs)@[j]@.hash == m@.hash;
                assert(old_v[j].hash == m@.hash);
            }
        }
        assert(!(forall|j: int| 0 <= j < old(refs)@.len() ==> lex_less(#[trigger] old(refs)@[j]@.hash, m@.hash))) by {
            assert(old(refs)@[i as int]@.hash == old_v[i as int].hash);
            lemma_lex_asymmetric(m@.hash, old_v[i as int].hash);
        }
    }
    let ghost mv = m@;
    refs.insert(i, m);
    proof {
        let nv = refs_view(refs@);
        assert(nv =~= old_v.insert(i as int, mv));
        assert forall|a: int, b: int| 0 <= a < b < nv.len() implies lex_less(#[trigger] nv[a].hash, #[trigger] nv[b].hash) by {
            if a < i && b < i {
                assert(nv[a] == old_v[a] && nv[b] == old_v[b]);
            } else if a < i && b == i {
            } else if a < i && b > i {
                assert(nv[b] == old_v[b - 1]);
                if b - 1 > a {
                }
            } else if a == i {
                assert(nv[b] == old_v[b - 1]);
            } else {
                assert(nv[a] == old_v[a - 1]);
                assert(nv[b] == old_v[b - 1]);
            }
        }
        assert forall|x: ManifestRefView| nv.contains(x) <==> (old_v.contains(x) || x == mv) by {
            if nv.contains(x) {
                let j = choose|j: int| 0 <= j < nv.len() && nv[j] == x;
                if j < i {
                    assert(old_v[j] == x);
                } else if j > i {
                    assert(old_v[j - 1] == x);
                }
            }
            if old_v.contains(x) {
                let j = choose|j: int| 0 <= j < old_v.len() && old_v[j] == x;
                if j < i {
                    assert(nv[j] == x);
                } else {
                    assert(nv[j + 1] == x);
                }
            }
            if x == mv {
                assert(nv[i as int] == x);
            }
        }
    }
    true
}

/// Encoding one more reference appends its encoding.
pub proof fn lemma_refs_der_push(s: Seq<ManifestRefView>, x: ManifestRefView)
    ensures
        manifest_refs_der(s.push(x)) == manifest_refs_der(s) + manifest_ref_der(x),
    decreases s.len(),
{
    if s.len() == 0 {
        assert(s.push(x).drop_first() =~= Seq::<ManifestRefView>::empty());
        assert(s.push(x)[0] == x);
        assert(manifest_refs_der(s.push(x).drop_first()) == Seq::<u8>::empty());
        assert(manifest_refs_der(s.push(x)) =~= manifest_ref_der(x));
        assert(manifest_refs_der(s) == Seq::<u8>::empty());
        assert(manifest_refs_der(s) + manifest_ref_der(x) =~= manifest_ref_der(x));
    } else {
        assert(s.push(x).drop_first() =~= s.drop_first().push(x));
        lemma_refs_der_push(s.drop_first(), x);
        let a = manifest_ref_der(s[0]);
        let b = manifest_refs_der(s.drop_first());
        let c = manifest_ref_der(x);
        assert(s.push(x)[0] == s[0]);
        assert(manifest_refs_der(s.push(x)) == a + (b + c));
        assert(a + (b + c) =~= (a + b) + c);
    }
}

/// The encoding of references splits where the references do.
pub proof fn lemma_refs_der_split(s: Seq<ManifestRefView>, k: int)
    requires
        0 <= k <= s.len(),
    ensures
        manifest_refs_der(s) == manifest_refs_der(s.take(k)) + manifest_refs_der(s.skip(k)),
    decreases k,
{
    if k == 0 {
        assert(s.take(0) =~= Seq::<ManifestRefView>::empty());
        assert(s.skip(0) =~= s);
        assert(manifest_refs_der(s) =~= manifest_refs_der(s.take(k)) + manifest_refs_der(s.skip(k)));
    } else {
        lemma_refs_der_split(s.drop_first(), k - 1);
        assert(s.drop_first().take(k - 1) =~= s.take(k).drop_first());
        assert(s.drop_first().skip(k - 1) =~= s.skip(k));
        assert(s.take(k)[0] == s[0]);
        assert(manifest_refs_der(s) =~= manifest_refs_der(s.take(k)) + manifest_refs_der(s.skip(k)));
    }
}

/// An Erik partition as plain values.
pub struct PartitionView {
    pub partition_time: Time,
    pub manifest_refs: Seq<ManifestRefView>,
}

impl PartitionView {
    /// A valid time and valid references, strictly ascending by digest.
    pub open spec fn wf(self) -> bool {
        &&& self.partition_time.wf()
        &&& forall|i: int| 0 <= i < self.manifest_refs.len() ==> (#[trigger] self.manifest_refs[i]).wf()
        &&& refs_sorted(self.manifest_refs)
    }
}

/// The SHA-256 algorithm identifier of a partition.
pub open spec fn sha256_alg_der() -> Seq<u8> {
    tlv(TAG_SEQUENCE, tlv(TAG_OID, sha256_oid()))
}

/// A partition encoding from its time and the encodings of its references.
pub open spec fn partition_der_of(time: Time, refs_der: Seq<u8>) -> Seq<u8> {
    tlv(TAG_SEQUENCE, tlv(TAG_GENERALIZED_TIME, time.spec_generalized()) + sha256_alg_der() + tlv(TAG_SEQUENCE, refs_der))
}

/// The DER encoding of a partition.
#[verifier::opaque]
pub open spec fn partition_der(p: PartitionView) -> Seq<u8> {
    partition_der_of(p.partition_time, manifest_refs_der(p.manifest_refs))
}

/// A partition of the index: the manifest references whose key identifiers
/// share a first octet, strictly ascending by digest, and the partition time.
#[derive(Clone, Debug)]
pub struct ErikPartition {
    pub partition_time: Time,
    pub manifest_refs: Vec<ManifestRef>,
}

impl View for ErikPartition {
    type V = PartitionView;

    open spec fn view(&self) -> PartitionView {
        PartitionView { partition_time: self.partition_time, manifest_refs: refs_view(self.manifest_refs@) }
    }
}

impl ErikPartition {
    /// A partition holding one reference, timed by its this-update time.
    pub fn create_from_manifest_ref(mft: ManifestRef) -> (r: ErikPartition)
        requires
            mft@.wf(),
        ensures
            r@.wf(),
            r@.partition_time == mft@.this_update,
            r@.manifest_refs == seq![mft@],
            time_is_min(r@),
    {
        let partition_time = mft.this_update;
        let mut manifest_refs: Vec<ManifestRef> = Vec::new();
        manifest_refs.push(mft);
        let r = ErikPartition { partition_time, manifest_refs };
        assert(r@.manifest_refs =~= seq![mft@]);
        assert(r@.manifest_refs[0].this_update == r@.partition_time);
        r
    }

    /// Adds a reference. Where its digest is new to the partition, the
    /// partition time becomes the earlier of the partition time and the
    /// reference's this-update time; otherwise nothing changes.
    pub fn add_manifest_ref(&mut self, mft_ref: ManifestRef)
        requires
            old(self)@.wf(),
            mft_ref@.wf(),
        ensures
            final(self)@.wf(),
            ({
                let fresh = !(exists|i: int| 0 <= i < old(self)@.manifest_refs.len() && (#[trigger] old(self)@.manifest_refs[i]).hash == mft_ref@.hash);
                &&& final(self)@.partition_time == (if fresh && mft_ref@.this_update.spec_key() < old(self)@.partition_time.spec_key() {
                    mft_ref@.this_update
                } else {
                    old(self)@.partition_time
                })
                &&& !fresh ==> final(self)@.manifest_refs == old(self)@.manifest_refs
                &&& fresh ==> final(self)@.manifest_refs.len() == old(self)@.manifest_refs.len() + 1
            }),
            forall|x: ManifestRefView| final(self)@.manifest_refs.contains(x) ==> (old(self)@.manifest_refs.contains(x) || x == mft_ref@),
            forall|x: ManifestRefView| old(self)@.manifest_refs.contains(x) ==> final(self)@.manifest_refs.contains(x),
            exists|i: int| 0 <= i < final(self)@.manifest_refs.len() && (#[trigger] final(self)@.manifest_refs[i]).hash == mft_ref@.hash,
            time_is_min(old(self)@) ==> time_is_min(final(self)@),
    {
        let ghost mv = mft_ref@;
        let ghost ov = refs_view(self.manifest_refs@);
        let ghost orefs = self.manifest_refs@;
        let ghost old_time = self.partition_time;
        let earlier = mft_ref.this_update.key() < self.partition_time.key();
        let new_time = mft_ref.this_update;
        let inserted = insert_ref(&mut self.manifest_refs, mft_ref);
        if inserted && earlier {
            self.partition_time = new_time;
        }
        proof {
            let nv = refs_view(self.manifest_refs@);
            assert((exists|i: int| 0 <= i < orefs.len() && orefs[i]@.hash == mv.hash) == (exists|i: int|
                0 <= i < ov.len() && (#[trigger] ov[i]).hash == mv.hash)) by {
                if exists|i: int| 0 <= i < orefs.len() && orefs[i]@.hash == mv.hash {
                    let i = choose|i: int| 0 <= i < orefs.len() && orefs[i]@.hash == mv.hash;
                    assert(ov[i] == orefs[i]@);
                }
                if exists|i: int| 0 <= i < ov.len() && (#[trigger] ov[i]).hash == mv.hash {
                    let i = choose|i: int| 0 <= i < ov.len() && (#[trigger] ov[i]).hash == mv.hash;
                    assert(ov[i] == orefs[i]@);
                }
            }
            if !inserted {
                let i = choose|i: int| 0 <= i < orefs.len() && orefs[i]@.hash == mv.hash;
                assert(ov[i] == orefs[i]@);
                assert(nv[i].hash == mv.hash);
                assert(self@.manifest_refs[i].hash == mv.hash);
            } else {
                assert(nv.contains(mv));
                let i = choose|i: int| 0 <= i < nv.len() && nv[i] == mv;
                assert(nv[i].hash == mv.hash);
                assert(self@.manifest_refs[i].hash == mv.hash);
            }
            assert forall|i: int| 0 <= i < nv.len() implies (#[trigger] nv[i]).wf() by {
                assert(nv.contains(nv[i]));
                if ov.contains(nv[i]) {
                    let j = choose|j: int| 0 <= j < ov.len() && ov[j] == nv[i];
                }
            }
            if time_is_min(old(self)@) && inserted {
                assert forall|i: int| 0 <= i < nv.len() implies self.partition_time.spec_key() <= (#[trigger] nv[i]).this_update.spec_key() by {
                    assert(nv.contains(nv[i]));
                    if ov.contains(nv[i]) {
                        let j = choose|j: int| 0 <= j < ov.len() && ov[j] == nv[i];
                    }
                }
                if earlier {
                    let i = choose|i: int| 0 <= i < nv.len() && nv[i] == mv;
                    assert(nv[i].this_update == self.partition_time);
                } else {
                    let j = choose|j: int| 0 <= j < ov.len() && (#[trigger] ov[j]).this_update == old_time;
                    assert(ov.contains(ov[j]));
                    assert(nv.contains(ov[j]));
                    let i = choose|i: int| 0 <= i < nv.len() && nv[i] == ov[j];
                    assert(nv[i].this_update == self.partition_time);
                }
            }
        }
    }
}

/// The partition time is the earliest this-update time among the
/// partition's references.
pub open spec fn time_is_min(p: PartitionView) -> bool {
    &&& p.manifest_refs.len() > 0
    &&& exists|i: int| 0 <= i < p.manifest_refs.len() && (#[trigger] p.manifest_refs[i]).this_update == p.partition_time
    &&& forall|i: int| 0 <= i < p.manifest_refs.len() ==> p.partition_time.spec_key() <= (#[trigger] p.manifest_refs[i]).this_update.spec_key()
}

/// Produces the canonical encoding of a partition: its references,
/// encoded one after the other in ascending order of digest, and its time.
#[derive(Clone, Debug)]
pub struct ErikPartitionEncoder {
    pub partition_time: Time,
    pub manifest_refs: Vec<u8>,
}

impl ErikPartitionEncoder {
    /// The encoder of a partition.
    pub fn from_partition(p: &ErikPartition) -> (r: ErikPartitionEncoder)
        requires
            p@.wf(),
        ensures
            r.partition_time == p@.partition_time,
            r.manifest_refs@ == manifest_refs_der(p@.manifest_refs),
    {
        let ghost v = p@.manifest_refs;
        let mut out: Vec<u8> = Vec::new();
        let mut i: usize = 0;
        while i < p.manifest_refs.len()
            invariant
                i <= p.manifest_refs@.len(),
                v == p@.manifest_refs,
                p@.wf(),
                out@ == manifest_refs_der(v.take(i as int)),
            decreases p.manifest_refs@.len() - i,
        {
            assert(v[i as int] == p.manifest_refs@[i as int]@);
            let enc = p.manifest_refs[i].encode();
            append_bytes(&mut out, enc.as_slice());
            proof {
                assert(v.take(i + 1) =~= v.take(i as int).push(v[i as int]));
                lemma_refs_der_push(v.take(i as int), v[i as int]);
            }
            i = i + 1;
        }
        assert(v.take(v.len() as int) =~= v);
        ErikPartitionEncoder { partition_time: p.partition_time, manifest_refs: out }
    }

    /// The DER encoding of the partition.
    pub fn encode(&self) -> (r: Vec<u8>)
        requires
            self.partition_time.wf(),
        ensures
            r@ == partition_der_of(self.partition_time, self.manifest_refs@),
    {
        let mut c: Vec<u8> = Vec::new();
        let time = self.partition_time.generalized();
        push_tlv(&mut c, TAG_GENERALIZED_TIME, time.as_slice());
        let alg = sha256_alg_bytes();
        append_bytes(&mut c, alg.as_slice());
        push_tlv(&mut c, TAG_SEQUENCE, self.manifest_refs.as_slice());
        let mut out: Vec<u8> = Vec::new();
        push_tlv(&mut out, TAG_SEQUENCE, c.as_slice());
        assert(c@ =~= tlv(TAG_GENERALIZED_TIME, self.partition_time.spec_generalized()) + sha256_alg_der()
            + tlv(TAG_SEQUENCE, self.manifest_refs@));
        out
    }

    /// The DER encoding of the partition, as captured octets.
    pub fn to_captured(&self) -> (r: Vec<u8>)
        requires
            self.partition_time.wf(),
        ensures
            r@ == partition_der_of(self.partition_time, self.manifest_refs@),
    {
        self.encode()
    }
}

fn sha256_alg_bytes() -> (r: Vec<u8>)
    ensures
        r@ == sha256_alg_der(),
{
    let oid = oid_bytes_sha256();
    let mut inner: Vec<u8> = Vec::new();
    push_tlv(&mut inner, TAG_OID, oid.as_slice());
    let mut out: Vec<u8> = Vec::new();
    push_tlv(&mut out, TAG_SEQUENCE, inner.as_slice());
    out
}

impl ErikPartition {
    /// The canonical DER encoding of this partition.
    pub fn encode(&self) -> (r: Vec<u8>)
        requires
            self@.wf(),
        ensures
            r@ == partition_der(self@),
    {
        reveal(partition_der);
        ErikPartitionEncoder::from_partition(self).encode()
    }
}

/// The encodings of the references `rs` fill `b` from `s` to `e`.
pub open spec fn refs_at(b: Seq<u8>, s: int, e: int, rs: Seq<ManifestRefView>) -> bool {
    &&& forall|i: int| 0 <= i < rs.len() ==> (#[trigger] rs[i]).wf()
    &&& refs_sorted(rs)
    &&& at_within(b, s, e, manifest_refs_der(rs))
    &&& s + manifest_refs_der(rs).len() == e
}

/// Reads the manifest references that fill `b` from `s` to `e`.
fn take_manifest_refs(b: &[u8], s: usize, e: usize) -> (r: Result<Vec<ManifestRef>, DecodeError>)
    requires
        s <= e <= b@.len(),
    ensures
        r matches Ok(v) ==> refs_sorted(refs_view(v@)) && forall|i: int| 0 <= i < v@.len() ==> (#[trigger] v@[i])@.wf(),
        r matches Ok(v) ==> b@.subrange(s as int, e as int) == manifest_refs_der(refs_view(v@)),
        forall|rs: Seq<ManifestRefView>| #[trigger] refs_at(b@, s as int, e as int, rs) ==> (r matches Ok(v) && refs_view(v@) == rs),
{
    let mut refs: Vec<ManifestRef> = Vec::new();
    let mut p: usize = s;
    proof {
        assert(b@.subrange(s as int, s as int) =~= manifest_refs_der(refs_view(refs@)));
        assert forall|rs: Seq<ManifestRefView>| #[trigger] refs_at(b@, s as int, e as int, rs) implies
            refs_view(refs@) == rs.take(0) && p == s + manifest_refs_der(rs.take(0)).len()
            && at_within(b@, p as int, e as int, manifest_refs_der(rs.skip(0))) by {
            assert(rs.take(0) =~= Seq::<ManifestRefView>::empty());
            assert(refs_view(refs@) =~= Seq::<ManifestRefView>::empty());
            assert(rs.skip(0) =~= rs);
        }
    }
    loop
        invariant
            s <= p <= e <= b@.len(),
            refs_sorted(refs_view(refs@)),
            b@.subrange(s as int, p as int) == manifest_refs_der(refs_view(refs@)),
            forall|i: int| 0 <= i < refs@.len() ==> (#[trigger] refs@[i])@.wf(),
            forall|rs: Seq<ManifestRefView>| #[trigger] refs_at(b@, s as int, e as int, rs) ==> (
                refs@.len() <= rs.len() && refs_view(refs@) == rs.take(refs@.len() as int)
                && p == s + manifest_refs_der(rs.take(refs@.len() as int)).len()
                && at_within(b@, p as int, e as int, manifest_refs_der(rs.skip(refs@.len() as int)))),
        decreases e - p,
    {
        let ghost k = refs@.len() as int;
        proof {
            assert forall|rs: Seq<ManifestRefView>| #[trigger] refs_at(b@, s as int, e as int, rs) && k < rs.len()
                implies ref_at(b@, p as int, e as int, rs[k]) && at_within(b@, p + manifest_ref_der(rs[k]).len(), e as int, manifest_refs_der(rs.skip(k + 1))) by {
                let sk = rs.skip(k);
                assert(sk[0] == rs[k]);
                assert(sk.drop_first() =~= rs.skip(k + 1));
                lemma_split(b@, p as int, e as int, manifest_ref_der(rs[k]), manifest_refs_der(rs.skip(k + 1)));
            }
            assert forall|rs: Seq<ManifestRefView>| #[trigger] refs_at(b@, s as int, e as int, rs) && k == rs.len()
                implies p == e by {
                assert(rs.take(k) =~= rs);
            }
        }
        match ManifestRef::take_opt_from(b, p, e) {
            Err(x) => {
                return Err(x);
            },
            Ok(None) => {
                proof {
                    assert forall|rs: Seq<ManifestRefView>| #[trigger] refs_at(b@, s as int, e as int, rs) implies
                        p == e && refs_view(refs@) == rs by {
                        if k < rs.len() {
                            assert(ref_at(b@, p as int, e as int, rs[k]));
                        }
                        assert(rs.take(k) =~= rs);
                    }
                }
                if p != e {
                    return Err(DecodeError::Malformed);
                }
                return Ok(refs);
            },
            Ok(Some((m, np))) => {
                let ghost old_refs = refs@;
                let ghost mv = m@;
                let ghost ov = refs_view(old_refs);
                proof {
                    assert forall|rs: Seq<ManifestRefView>| #[trigger] refs_at(b@, s as int, e as int, rs) implies
                        k < rs.len() && mv == rs[k] && np == p + manifest_ref_der(rs[k]).len()
                        && (k > 0 ==> lex_less(ov[k - 1].hash, mv.hash)) by {
                        if k > 0 {
                            assert(rs.take(k)[k - 1] == rs[k - 1]);
                        }
                    }
                }
                if refs.len() > 0 && !lex_lt(refs[refs.len() - 1].hash.as_slice(), m.hash.as_slice()) {
                    proof {
                        assert(ov[k - 1] == old_refs[k - 1]@);
                    }
                    return Err(DecodeError::Malformed);
                }
                proof {
                    if k > 0 {
                        assert(ov[k - 1] == old_refs[k - 1]@);
                    }
                }
                refs.push(m);
                let ghost old_p = p;
                p = np;
                proof {
                    let nv = refs_view(refs@);
                    assert(nv =~= ov.push(mv));
                    lemma_refs_der_push(ov, mv);
                    assert(b@.subrange(s as int, np as int) =~= b@.subrange(s as int, old_p as int) + b@.subrange(old_p as int, np as int));
                    assert forall|a: int, c: int| 0 <= a < c < nv.len() implies lex_less(#[trigger] nv[a].hash, #[trigger] nv[c].hash) by {
                        if c == k {
                            if a < k - 1 {
                                lemma_lex_transitive(ov[a].hash, ov[k - 1].hash, mv.hash);
                            }
                        } else {
                            assert(nv[a] == ov[a] && nv[c] == ov[c]);
                        }
                    }
                    assert forall|i: int| 0 <= i < refs@.len() implies (#[trigger] refs@[i])@.wf() by {
                        if i < k {
                            assert(refs@[i] == old_refs[i]);
                        }
                    }
                    assert forall|rs: Seq<ManifestRefView>| #[trigger] refs_at(b@, s as int, e as int, rs) implies (
                        refs@.len() <= rs.len() && refs_view(refs@) == rs.take(refs@.len() as int)
                        && p == s + manifest_refs_der(rs.take(refs@.len() as int)).len()
                        && at_within(b@, p as int, e as int, manifest_refs_der(rs.skip(refs@.len() as int)))) by {
                        assert(rs.take(k + 1) =~= rs.take(k).push(rs[k]));
                        lemma_refs_der_push(rs.take(k), rs[k]);
                    }
                }
            },
        }
    }
}

/// A partition stands in `b` at `pos`.
pub open spec fn partition_at(b: Seq<u8>, pos: int, end: int, pv: PartitionView) -> bool {
    pv.wf() && at_within(b, pos, end, partition_der(pv))
}

proof fn lemma_partition_split(b: Seq<u8>, pos: int, end: int, pv: PartitionView)
    requires
        partition_at(b, pos, end, pv),
    ensures
        ({
            let t = tlv(TAG_GENERALIZED_TIME, pv.partition_time.spec_generalized());
            let rd = tlv(TAG_SEQUENCE, manifest_refs_der(pv.manifest_refs));
            let c = t + sha256_alg_der() + rd;
            let s = pos + 1 + len_octets(c.len()).len();
            let e = s + c.len();
            &&& e == pos + partition_der(pv).len()
            &&& at_within(b, pos, end, tlv(TAG_SEQUENCE, c))
            &&& at_within(b, s, e, t)
            &&& at_within(b, s + t.len(), e, sha256_alg_der())
            &&& at_within(b, s + t.len() + sha256_alg_der().len(), e, rd)
            &&& s + t.len() + sha256_alg_der().len() + rd.len() == e
        }),
{
    reveal(partition_der);
    let t = tlv(TAG_GENERALIZED_TIME, pv.partition_time.spec_generalized());
    let rd = tlv(TAG_SEQUENCE, manifest_refs_der(pv.manifest_refs));
    let c = t + sha256_alg_der() + rd;
    let lo = len_octets(c.len());
    let s = pos + 1 + lo.len();
    assert(partition_der(pv) =~= (seq![TAG_SEQUENCE] + lo) + c);
    lemma_split(b, pos, end, seq![TAG_SEQUENCE] + lo, c);
    lemma_split(b, s, s + c.len(), t + sha256_alg_der(), rd);
    lemma_split(b, s, s + c.len(), t, sha256_alg_der());
}

proof fn lemma_partition_sound(b: Seq<u8>, pos: int, s: int, pos1: int, pos2: int, s3: int, e: int, pv: PartitionView)
    requires
        0 <= pos < s <= pos1 <= pos2 < s3 <= e <= b.len(),
        b.subrange(pos, e) == tlv(TAG_SEQUENCE, b.subrange(s, e)),
        b.subrange(s, pos1) == tlv(TAG_GENERALIZED_TIME, pv.partition_time.spec_generalized()),
        at_within(b, pos1, e, sha256_alg_der()),
        pos2 == pos1 + sha256_alg_der().len(),
        b.subrange(pos2, e) == tlv(TAG_SEQUENCE, b.subrange(s3, e)),
        b.subrange(s3, e) == manifest_refs_der(pv.manifest_refs),
    ensures
        b.subrange(pos, e) == partition_der(pv),
{
    reveal(partition_der);
    assert(b.subrange(s, e) =~= b.subrange(s, pos1) + b.subrange(pos1, pos2) + b.subrange(pos2, e));
}

impl ErikPartition {
    /// Reads a partition at `pos`: the partition and the position after it.
    #[verifier::rlimit(100)]
    pub fn take_from(b: &[u8], pos: usize, end: usize) -> (r: Result<(ErikPartition, usize), DecodeError>)
        requires
            pos <= end <= b@.len(),
        ensures
            r matches Ok((p, e)) ==> p@.wf() && pos < e <= end,
            r matches Ok((p, e)) ==> partition_at(b@, pos as int, end as int, p@) && e == pos + partition_der(p@).len(),
            forall|pv: PartitionView| #[trigger] partition_at(b@, pos as int, end as int, pv) ==> (r matches Ok((p, e))
                && p@ == pv && e == pos + partition_der(pv).len()),
    {
        let (s, e) = match take_tlv(b, pos, end, TAG_SEQUENCE) {
            Some(x) => x,
            None => {
                proof {
                    assert forall|pv: PartitionView| !#[trigger] partition_at(b@, pos as int, end as int, pv) by {
                        if partition_at(b@, pos as int, end as int, pv) {
                            lemma_partition_split(b@, pos as int, end as int, pv);
                        }
                    }
                }
                return Err(DecodeError::Malformed);
            },
        };
        proof {
            assert forall|pv: PartitionView| #[trigger] partition_at(b@, pos as int, end as int, pv) implies
                e == pos + partition_der(pv).len()
                && at_within(b@, s as int, e as int, tlv(TAG_GENERALIZED_TIME, pv.partition_time.spec_generalized())) by {
                lemma_partition_split(b@, pos as int, end as int, pv);
            }
        }
        let (time_c, pos1) = match take_content(b, s, e, TAG_GENERALIZED_TIME) {
            Some(x) => x,
            None => { return Err(DecodeError::Malformed); },
        };
        let partition_time = match Time::parse_generalized(time_c.as_slice()) {
            Some(t) => t,
            None => { return Err(DecodeError::InvalidTime); },
        };
        proof {
            assert forall|pv: PartitionView| #[trigger] partition_at(b@, pos as int, end as int, pv) implies
                partition_time == pv.partition_time && at_within(b@, pos1 as int, e as int, sha256_alg_der())
                && at_within(b@, pos1 + sha256_alg_der().len(), e as int, tlv(TAG_SEQUENCE, manifest_refs_der(pv.manifest_refs))) by {
                lemma_partition_split(b@, pos as int, end as int, pv);
            }
        }
        let oid = oid_bytes_sha256();
        let mut alg_inner: Vec<u8> = Vec::new();
        push_tlv(&mut alg_inner, TAG_OID, oid.as_slice());
        let pos2 = match take_fixed(b, pos1, e, TAG_SEQUENCE, alg_inner.as_slice()) {
            Some(x) => x,
            None => { return Err(DecodeError::WrongHashAlgorithm); },
        };
        let (s3, e3) = match take_tlv(b, pos2, e, TAG_SEQUENCE) {
            Some(x) => x,
            None => { return Err(DecodeError::Malformed); },
        };
        proof {
            assert forall|pv: PartitionView| #[trigger] partition_at(b@, pos as int, end as int, pv) implies
                e3 == e && refs_at(b@, s3 as int, e3 as int, pv.manifest_refs) by {
                lemma_partition_split(b@, pos as int, end as int, pv);
                lemma_content_at(b@, s3 as int, e3 as int, manifest_refs_der(pv.manifest_refs));
            }
        }
        if e3 != e {
            return Err(DecodeError::Malformed);
        }
        let manifest_refs = match take_manifest_refs(b, s3, e3) {
            Ok(v) => v,
            Err(x) => { return Err(x); },
        };
        let p = ErikPartition { partition_time, manifest_refs };
        proof {
            assert forall|i: int| 0 <= i < p@.manifest_refs.len() implies (#[trigger] p@.manifest_refs[i]).wf() by {
                assert(p@.manifest_refs[i] == manifest_refs@[i]@);
            }
            assert(alg_inner@ == tlv(TAG_OID, sha256_oid()));
            lemma_partition_sound(b@, pos as int, s as int, pos1 as int, pos2 as int, s3 as int, e as int, p@);
        }
        Ok((p, e))
    }

    /// Decodes a partition that makes up all of `b`: it succeeds exactly on
    /// the canonical encodings of well-formed partitions, references strictly
    /// ascending by digest, so that encoding the result reproduces `b`.
    pub fn decode(b: &[u8]) -> (r: Result<ErikPartition, DecodeError>)
        ensures
            r matches Ok(p) ==> p@.wf() && partition_der(p@) == b@,
            forall|pv: PartitionView| pv.wf() && #[trigger] partition_der(pv) == b@ ==> (r matches Ok(p) && p@ == pv
                && partition_der(p@) == b@),
            r is Ok <==> exists|pv: PartitionView| pv.wf() && #[trigger] partition_der(pv) == b@,
    {
        proof {
            assert forall|pv: PartitionView| pv.wf() && #[trigger] partition_der(pv) == b@ implies partition_at(b@, 0, b@.len() as int, pv) by {
                assert(b@.subrange(0, b@.len() as int) =~= b@);
            }
        }
        match ErikPartition::take_from(b, 0, b.len()) {
            Ok((p, e)) => {
                if e != b.len() {
                    return Err(DecodeError::Malformed);
                }
                proof {
                    assert(b@.subrange(0, e as int) =~= b@);
                }
                Ok(p)
            },
            Err(x) => Err(x),
        }
    }
}

/// In the encoding of a well-formed partition the references stand one
/// after the other, each encoded whole at its place in the partition's
/// sequence, and that sequence is strictly ascending by digest.
pub proof fn lemma_encoded_refs_ascending(p: PartitionView, i: int, j: int)
    requires
        p.wf(),
        0 <= i < j < p.manifest_refs.len(),
    ensures
        partition_der(p) == partition_der_of(p.partition_time, manifest_refs_der(p.manifest_refs)),
        manifest_refs_der(p.manifest_refs) == manifest_refs_der(p.manifest_refs.take(i)) + manifest_ref_der(
            p.manifest_refs[i],
        ) + manifest_refs_der(p.manifest_refs.skip(i + 1)),
        lex_less(p.manifest_refs[i].hash, p.manifest_refs[j].hash),
{
    reveal(partition_der);
    let s = p.manifest_refs;
    lemma_refs_der_split(s, i);
    let rest = s.skip(i);
    assert(rest[0] == s[i]);
    assert(rest.drop_first() =~= s.skip(i + 1));
    assert(manifest_refs_der(rest) == manifest_ref_der(s[i]) + manifest_refs_der(s.skip(i + 1)));
    let a = manifest_refs_der(s.take(i));
    let b = manifest_ref_der(s[i]);
    let c = manifest_refs_der(s.skip(i + 1));
    assert(a + (b + c) =~= (a + b) + c);
}

} // verus!
