//! The decisions of the HTTP surface: which response a request for an
//! object by its Named Information URI, or for the index, receives.
use vstd::prelude::*;

use crate::bytes_util::{bytes_eq, copy_bytes};
use crate::digest::sha256_of;
use crate::store::ObjectStore;
use base64::Engine;

verus! {

/// What a base64url string without padding decodes to, if anything.
pub uninterp spec fn base64url_decode_of(s: Seq<u8>) -> Option<Seq<u8>>;

/// Relies on `base64::engine::general_purpose::URL_SAFE_NO_PAD.decode`:
/// the octets that an unpadded URL-safe base64 string stands for; the result
/// depends on the string alone.
#[verifier::external_body]
fn base64url_decode(s: &[u8]) -> (r: Option<Vec<u8>>)
    ensures
        opt_bytes(r) == base64url_decode_of(s@),
{
    base64::engine::general_purpose::URL_SAFE_NO_PAD.decode(s).ok()
}

/// Optional octets as plain values.
pub open spec fn opt_bytes(o: Option<Vec<u8>>) -> Option<Seq<u8>> {
    match o {
        Some(v) => Some(v@),
        None => None,
    }
}

/// The response to a request.
#[derive(Clone, Debug)]
pub enum NiResponse {
    /// 200, with the DER octets of the object.
    Found(Vec<u8>),
    /// 400: the algorithm is not `sha-256`.
    UnsupportedAlgorithm,
    /// 400: the value is not the unpadded base64url form of 32 octets.
    BadHash,
    /// 404: no object has this digest.
    NotFound,
}

/// The media type of every object served.
pub open spec fn der_media_type() -> Seq<u8> {
    seq![97u8, 112, 112, 108, 105, 99, 97, 116, 105, 111, 110, 47, 111, 99, 116, 101, 116, 45, 115, 116, 114, 101, 97, 109, 43, 100, 101, 114]
}

/// `sha-256`, the one algorithm name accepted.
pub open spec fn sha256_name() -> Seq<u8> {
    seq![115u8, 104, 97, 45, 50, 53, 54]
}

/// The response to `GET /.well-known/ni/{alg}/{val}`, given the store. The
/// octets served under a digest always hash to it.
pub fn named_information(store: &ObjectStore, alg: &[u8], val: &[u8]) -> (r: NiResponse)
    requires
        store.wf(),
    ensures
        alg@ != sha256_name() ==> r is UnsupportedAlgorithm,
        alg@ == sha256_name() ==> match base64url_decode_of(val@) {
            Some(d) => {
                &&& d.len() != 32 ==> r is BadHash
                &&& (d.len() == 32 && !store.contains(d)) ==> r is NotFound
                &&& (d.len() == 32 && store.contains(d)) ==> (r matches NiResponse::Found(body)
                    && sha256_of(body@) == d && exists|i: int| 0 <= i < store.digests().len()
                        && store.digests()[i] == d && #[trigger] store.objects()[i].1 == body@)
            },
            None => r is BadHash,
        },
{
    let name: Vec<u8> = vec![115u8, 104, 97, 45, 50, 53, 54];
    assert(name@ =~= sha256_name());
    if !bytes_eq(alg, name.as_slice()) {
        return NiResponse::UnsupportedAlgorithm;
    }
    let digest = match base64url_decode(val) {
        Some(d) => d,
        None => { return NiResponse::BadHash; },
    };
    if digest.len() != 32 {
        return NiResponse::BadHash;
    }
    match store.get(digest.as_slice()) {
        Some(e) => NiResponse::Found(copy_bytes(e.data.as_slice())),
        None => NiResponse::NotFound,
    }
}

/// The response to `GET /.well-known/erik/index/{fqdn}`: the encoded index
/// where its scope is the requested name, else nothing (404).
pub fn index_response(scope: &[u8], index_der: &[u8], fqdn: &[u8]) -> (r: Option<Vec<u8>>)
    ensures
        r is Some <==> scope@ == fqdn@,
        r matches Some(b) ==> b@ == index_der@,
{
    if bytes_eq(scope, fqdn) {
        Some(copy_bytes(index_der))
    } else {
        None
    }
}

/// The media type of served objects, `application/octet-stream+der`.
pub fn der_content_type() -> (r: Vec<u8>)
    ensures
        r@ == der_media_type(),
{
    let r: Vec<u8> = vec![97u8, 112, 112, 108, 105, 99, 97, 116, 105, 111, 110, 47, 111, 99, 116, 101, 116, 45, 115, 116, 114, 101, 97, 109, 43, 100, 101, 114];
    assert(r@ =~= der_media_type());
    r
}

} // verus!
