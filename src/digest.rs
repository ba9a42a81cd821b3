//! SHA-256 digests, which name every published object and partition.
use vstd::prelude::*;

verus! {

/// The SHA-256 digest of some octets.
pub uninterp spec fn sha256_of(data: Seq<u8>) -> Seq<u8>;

/// Relies on `rpki::rrdp::Hash::from_data`: the SHA-256 digest of the data,
/// 32 octets long, which depends on the data alone.
#[verifier::external_body]
pub(crate) fn sha256(data: &[u8]) -> (r: Vec<u8>)
    ensures
        r@ == sha256_of(data@),
        r@.len() == 32,
{
    rpki::rrdp::Hash::from_data(data).as_slice().to_vec()
}

} // verus!
