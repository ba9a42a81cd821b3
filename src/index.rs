//! The Erik index object: the scope, the index time, and a reference to each
//! partition by digest and size.
use vstd::prelude::*;

use crate::bytes_util::append_bytes;
use crate::der::{
    at_within, lemma_content_at, lemma_split, lemma_tlv_longer, len_octets, push_tlv, read_uint, take_content, take_tlv, tlv,
    uint_bytes, uint_content, TAG_CTX_0_CONSTRUCTED, TAG_GENERALIZED_TIME, TAG_IA5_STRING, TAG_INTEGER,
    TAG_OCTET_STRING, TAG_OID, TAG_SEQUENCE,
};
use crate::digest::{sha256, sha256_of};
use crate::erik::{check_ia5, erik_index_oid, is_ia5, oid_bytes_erik_index, oid_bytes_sha256, sha256_oid, take_fixed, DecodeError};
use crate::time::Time;

verus! {

/// A partition reference as plain values.
pub struct PartitionRefView {
    pub hash: Seq<u8>,
    pub size: u32,
}

impl PartitionRefView {
    /// A digest of 32 octets.
    pub open spec fn wf(self) -> bool {
        self.hash.len() == 32
    }
}

/// The optional leading INTEGER of a partition reference, which earlier
/// drafts carried as an identifier.
pub open spec fn identifier_der(id: Option<Seq<u8>>) -> Seq<u8> {
    match id {
        Some(c) => tlv(TAG_INTEGER, c),
        None => Seq::empty(),
    }
}

/// The DER encoding of a partition reference, with or without an identifier.
pub open spec fn partition_ref_der_with(r: PartitionRefView, id: Option<Seq<u8>>) -> Seq<u8> {
    tlv(TAG_SEQUENCE, identifier_der(id) + tlv(TAG_OCTET_STRING, r.hash) + tlv(TAG_INTEGER, uint_content(r.size as nat)))
}

/// The DER encoding of a partition reference.
pub open spec fn partition_ref_der(r: PartitionRefView) -> Seq<u8> {
    partition_ref_der_with(r, None)
}

/// The encodings of partition references one after the other, each with the
/// identifier at the same place in `ids`.
pub open spec fn partition_refs_der(rs: Seq<PartitionRefView>, ids: Seq<Option<Seq<u8>>>) -> Seq<u8>
    decreases rs.len(),
{
    if rs.len() == 0 {
        Seq::empty()
    } else {
        partition_ref_der_with(rs[0], ids[0]) + partition_refs_der(rs.drop_first(), ids.drop_first())
    }
}

/// No identifiers for `n` references.
pub open spec fn no_ids(n: nat) -> Seq<Option<Seq<u8>>> {
    Seq::new(n, |i: int| None)
}

/// An Erik index as plain values.
pub struct IndexView {
    pub index_scope: Seq<u8>,
    pub index_time: Time,
    pub partitions: Seq<PartitionRefView>,
}

impl IndexView {
    /// An IA5 scope, a valid time and valid partition references.
    pub open spec fn wf(self) -> bool {
        &&& is_ia5(self.index_scope)
        &&& self.index_time.wf()
        &&& forall|i: int| 0 <= i < self.partitions.len() ==> (#[trigger] self.partitions[i]).wf()
    }
}

/// The inner SEQUENCE of an index, which the octet string carries.
pub open spec fn index_inner_der(iv: IndexView, ids: Seq<Option<Seq<u8>>>) -> Seq<u8> {
    tlv(
        TAG_SEQUENCE,
        tlv(TAG_IA5_STRING, iv.index_scope) + tlv(TAG_GENERALIZED_TIME, iv.index_time.spec_generalized()) + tlv(
            TAG_OID,
            sha256_oid(),
        ) + tlv(TAG_SEQUENCE, partition_refs_der(iv.partitions, ids)),
    )
}

/// The DER encoding of an index whose partition references carry the
/// identifiers `ids`.
#[verifier::opaque]
pub open spec fn index_der_with(iv: IndexView, ids: Seq<Option<Seq<u8>>>) -> Seq<u8> {
    tlv(
        TAG_SEQUENCE,
        tlv(TAG_OID, erik_index_oid()) + tlv(TAG_CTX_0_CONSTRUCTED, tlv(TAG_OCTET_STRING, index_inner_der(iv, ids))),
    )
}

/// The canonical DER encoding of an index: no identifiers.
pub open spec fn index_der(iv: IndexView) -> Seq<u8> {
    index_der_with(iv, no_ids(iv.partitions.len()))
}

/// A reference to an encoded partition: its digest and size.
#[derive(Clone, Debug)]
pub struct ErikPartitionRef {
    pub hash: Vec<u8>,
    pub size: u32,
}

impl View for ErikPartitionRef {
    type V = PartitionRefView;

    open spec fn view(&self) -> PartitionRefView {
        PartitionRefView { hash: self.hash@, size: self.size }
    }
}

/// The partition references as plain values.
pub open spec fn prefs_view(s: Seq<ErikPartitionRef>) -> Seq<PartitionRefView> {
    s.map_values(|r: ErikPartitionRef| r@)
}

impl ErikPartitionRef {
    /// The reference to a partition encoded as `partition_bytes`.
    pub fn new(partition_bytes: &[u8]) -> (r: ErikPartitionRef)
        requires
            partition_bytes@.len() <= u32::MAX,
        ensures
            r@.hash == sha256_of(partition_bytes@),
            r@.size == partition_bytes@.len(),
            r@.wf(),
    {
        let hash = sha256(partition_bytes);
        ErikPartitionRef { hash, size: partition_bytes.len() as u32 }
    }

    /// The DER encoding of this reference.
    pub fn encode(&self) -> (r: Vec<u8>)
        ensures
            r@ == partition_ref_der(self@),
    {
        let mut c: Vec<u8> = Vec::new();
        push_tlv(&mut c, TAG_OCTET_STRING, self.hash.as_slice());
        let size = uint_bytes(self.size);
        push_tlv(&mut c, TAG_INTEGER, size.as_slice());
        let mut out: Vec<u8> = Vec::new();
        push_tlv(&mut out, TAG_SEQUENCE, c.as_slice());
        assert(c@ =~= identifier_der(None) + tlv(TAG_OCTET_STRING, self.hash@) + tlv(TAG_INTEGER, uint_content(self.size as nat)));
        out
    }

    /// Reads a partition reference at `pos` if a SEQUENCE starts there. A
    /// leading INTEGER identifier is accepted and dropped.
    pub fn take_opt_from(b: &[u8], pos: usize, end: usize) -> (r: Result<Option<(ErikPartitionRef, usize)>, DecodeError>)
        requires
            pos <= end <= b@.len(),
        ensures
            r matches Ok(Some((x, e))) ==> x@.wf() && pos < e <= end,
            r matches Ok(Some((x, e))) ==> is_pref_der(b@.subrange(pos as int, e as int), x@),
            pos == end ==> r matches Ok(None),
            forall|rv: PartitionRefView, id: Option<Seq<u8>>| rv.wf() && #[trigger] at_within(b@, pos as int, end as int, partition_ref_der_with(rv, id))
                ==> (r matches Ok(Some((x, e))) && x@ == rv && e == pos + partition_ref_der_with(rv, id).len()),
    {
        proof {
            assert forall|rv: PartitionRefView, id: Option<Seq<u8>>| #[trigger] at_within(b@, pos as int, end as int, partition_ref_der_with(rv, id))
                implies pos < end && b@[pos as int] == TAG_SEQUENCE by {
                let w = partition_ref_der_with(rv, id);
                assert(b@.subrange(pos as int, pos + w.len())[0] == b@[pos as int]);
            }
        }
        if pos >= end || b[pos] != TAG_SEQUENCE {
            return Ok(None);
        }
        let (s, e) = match take_tlv(b, pos, end, TAG_SEQUENCE) {
            Some(x) => x,
            None => { return Err(DecodeError::Malformed); },
        };
        proof {
            assert forall|rv: PartitionRefView, id: Option<Seq<u8>>| #[trigger] at_within(b@, pos as int, end as int, partition_ref_der_with(rv, id))
                implies e == pos + partition_ref_der_with(rv, id).len() && at_within(b@, s as int, e as int, pref_body(rv, id))
                && s + pref_body(rv, id).len() == e by {
                let c = pref_body(rv, id);
                assert(partition_ref_der_with(rv, id) == tlv(TAG_SEQUENCE, c));
                lemma_content_at(b@, s as int, e as int, c);
            }
        }
        match take_pref_body(b, s, e) {
            Ok(x) => {
                proof {
                    assert(is_pref_body(b@.subrange(s as int, e as int), x@));
                    let id = choose|id: Option<Seq<u8>>| b@.subrange(s as int, e as int) == #[trigger] pref_body(x@, id);
                    assert(b@.subrange(pos as int, e as int) == partition_ref_der_with(x@, id));
                    assert(is_pref_der(b@.subrange(pos as int, e as int), x@));
                }
                Ok(Some((x, e)))
            },
            Err(err) => Err(err),
        }
    }
}

/// The content of a partition reference's SEQUENCE.
pub open spec fn pref_body(r: PartitionRefView, id: Option<Seq<u8>>) -> Seq<u8> {
    identifier_der(id) + tlv(TAG_OCTET_STRING, r.hash) + tlv(TAG_INTEGER, uint_content(r.size as nat))
}

/// `c` is the encoding of a partition reference, with or without an
/// identifier.
pub open spec fn is_pref_der(c: Seq<u8>, r: PartitionRefView) -> bool {
    exists|id: Option<Seq<u8>>| c == #[trigger] partition_ref_der_with(r, id)
}

/// `c` is the content of a partition reference's SEQUENCE, with or without
/// an identifier.
pub open spec fn is_pref_body(c: Seq<u8>, r: PartitionRefView) -> bool {
    exists|id: Option<Seq<u8>>| c == #[trigger] pref_body(r, id)
}

/// Reads the content of a partition reference, which fills `b` from `s` to
/// `e`.
#[verifier::rlimit(60)]
fn take_pref_body(b: &[u8], s: usize, e: usize) -> (r: Result<ErikPartitionRef, DecodeError>)
    requires
        s <= e <= b@.len(),
    ensures
        r matches Ok(x) ==> x@.wf(),
        r matches Ok(x) ==> is_pref_body(b@.subrange(s as int, e as int), x@),
        forall|rv: PartitionRefView, id: Option<Seq<u8>>| rv.wf() && #[trigger] at_within(b@, s as int, e as int, pref_body(rv, id))
            && s + pref_body(rv, id).len() == e ==> (r matches Ok(x) && x@ == rv),
{
    proof {
        assert forall|rv: PartitionRefView, id: Option<Seq<u8>>| #[trigger] at_within(b@, s as int, e as int, pref_body(rv, id))
            && s + pref_body(rv, id).len() == e implies at_within(b@, s as int, e as int, identifier_der(id))
            && at_within(b@, s + identifier_der(id).len(), e as int, tlv(TAG_OCTET_STRING, rv.hash))
            && at_within(b@, s + identifier_der(id).len() + tlv(TAG_OCTET_STRING, rv.hash).len(), e as int, tlv(TAG_INTEGER, uint_content(rv.size as nat)))
            && s + identifier_der(id).len() + tlv(TAG_OCTET_STRING, rv.hash).len() + tlv(TAG_INTEGER, uint_content(rv.size as nat)).len() == e by {
            let x = identifier_der(id);
            let y = tlv(TAG_OCTET_STRING, rv.hash);
            let z = tlv(TAG_INTEGER, uint_content(rv.size as nat));
            lemma_split(b@, s as int, e as int, x + y, z);
            lemma_split(b@, s as int, e as int, x, y);
        }
    }
    let mut p = s;
    let ghost mut id: Option<Seq<u8>> = None;
    if p < e && b[p] == TAG_INTEGER {
        match take_tlv(b, p, e, TAG_INTEGER) {
            Some((s1, np)) => {
                proof {
                    id = Some(b@.subrange(s1 as int, np as int));
                }
                p = np;
            },
            None => {
                proof {
                    assert forall|rv: PartitionRefView, i: Option<Seq<u8>>| !(#[trigger] at_within(b@, s as int, e as int, pref_body(rv, i))
                        && s + pref_body(rv, i).len() == e) by {
                        if at_within(b@, s as int, e as int, pref_body(rv, i)) && s + pref_body(rv, i).len() == e {
                            match i {
                                Some(c) => {
                                    assert(at_within(b@, s as int, e as int, tlv(TAG_INTEGER, c)));
                                },
                                None => {
                                    let y = tlv(TAG_OCTET_STRING, rv.hash);
                                    assert(b@.subrange(s as int, s + y.len())[0] == b@[s as int]);
                                },
                            }
                        }
                    }
                }
                return Err(DecodeError::Malformed);
            },
        }
    }
    proof {
        assert forall|rv: PartitionRefView, i: Option<Seq<u8>>| #[trigger] at_within(b@, s as int, e as int, pref_body(rv, i))
            && s + pref_body(rv, i).len() == e implies p == s + identifier_der(i).len() by {
            match i {
                Some(c) => {
                    assert(b@.subrange(s as int, s + tlv(TAG_INTEGER, c).len())[0] == b@[s as int]);
                },
                None => {
                    let y = tlv(TAG_OCTET_STRING, rv.hash);
                    assert(b@.subrange(s as int, s + y.len())[0] == b@[s as int]);
                },
            }
        }
    }
    let (hash, pos1) = match take_content(b, p, e, TAG_OCTET_STRING) {
        Some(x) => x,
        None => { return Err(DecodeError::Malformed); },
    };
    if hash.len() != 32 {
        return Err(DecodeError::InvalidHash);
    }
    let (size_c, pos2) = match take_content(b, pos1, e, TAG_INTEGER) {
        Some(x) => x,
        None => { return Err(DecodeError::Malformed); },
    };
    let size = match read_uint(size_c.as_slice()) {
        Some(n) => n,
        None => { return Err(DecodeError::InvalidSize); },
    };
    if pos2 != e {
        return Err(DecodeError::Malformed);
    }
    let x = ErikPartitionRef { hash, size };
    proof {
        assert(b@.subrange(s as int, p as int) == identifier_der(id)) by {
            if id is None {
                assert(b@.subrange(s as int, p as int) =~= Seq::<u8>::empty());
            }
        }
        assert(b@.subrange(p as int, pos1 as int) == tlv(TAG_OCTET_STRING, x@.hash));
        assert(b@.subrange(pos1 as int, e as int) == tlv(TAG_INTEGER, uint_content(x@.size as nat)));
        assert(b@.subrange(s as int, e as int) =~= b@.subrange(s as int, p as int) + b@.subrange(p as int, pos1 as int)
            + b@.subrange(pos1 as int, e as int));
        assert(b@.subrange(s as int, e as int) == pref_body(x@, id));
        assert(is_pref_body(b@.subrange(s as int, e as int), x@));
    }
    Ok(x)
}

/// `c` is the encoding of the references `rs` one after the other, each
/// with or without an identifier.
pub open spec fn is_prefs_der(c: Seq<u8>, rs: Seq<PartitionRefView>) -> bool {
    exists|ids: Seq<Option<Seq<u8>>>| ids.len() == rs.len() && c == #[trigger] partition_refs_der(rs, ids)
}

/// The encodings of `rs`, with identifiers `ids`, fill `b` from `s` to `e`.
pub open spec fn prefs_at(b: Seq<u8>, s: int, e: int, rs: Seq<PartitionRefView>, ids: Seq<Option<Seq<u8>>>) -> bool {
    &&& ids.len() == rs.len()
    &&& forall|i: int| 0 <= i < rs.len() ==> (#[trigger] rs[i]).wf()
    &&& at_within(b, s, e, partition_refs_der(rs, ids))
    &&& s + partition_refs_der(rs, ids).len() == e
}

fn take_partition_refs(b: &[u8], s: usize, e: usize) -> (r: Result<Vec<ErikPartitionRef>, DecodeError>)
    requires
        s <= e <= b@.len(),
    ensures
        r matches Ok(v) ==> forall|i: int| 0 <= i < v@.len() ==> (#[trigger] v@[i])@.wf(),
        r matches Ok(v) ==> is_prefs_der(b@.subrange(s as int, e as int), prefs_view(v@)),
        forall|rs: Seq<PartitionRefView>, ids: Seq<Option<Seq<u8>>>| #[trigger] prefs_at(b@, s as int, e as int, rs, ids)
            ==> (r matches Ok(v) && prefs_view(v@) == rs),
{
    let mut refs: Vec<ErikPartitionRef> = Vec::new();
    let mut p: usize = s;
    proof {
        assert forall|rs: Seq<PartitionRefView>, ids: Seq<Option<Seq<u8>>>| #[trigger] prefs_at(b@, s as int, e as int, rs, ids)
            implies prefs_view(refs@) == rs.take(0) && rs.skip(0) == rs && ids.skip(0) == ids by {
            assert(rs.take(0) =~= Seq::<PartitionRefView>::empty());
            assert(prefs_view(refs@) =~= Seq::<PartitionRefView>::empty());
            assert(rs.skip(0) =~= rs);
            assert(ids.skip(0) =~= ids);
        }
    }
    proof {
        let none: Seq<Option<Seq<u8>>> = Seq::empty();
        assert(b@.subrange(s as int, s as int) =~= partition_refs_der(prefs_view(refs@), none));
        assert(prefs_view(refs@) =~= Seq::<PartitionRefView>::empty());
    }
    loop
        invariant
            s <= p <= e <= b@.len(),
            is_prefs_der(b@.subrange(s as int, p as int), prefs_view(refs@)),
            forall|i: int| 0 <= i < refs@.len() ==> (#[trigger] refs@[i])@.wf(),
            forall|rs: Seq<PartitionRefView>, ids: Seq<Option<Seq<u8>>>| #[trigger] prefs_at(b@, s as int, e as int, rs, ids) ==> (
                refs@.len() <= rs.len() && prefs_view(refs@) == rs.take(refs@.len() as int)
                && at_within(b@, p as int, e as int, partition_refs_der(rs.skip(refs@.len() as int), ids.skip(refs@.len() as int)))
                && p + partition_refs_der(rs.skip(refs@.len() as int), ids.skip(refs@.len() as int)).len() == e),
        decreases e - p,
    {
        let ghost k = refs@.len() as int;
        proof {
            assert forall|rs: Seq<PartitionRefView>, ids: Seq<Option<Seq<u8>>>| #[trigger] prefs_at(b@, s as int, e as int, rs, ids) && k < rs.len()
                implies at_within(b@, p as int, e as int, partition_ref_der_with(rs[k], ids[k])) && rs[k].wf()
                && at_within(b@, p + partition_ref_der_with(rs[k], ids[k]).len(), e as int, partition_refs_der(rs.skip(k + 1), ids.skip(k + 1)))
                && p + partition_ref_der_with(rs[k], ids[k]).len() + partition_refs_der(rs.skip(k + 1), ids.skip(k + 1)).len() == e by {
                assert(rs.skip(k)[0] == rs[k]);
                assert(ids.skip(k)[0] == ids[k]);
                assert(rs.skip(k).drop_first() =~= rs.skip(k + 1));
                assert(ids.skip(k).drop_first() =~= ids.skip(k + 1));
                lemma_split(b@, p as int, e as int, partition_ref_der_with(rs[k], ids[k]), partition_refs_der(rs.skip(k + 1), ids.skip(k + 1)));
            }
        }
        match ErikPartitionRef::take_opt_from(b, p, e) {
            Err(x) => {
                return Err(x);
            },
            Ok(None) => {
                proof {
                    assert forall|rs: Seq<PartitionRefView>, ids: Seq<Option<Seq<u8>>>| #[trigger] prefs_at(b@, s as int, e as int, rs, ids)
                        implies p == e && prefs_view(refs@) == rs by {
                        if k < rs.len() {
                            assert(at_within(b@, p as int, e as int, partition_ref_der_with(rs[k], ids[k])));
                        }
                        assert(rs.take(k) =~= rs);
                        assert(rs.skip(k) =~= Seq::<PartitionRefView>::empty());
                    }
                }
                if p != e {
                    return Err(DecodeError::Malformed);
                }
                return Ok(refs);
            },
            Ok(Some((x, np))) => {
                let ghost xv = x@;
                let ghost old_refs = refs@;
                proof {
                    assert forall|rs: Seq<PartitionRefView>, ids: Seq<Option<Seq<u8>>>| #[trigger] prefs_at(b@, s as int, e as int, rs, ids)
                        implies k < rs.len() && xv == rs[k] && np == p + partition_ref_der_with(rs[k], ids[k]).len() by {
                        if k == rs.len() {
                            assert(rs.skip(k) =~= Seq::<PartitionRefView>::empty());
                        }
                        assert(at_within(b@, p as int, e as int, partition_ref_der_with(rs[k], ids[k])));
                    }
                }
                let ghost old_p = p;
                refs.push(x);
                p = np;
                proof {
                    let ids = choose|ids: Seq<Option<Seq<u8>>>| ids.len() == prefs_view(old_refs).len()
                        && b@.subrange(s as int, old_p as int) == #[trigger] partition_refs_der(prefs_view(old_refs), ids);
                    let id = choose|id: Option<Seq<u8>>| b@.subrange(old_p as int, np as int) == #[trigger] partition_ref_der_with(xv, id);
                    lemma_prefs_der_push(prefs_view(old_refs), ids, xv, id);
                    assert(prefs_view(refs@) =~= prefs_view(old_refs).push(xv));
                    assert(b@.subrange(s as int, np as int) =~= b@.subrange(s as int, old_p as int) + b@.subrange(old_p as int, np as int));
                    assert(b@.subrange(s as int, p as int) == partition_refs_der(prefs_view(refs@), ids.push(id)));
                    assert(is_prefs_der(b@.subrange(s as int, p as int), prefs_view(refs@)));
                    assert forall|rs: Seq<PartitionRefView>, ids: Seq<Option<Seq<u8>>>| #[trigger] prefs_at(b@, s as int, e as int, rs, ids) implies (
                        refs@.len() <= rs.len() && prefs_view(refs@) == rs.take(refs@.len() as int)
                        && at_within(b@, p as int, e as int, partition_refs_der(rs.skip(refs@.len() as int), ids.skip(refs@.len() as int)))
                        && p + partition_refs_der(rs.skip(refs@.len() as int), ids.skip(refs@.len() as int)).len() == e) by {
                        assert(rs.take(k + 1) =~= rs.take(k).push(rs[k]));
                        assert(prefs_view(refs@) =~= prefs_view(old_refs).push(xv));
                    }
                }
            },
        }
    }
}

/// The Erik index as it goes on the wire: the scope, the index time, and
/// the references to its partitions.
#[derive(Clone, Debug)]
pub struct ErikIndex {
    pub index_scope: Vec<u8>,
    pub index_time: Time,
    pub partitions: Vec<ErikPartitionRef>,
}

impl View for ErikIndex {
    type V = IndexView;

    open spec fn view(&self) -> IndexView {
        IndexView { index_scope: self.index_scope@, index_time: self.index_time, partitions: prefs_view(self.partitions@) }
    }
}

proof fn lemma_prefs_der_push(rs: Seq<PartitionRefView>, ids: Seq<Option<Seq<u8>>>, x: PartitionRefView, id: Option<Seq<u8>>)
    requires
        ids.len() == rs.len(),
    ensures
        partition_refs_der(rs.push(x), ids.push(id)) == partition_refs_der(rs, ids) + partition_ref_der_with(x, id),
    decreases rs.len(),
{
    if rs.len() == 0 {
        assert(rs.push(x).drop_first() =~= Seq::<PartitionRefView>::empty());
        assert(rs.push(x)[0] == x);
        assert(ids.push(id)[0] == id);
        assert(partition_refs_der(rs.push(x).drop_first(), ids.push(id).drop_first()) == Seq::<u8>::empty());
        assert(partition_refs_der(rs.push(x), ids.push(id)) =~= partition_refs_der(rs, ids) + partition_ref_der_with(x, id));
    } else {
        assert(rs.push(x).drop_first() =~= rs.drop_first().push(x));
        assert(ids.push(id).drop_first() =~= ids.drop_first().push(id));
        lemma_prefs_der_push(rs.drop_first(), ids.drop_first(), x, id);
        let a = partition_ref_der_with(rs[0], ids[0]);
        let b = partition_refs_der(rs.drop_first(), ids.drop_first());
        let c = partition_ref_der_with(x, id);
        assert(rs.push(x)[0] == rs[0]);
        assert(ids.push(id)[0] == ids[0]);
        assert(partition_refs_der(rs.push(x), ids.push(id)) == a + (b + c));
        assert(a + (b + c) =~= (a + b) + c);
    }
}

fn encode_partition_refs(v: &Vec<ErikPartitionRef>) -> (r: Vec<u8>)
    ensures
        r@ == partition_refs_der(prefs_view(v@), no_ids(v@.len())),
{
    let ghost rs = prefs_view(v@);
    let mut out: Vec<u8> = Vec::new();
    let mut i: usize = 0;
    proof {
        assert(partition_refs_der(rs.take(0), no_ids(0)) == Seq::<u8>::empty());
    }
    while i < v.len()
        invariant
            i <= v@.len(),
            rs == prefs_view(v@),
            out@ == partition_refs_der(rs.take(i as int), no_ids(i as nat)),
        decreases v@.len() - i,
    {
        let enc = v[i].encode();
        append_bytes(&mut out, enc.as_slice());
        proof {
            assert(rs.take(i + 1) =~= rs.take(i as int).push(rs[i as int]));
            assert(no_ids((i + 1) as nat) =~= no_ids(i as nat).push(None));
            lemma_prefs_der_push(rs.take(i as int), no_ids(i as nat), rs[i as int], None);
        }
        i = i + 1;
    }
    assert(rs.take(v@.len() as int) =~= rs);
    out
}

/// `c` is the inner SEQUENCE of the index `iv`, its partition references
/// each with or without an identifier.
pub open spec fn is_inner_der(c: Seq<u8>, iv: IndexView) -> bool {
    exists|ids: Seq<Option<Seq<u8>>>| ids.len() == iv.partitions.len() && c == #[trigger] index_inner_der(iv, ids)
}

/// `c` is an encoding of the index `iv`, its partition references each with
/// or without an identifier.
pub open spec fn is_index_der(c: Seq<u8>, iv: IndexView) -> bool {
    exists|ids: Seq<Option<Seq<u8>>>| ids.len() == iv.partitions.len() && c == #[trigger] index_der_with(iv, ids)
}

/// The index stands in `b` at `pos`, its partition references carrying the
/// identifiers `ids`.
pub open spec fn index_at(b: Seq<u8>, pos: int, end: int, iv: IndexView, ids: Seq<Option<Seq<u8>>>) -> bool {
    iv.wf() && ids.len() == iv.partitions.len() && at_within(b, pos, end, index_der_with(iv, ids))
}

proof fn lemma_index_split(b: Seq<u8>, pos: int, end: int, iv: IndexView, ids: Seq<Option<Seq<u8>>>)
    requires
        index_at(b, pos, end, iv, ids),
    ensures
        ({
            let o = tlv(TAG_OID, erik_index_oid());
            let inner = index_inner_der(iv, ids);
            let os = tlv(TAG_OCTET_STRING, inner);
            let wrapped = tlv(TAG_CTX_0_CONSTRUCTED, os);
            let c = o + wrapped;
            let s = pos + 1 + len_octets(c.len()).len();
            let e = s + c.len();
            let sc = tlv(TAG_IA5_STRING, iv.index_scope);
            let t = tlv(TAG_GENERALIZED_TIME, iv.index_time.spec_generalized());
            let alg = tlv(TAG_OID, sha256_oid());
            let rd = tlv(TAG_SEQUENCE, partition_refs_der(iv.partitions, ids));
            &&& e == pos + index_der_with(iv, ids).len()
            &&& at_within(b, pos, end, tlv(TAG_SEQUENCE, c))
            &&& at_within(b, s, e, o)
            &&& at_within(b, s + o.len(), e, wrapped)
            &&& s + o.len() + wrapped.len() == e
            &&& inner == tlv(TAG_SEQUENCE, sc + t + alg + rd)
            &&& os.len() + 1 + len_octets(os.len()).len() == wrapped.len()
            &&& inner.len() + 1 + len_octets(inner.len()).len() == os.len()
        }),
{
    reveal(index_der_with);
    let o = tlv(TAG_OID, erik_index_oid());
    let inner = index_inner_der(iv, ids);
    let os = tlv(TAG_OCTET_STRING, inner);
    let wrapped = tlv(TAG_CTX_0_CONSTRUCTED, os);
    let c = o + wrapped;
    let lo = len_octets(c.len());
    let s = pos + 1 + lo.len();
    assert(index_der_with(iv, ids) =~= (seq![TAG_SEQUENCE] + lo) + c);
    lemma_split(b, pos, end, seq![TAG_SEQUENCE] + lo, c);
    lemma_split(b, s, s + c.len(), o, wrapped);
}

proof fn lemma_inner_split(b: Seq<u8>, p: int, e: int, iv: IndexView, ids: Seq<Option<Seq<u8>>>)
    requires
        at_within(b, p, e, index_inner_der(iv, ids)),
        p + index_inner_der(iv, ids).len() == e,
    ensures
        ({
            let sc = tlv(TAG_IA5_STRING, iv.index_scope);
            let t = tlv(TAG_GENERALIZED_TIME, iv.index_time.spec_generalized());
            let alg = tlv(TAG_OID, sha256_oid());
            let rd = tlv(TAG_SEQUENCE, partition_refs_der(iv.partitions, ids));
            let c = sc + t + alg + rd;
            let s = p + 1 + len_octets(c.len()).len();
            &&& at_within(b, p, e, tlv(TAG_SEQUENCE, c))
            &&& s + c.len() == e
            &&& at_within(b, s, e, sc)
            &&& at_within(b, s + sc.len(), e, t)
            &&& at_within(b, s + sc.len() + t.len(), e, alg)
            &&& at_within(b, s + sc.len() + t.len() + alg.len(), e, rd)
            &&& s + sc.len() + t.len() + alg.len() + rd.len() == e
        }),
{
    let sc = tlv(TAG_IA5_STRING, iv.index_scope);
    let t = tlv(TAG_GENERALIZED_TIME, iv.index_time.spec_generalized());
    let alg = tlv(TAG_OID, sha256_oid());
    let rd = tlv(TAG_SEQUENCE, partition_refs_der(iv.partitions, ids));
    let c = sc + t + alg + rd;
    let lo = len_octets(c.len());
    let s = p + 1 + lo.len();
    assert(index_inner_der(iv, ids) =~= (seq![TAG_SEQUENCE] + lo) + c);
    lemma_split(b, p, e, seq![TAG_SEQUENCE] + lo, c);
    lemma_split(b, s, e, sc + t + alg, rd);
    lemma_split(b, s, e, sc + t, alg);
    lemma_split(b, s, e, sc, t);
}

/// Reads `[0] { OCTET STRING }` filling `b` from `p` to `e`: the bounds of the
/// octets it carries.
fn take_wrapped(b: &[u8], p: usize, e: usize) -> (r: Option<(usize, usize)>)
    requires
        p <= e <= b@.len(),
    ensures
        r matches Some((s, t)) ==> p <= s <= t <= e && b@.subrange(p as int, e as int) == tlv(
            TAG_CTX_0_CONSTRUCTED,
            tlv(TAG_OCTET_STRING, b@.subrange(s as int, t as int)),
        ),
        forall|c: Seq<u8>| #[trigger] at_within(b@, p as int, e as int, tlv(TAG_CTX_0_CONSTRUCTED, tlv(TAG_OCTET_STRING, c)))
            && p + tlv(TAG_CTX_0_CONSTRUCTED, tlv(TAG_OCTET_STRING, c)).len() == e ==> (r matches Some((s, t))
            && at_within(b@, s as int, t as int, c) && s + c.len() == t),
{
    let (s2, e2) = match take_tlv(b, p, e, TAG_CTX_0_CONSTRUCTED) {
        Some(x) => x,
        None => { return None; },
    };
    if e2 != e {
        return None;
    }
    let (s3, e3) = match take_tlv(b, s2, e2, TAG_OCTET_STRING) {
        Some(x) => x,
        None => {
            proof {
                assert forall|c: Seq<u8>| !(#[trigger] at_within(b@, p as int, e as int, tlv(TAG_CTX_0_CONSTRUCTED, tlv(TAG_OCTET_STRING, c)))
                    && p + tlv(TAG_CTX_0_CONSTRUCTED, tlv(TAG_OCTET_STRING, c)).len() == e) by {
                    if at_within(b@, p as int, e as int, tlv(TAG_CTX_0_CONSTRUCTED, tlv(TAG_OCTET_STRING, c))) {
                        lemma_content_at(b@, s2 as int, e2 as int, tlv(TAG_OCTET_STRING, c));
                    }
                }
            }
            return None;
        },
    };
    proof {
        assert forall|c: Seq<u8>| #[trigger] at_within(b@, p as int, e as int, tlv(TAG_CTX_0_CONSTRUCTED, tlv(TAG_OCTET_STRING, c)))
            && p + tlv(TAG_CTX_0_CONSTRUCTED, tlv(TAG_OCTET_STRING, c)).len() == e implies e3 == e2
            && at_within(b@, s3 as int, e3 as int, c) && s3 + c.len() == e3 by {
            lemma_content_at(b@, s2 as int, e2 as int, tlv(TAG_OCTET_STRING, c));
            assert(at_within(b@, s2 as int, e2 as int, tlv(TAG_OCTET_STRING, c)));
            lemma_content_at(b@, s3 as int, e3 as int, c);
        }
    }
    if e3 != e2 {
        return None;
    }
    Some((s3, e3))
}

impl ErikIndex {
    /// The canonical DER encoding of this index.
    pub fn encode(&self) -> (r: Vec<u8>)
        requires
            self@.wf(),
        ensures
            r@ == index_der(self@),
    {
        let refs = encode_partition_refs(&self.partitions);
        let mut c: Vec<u8> = Vec::new();
        push_tlv(&mut c, TAG_IA5_STRING, self.index_scope.as_slice());
        let time = self.index_time.generalized();
        push_tlv(&mut c, TAG_GENERALIZED_TIME, time.as_slice());
        let alg = oid_bytes_sha256();
        push_tlv(&mut c, TAG_OID, alg.as_slice());
        push_tlv(&mut c, TAG_SEQUENCE, refs.as_slice());
        let mut inner: Vec<u8> = Vec::new();
        push_tlv(&mut inner, TAG_SEQUENCE, c.as_slice());
        let mut os: Vec<u8> = Vec::new();
        push_tlv(&mut os, TAG_OCTET_STRING, inner.as_slice());
        let mut outer: Vec<u8> = Vec::new();
        let oid = oid_bytes_erik_index();
        push_tlv(&mut outer, TAG_OID, oid.as_slice());
        push_tlv(&mut outer, TAG_CTX_0_CONSTRUCTED, os.as_slice());
        let mut out: Vec<u8> = Vec::new();
        push_tlv(&mut out, TAG_SEQUENCE, outer.as_slice());
        proof {
            reveal(index_der_with);
            assert(inner@ =~= index_inner_der(self@, no_ids(self.partitions@.len() as nat)));
        }
        out
    }

    /// Reads an index at `pos`: the index and the position after it.
    #[verifier::rlimit(100)]
    pub fn take_from(b: &[u8], pos: usize, end: usize) -> (r: Result<(ErikIndex, usize), DecodeError>)
        requires
            pos <= end <= b@.len(),
        ensures
            r matches Ok((x, e)) ==> x@.wf() && pos < e <= end,
            r matches Ok((x, e)) ==> is_index_der(b@.subrange(pos as int, e as int), x@),
            forall|iv: IndexView, ids: Seq<Option<Seq<u8>>>| #[trigger] index_at(b@, pos as int, end as int, iv, ids) ==> (
                r matches Ok((x, e)) && x@ == iv && e == pos + index_der_with(iv, ids).len()),
    {
        let (s, e) = match take_tlv(b, pos, end, TAG_SEQUENCE) {
            Some(x) => x,
            None => {
                proof {
                    assert forall|iv: IndexView, ids: Seq<Option<Seq<u8>>>| !#[trigger] index_at(b@, pos as int, end as int, iv, ids) by {
                        if index_at(b@, pos as int, end as int, iv, ids) {
                            lemma_index_split(b@, pos as int, end as int, iv, ids);
                        }
                    }
                }
                return Err(DecodeError::Malformed);
            },
        };
        proof {
            assert forall|iv: IndexView, ids: Seq<Option<Seq<u8>>>| #[trigger] index_at(b@, pos as int, end as int, iv, ids) implies
                e == pos + index_der_with(iv, ids).len() && at_within(b@, s as int, e as int, tlv(TAG_OID, erik_index_oid()))
                && at_within(b@, s + tlv(TAG_OID, erik_index_oid()).len(), e as int, tlv(TAG_CTX_0_CONSTRUCTED, tlv(TAG_OCTET_STRING, index_inner_der(iv, ids))))
                && s + tlv(TAG_OID, erik_index_oid()).len() + tlv(TAG_CTX_0_CONSTRUCTED, tlv(TAG_OCTET_STRING, index_inner_der(iv, ids))).len() == e by {
                lemma_index_split(b@, pos as int, end as int, iv, ids);
            }
        }
        let oid = oid_bytes_erik_index();
        let pos1 = match take_fixed(b, s, e, crate::der::TAG_OID, oid.as_slice()) {
            Some(x) => x,
            None => { return Err(DecodeError::WrongOid); },
        };
        proof {
            assert forall|iv: IndexView, ids: Seq<Option<Seq<u8>>>| #[trigger] index_at(b@, pos as int, end as int, iv, ids) implies
                at_within(b@, pos1 as int, e as int, tlv(TAG_CTX_0_CONSTRUCTED, tlv(TAG_OCTET_STRING, index_inner_der(iv, ids))))
                && pos1 + tlv(TAG_CTX_0_CONSTRUCTED, tlv(TAG_OCTET_STRING, index_inner_der(iv, ids))).len() == e by {
            }
        }
        let (s3, e3) = match take_wrapped(b, pos1, e) {
            Some(x) => x,
            None => { return Err(DecodeError::Malformed); },
        };
        let x = match ErikIndex::take_inner(b, s3, e3) {
            Ok(x) => x,
            Err(err) => { return Err(err); },
        };
        proof {
            let ids = choose|ids: Seq<Option<Seq<u8>>>| ids.len() == x@.partitions.len()
                && b@.subrange(s3 as int, e3 as int) == #[trigger] index_inner_der(x@, ids);
            assert(b@.subrange(s as int, pos1 as int) == tlv(TAG_OID, erik_index_oid()));
            assert(b@.subrange(s as int, e as int) =~= b@.subrange(s as int, pos1 as int) + b@.subrange(pos1 as int, e as int));
            reveal(index_der_with);
            assert(b@.subrange(pos as int, e as int) == index_der_with(x@, ids));
            assert(is_index_der(b@.subrange(pos as int, e as int), x@));
        }
        Ok((x, e))
    }

    /// Reads the inner SEQUENCE of an index, which fills `b` from `p` to `e`.
    #[verifier::rlimit(100)]
    fn take_inner(b: &[u8], p: usize, e: usize) -> (r: Result<ErikIndex, DecodeError>)
        requires
            p <= e <= b@.len(),
        ensures
            r matches Ok(x) ==> x@.wf(),
            r matches Ok(x) ==> is_inner_der(b@.subrange(p as int, e as int), x@),
            forall|iv: IndexView, ids: Seq<Option<Seq<u8>>>| iv.wf() && ids.len() == iv.partitions.len()
                && #[trigger] at_within(b@, p as int, e as int, index_inner_der(iv, ids)) && p + index_inner_der(iv, ids).len() == e
                ==> (r matches Ok(x) && x@ == iv),
    {
        let (s4, e4) = match take_tlv(b, p, e, TAG_SEQUENCE) {
            Some(x) => x,
            None => {
                proof {
                    assert forall|iv: IndexView, ids: Seq<Option<Seq<u8>>>| iv.wf() && ids.len() == iv.partitions.len()
                        && #[trigger] at_within(b@, p as int, e as int, index_inner_der(iv, ids)) implies p + index_inner_der(iv, ids).len() != e by {
                        if p + index_inner_der(iv, ids).len() == e {
                            lemma_inner_split(b@, p as int, e as int, iv, ids);
                        }
                    }
                }
                return Err(DecodeError::Malformed);
            },
        };
        proof {
            assert forall|iv: IndexView, ids: Seq<Option<Seq<u8>>>| iv.wf() && ids.len() == iv.partitions.len()
                && #[trigger] at_within(b@, p as int, e as int, index_inner_der(iv, ids)) && p + index_inner_der(iv, ids).len() == e implies
                e4 == e && at_within(b@, s4 as int, e4 as int, tlv(TAG_IA5_STRING, iv.index_scope)) by {
                lemma_inner_split(b@, p as int, e as int, iv, ids);
            }
        }
        if e4 != e {
            return Err(DecodeError::Malformed);
        }
        let (scope, pos1) = match take_content(b, s4, e4, TAG_IA5_STRING) {
            Some(x) => x,
            None => { return Err(DecodeError::Malformed); },
        };
        if !check_ia5(scope.as_slice()) {
            return Err(DecodeError::InvalidScope);
        }
        proof {
            assert forall|iv: IndexView, ids: Seq<Option<Seq<u8>>>| iv.wf() && ids.len() == iv.partitions.len()
                && #[trigger] at_within(b@, p as int, e as int, index_inner_der(iv, ids)) && p + index_inner_der(iv, ids).len() == e implies
                scope@ == iv.index_scope && at_within(b@, pos1 as int, e4 as int, tlv(TAG_GENERALIZED_TIME, iv.index_time.spec_generalized())) by {
                lemma_inner_split(b@, p as int, e as int, iv, ids);
            }
        }
        let (time_c, pos2) = match take_content(b, pos1, e4, TAG_GENERALIZED_TIME) {
            Some(x) => x,
            None => { return Err(DecodeError::Malformed); },
        };
        let index_time = match Time::parse_generalized(time_c.as_slice()) {
            Some(t) => t,
            None => { return Err(DecodeError::InvalidTime); },
        };
        proof {
            assert forall|iv: IndexView, ids: Seq<Option<Seq<u8>>>| iv.wf() && ids.len() == iv.partitions.len()
                && #[trigger] at_within(b@, p as int, e as int, index_inner_der(iv, ids)) && p + index_inner_der(iv, ids).len() == e implies
                index_time == iv.index_time && at_within(b@, pos2 as int, e4 as int, tlv(TAG_OID, sha256_oid()))
                && at_within(b@, pos2 + tlv(TAG_OID, sha256_oid()).len(), e4 as int, tlv(TAG_SEQUENCE, partition_refs_der(iv.partitions, ids)))
                && pos2 + tlv(TAG_OID, sha256_oid()).len() + tlv(TAG_SEQUENCE, partition_refs_der(iv.partitions, ids)).len() == e4 by {
                lemma_inner_split(b@, p as int, e as int, iv, ids);
            }
        }
        let alg = oid_bytes_sha256();
        let pos3 = match take_fixed(b, pos2, e4, TAG_OID, alg.as_slice()) {
            Some(x) => x,
            None => { return Err(DecodeError::WrongHashAlgorithm); },
        };
        let (s5, e5) = match take_tlv(b, pos3, e4, TAG_SEQUENCE) {
            Some(x) => x,
            None => { return Err(DecodeError::Malformed); },
        };
        proof {
            assert forall|iv: IndexView, ids: Seq<Option<Seq<u8>>>| iv.wf() && ids.len() == iv.partitions.len()
                && #[trigger] at_within(b@, p as int, e as int, index_inner_der(iv, ids)) && p + index_inner_der(iv, ids).len() == e implies
                e5 == e4 && prefs_at(b@, s5 as int, e5 as int, iv.partitions, ids) by {
                lemma_inner_split(b@, p as int, e as int, iv, ids);
                lemma_content_at(b@, s5 as int, e5 as int, partition_refs_der(iv.partitions, ids));
            }
        }
        if e5 != e4 {
            return Err(DecodeError::Malformed);
        }
        let partitions = match take_partition_refs(b, s5, e5) {
            Ok(v) => v,
            Err(err) => { return Err(err); },
        };
        let x = ErikIndex { index_scope: scope, index_time, partitions };
        proof {
            assert forall|i: int| 0 <= i < x@.partitions.len() implies (#[trigger] x@.partitions[i]).wf() by {
                assert(x@.partitions[i] == x.partitions@[i]@);
            }
            let ids = choose|ids: Seq<Option<Seq<u8>>>| ids.len() == x@.partitions.len()
                && b@.subrange(s5 as int, e5 as int) == #[trigger] partition_refs_der(x@.partitions, ids);
            assert(b@.subrange(pos2 as int, pos3 as int) == tlv(TAG_OID, sha256_oid()));
            assert(b@.subrange(s4 as int, e4 as int) =~= b@.subrange(s4 as int, pos1 as int) + b@.subrange(pos1 as int, pos2 as int)
                + b@.subrange(pos2 as int, pos3 as int) + b@.subrange(pos3 as int, e4 as int));
            assert(b@.subrange(p as int, e as int) == index_inner_der(x@, ids));
            assert(is_inner_der(b@.subrange(p as int, e as int), x@));
        }
        Ok(x)
    }

    /// Decodes an index that makes up all of `b`. The canonical encoding of
    /// a well-formed index decodes to that index, and so does an encoding
    /// whose partition references carry the legacy identifier, which a new
    /// encoding then omits.
    pub fn decode(b: &[u8]) -> (r: Result<ErikIndex, DecodeError>)
        ensures
            r matches Ok(x) ==> x@.wf() && is_index_der(b@, x@),
            forall|iv: IndexView, ids: Seq<Option<Seq<u8>>>| iv.wf() && ids.len() == iv.partitions.len()
                && #[trigger] index_der_with(iv, ids) == b@ ==> (r matches Ok(x) && x@ == iv),
            r is Ok <==> exists|iv: IndexView| iv.wf() && #[trigger] is_index_der(b@, iv),
    {
        proof {
            assert forall|iv: IndexView, ids: Seq<Option<Seq<u8>>>| iv.wf() && ids.len() == iv.partitions.len()
                && #[trigger] index_der_with(iv, ids) == b@ implies index_at(b@, 0, b@.len() as int, iv, ids) by {
                assert(b@.subrange(0, b@.len() as int) =~= b@);
            }
        }
        proof {
            assert forall|iv: IndexView| iv.wf() && #[trigger] is_index_der(b@, iv) implies exists|ids: Seq<Option<Seq<u8>>>|
                #[trigger] index_at(b@, 0, b@.len() as int, iv, ids) by {
                let ids = choose|ids: Seq<Option<Seq<u8>>>| ids.len() == iv.partitions.len() && b@ == #[trigger] index_der_with(iv, ids);
                assert(index_at(b@, 0, b@.len() as int, iv, ids));
            }
        }
        match ErikIndex::take_from(b, 0, b.len()) {
            Ok((x, e)) => {
                if e != b.len() {
                    proof {
                        assert forall|iv: IndexView| iv.wf() implies !#[trigger] is_index_der(b@, iv) by {
                            if is_index_der(b@, iv) {
                                let ids = choose|ids: Seq<Option<Seq<u8>>>| ids.len() == iv.partitions.len() && b@ == #[trigger] index_der_with(iv, ids);
                                assert(index_at(b@, 0, b@.len() as int, iv, ids));
                            }
                        }
                    }
                    return Err(DecodeError::Malformed);
                }
                proof {
                    assert(b@.subrange(0, e as int) =~= b@);
                }
                Ok(x)
            },
            Err(err) => {
                proof {
                    assert forall|iv: IndexView| iv.wf() implies !#[trigger] is_index_der(b@, iv) by {
                        if is_index_der(b@, iv) {
                            let ids = choose|ids: Seq<Option<Seq<u8>>>| ids.len() == iv.partitions.len() && b@ == #[trigger] index_der_with(iv, ids);
                            assert(index_at(b@, 0, b@.len() as int, iv, ids));
                        }
                    }
                }
                Err(err)
            },
        }
    }
}

proof fn lemma_refs_with_identifiers_longer(rs: Seq<PartitionRefView>, ids: Seq<Option<Seq<u8>>>)
    requires
        ids.len() == rs.len(),
    ensures
        partition_refs_der(rs, ids).len() >= partition_refs_der(rs, no_ids(rs.len())).len(),
        (exists|k: int| 0 <= k < ids.len() && #[trigger] ids[k] is Some) ==> partition_refs_der(rs, ids).len()
            > partition_refs_der(rs, no_ids(rs.len())).len(),
    decreases rs.len(),
{
    if rs.len() > 0 {
        let n = no_ids(rs.len());
        assert(n.drop_first() =~= no_ids((rs.len() - 1) as nat));
        assert(n[0] == None::<Seq<u8>>);
        lemma_refs_with_identifiers_longer(rs.drop_first(), ids.drop_first());
        let body = tlv(TAG_OCTET_STRING, rs[0].hash) + tlv(TAG_INTEGER, uint_content(rs[0].size as nat));
        assert(identifier_der(None) + body =~= body);
        if let Some(c) = ids[0] {
            lemma_tlv_longer(TAG_SEQUENCE, identifier_der(ids[0]) + body, identifier_der(None) + body);
        }
        if exists|k: int| 0 <= k < ids.len() && #[trigger] ids[k] is Some {
            let k = choose|k: int| 0 <= k < ids.len() && #[trigger] ids[k] is Some;
            if k > 0 {
                assert(ids.drop_first()[k - 1] is Some);
            }
        }
    }
}

/// Decoding accepts partition references that carry the identifier of
/// earlier drafts, and encoding leaves the identifier out: the encoding with
/// identifiers is longer than the encoding of the index it decodes to, so
/// it does not come back from decoding and encoding again.
pub proof fn lemma_identifiers_not_reencoded(iv: IndexView, ids: Seq<Option<Seq<u8>>>)
    requires
        ids.len() == iv.partitions.len(),
        exists|k: int| 0 <= k < ids.len() && #[trigger] ids[k] is Some,
    ensures
        index_der_with(iv, ids).len() > index_der(iv).len(),
        index_der_with(iv, ids) != index_der(iv),
{
    reveal(index_der_with);
    let none = no_ids(iv.partitions.len());
    lemma_refs_with_identifiers_longer(iv.partitions, ids);
    let head = tlv(TAG_IA5_STRING, iv.index_scope) + tlv(TAG_GENERALIZED_TIME, iv.index_time.spec_generalized()) + tlv(
        TAG_OID,
        sha256_oid(),
    );
    let r1 = tlv(TAG_SEQUENCE, partition_refs_der(iv.partitions, ids));
    let r0 = tlv(TAG_SEQUENCE, partition_refs_der(iv.partitions, none));
    lemma_tlv_longer(TAG_SEQUENCE, partition_refs_der(iv.partitions, ids), partition_refs_der(iv.partitions, none));
    lemma_tlv_longer(TAG_SEQUENCE, head + r1, head + r0);
    let i1 = index_inner_der(iv, ids);
    let i0 = index_inner_der(iv, none);
    lemma_tlv_longer(TAG_OCTET_STRING, i1, i0);
    lemma_tlv_longer(TAG_CTX_0_CONSTRUCTED, tlv(TAG_OCTET_STRING, i1), tlv(TAG_OCTET_STRING, i0));
    let o = tlv(TAG_OID, erik_index_oid());
    lemma_tlv_longer(
        TAG_SEQUENCE,
        o + tlv(TAG_CTX_0_CONSTRUCTED, tlv(TAG_OCTET_STRING, i1)),
        o + tlv(TAG_CTX_0_CONSTRUCTED, tlv(TAG_OCTET_STRING, i0)),
    );
}

} // verus!
