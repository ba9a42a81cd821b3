//! Partitioning of manifest references by the first octet of their key
//! identifier, and the index built over the partitions.
use vstd::prelude::*;

use crate::digest::sha256_of;
use crate::erik::{is_ia5, partition_der, time_is_min, ErikPartition, ManifestRef, ManifestRefView};
use crate::index::{ErikIndex, ErikPartitionRef, PartitionRefView, prefs_view};
use crate::order::{lemma_lex_asymmetric, lemma_lex_total, lemma_lex_transitive, lex_less, lex_lt};
use crate::time::Time;

verus! {

/// The number of partition keys: one per value of an octet.
pub const PARTITION_COUNT: usize = 256;

/// Selects the partition of a manifest reference: the first octet of its
/// authority key identifier. The draft allows ten-bit keys; this relay uses
/// eight.
#[derive(Clone, Copy, Debug, PartialEq, Eq, Structural)]
pub struct ErikPartitionKey(pub u8);

impl ErikPartitionKey {
    /// The key of a manifest reference.
    pub fn from_manifest_ref(mft_ref: &ManifestRef) -> (r: ErikPartitionKey)
        requires
            mft_ref@.wf(),
        ensures
            r.0 == mft_ref@.aki[0],
    {
        ErikPartitionKey(mft_ref.aki[0])
    }
}

/// The index as resolved in memory: a partition for each key in use.
#[derive(Clone, Debug)]
pub struct ResolvedErikIndex {
    pub index_scope: Vec<u8>,
    pub index_time: Time,
    /// The partition of each key, at the key's position.
    pub partitions: Vec<Option<ErikPartition>>,
}

impl ResolvedErikIndex {
    /// Every reference sits in the partition of its key, every partition
    /// time is the earliest this-update time in the partition, and the index
    /// time is the latest partition time.
    pub open spec fn wf(&self) -> bool {
        &&& self.partitions@.len() == PARTITION_COUNT
        &&& forall|k: int| 0 <= k < PARTITION_COUNT ==> (#[trigger] self.partitions@[k] matches Some(p) ==> {
            &&& p@.wf()
            &&& time_is_min(p@)
            &&& forall|i: int| 0 <= i < p@.manifest_refs.len() ==> (#[trigger] p@.manifest_refs[i]).aki[0] == k
        })
        &&& exists|k: int| 0 <= k < PARTITION_COUNT && (#[trigger] self.partitions@[k] matches Some(p) && p.partition_time == self.index_time)
        &&& forall|k: int| 0 <= k < PARTITION_COUNT ==> (#[trigger] self.partitions@[k] matches Some(p)
            ==> p.partition_time.spec_key() <= self.index_time.spec_key())
    }

    /// Partitions the manifest references. `None` where there are none: an
    /// empty repository has no index.
    pub fn from_manifests(index_scope: Vec<u8>, manifests: &Vec<ManifestRef>) -> (r: Option<ResolvedErikIndex>)
        requires
            forall|i: int| 0 <= i < manifests@.len() ==> (#[trigger] manifests@[i])@.wf(),
        ensures
            r is None <==> manifests@.len() == 0,
            r matches Some(x) ==> {
                &&& x.wf()
                &&& x.index_scope@ == index_scope@
                &&& slots_ok(x.partitions@, refs_of(manifests@))
                &&& crate::rrdp::hashes_distinct(refs_of(manifests@)) ==> forall|j: int| 0 <= j < manifests@.len()
                    ==> slot_holds(x.partitions@[(#[trigger] manifests@[j])@.aki[0] as int], manifests@[j]@)
            },
    {
        let slots = partition_manifests(manifests);
        proof {
            if crate::rrdp::hashes_distinct(refs_of(manifests@)) {
                assert forall|j: int| 0 <= j < manifests@.len() implies slot_holds(slots@[(#[trigger] manifests@[j])@.aki[0] as int], manifests@[j]@) by {
                    lemma_slot_holds(slots@, refs_of(manifests@), j);
                }
            }
        }
        if manifests.len() == 0 {
            return None;
        }
        proof {
            let m0 = refs_of(manifests@)[0];
            assert(slot_has(slots@[m0.aki[0] as int], m0.hash));
        }
        let mut best: Option<Time> = None;
        let mut k: usize = 0;
        while k < PARTITION_COUNT
            invariant
                k <= PARTITION_COUNT,
                slots@.len() == PARTITION_COUNT,
                slots_ok(slots@, refs_of(manifests@)),
                exists|q: int| 0 <= q < PARTITION_COUNT && #[trigger] slots@[q] is Some,
                best is None <==> forall|q: int| 0 <= q < k ==> #[trigger] slots@[q] is None,
                best matches Some(t) ==> t.wf() && exists|q: int| 0 <= q < k && (#[trigger] slots@[q] matches Some(p) && p.partition_time == t),
                best matches Some(t) ==> forall|q: int| 0 <= q < k ==> (#[trigger] slots@[q] matches Some(p)
                    ==> p.partition_time.spec_key() <= t.spec_key()),
            decreases PARTITION_COUNT - k,
        {
            proof {
                assert(slot_ok(slots@[k as int], k as int, refs_of(manifests@)));
            }
            match &slots[k] {
                Some(p) => {
                    let t = p.partition_time;
                    match best {
                        Some(b) => {
                            if b.key() < t.key() {
                                best = Some(t);
                            }
                        },
                        None => {
                            best = Some(t);
                        },
                    }
                },
                None => {},
            }
            k = k + 1;
        }
        match best {
            Some(t) => {
                let r = ResolvedErikIndex { index_scope, index_time: t, partitions: slots };
                proof {
                    assert forall|k: int| 0 <= k < PARTITION_COUNT implies (#[trigger] r.partitions@[k] matches Some(p) ==> {
                        &&& p@.wf()
                        &&& time_is_min(p@)
                        &&& forall|i: int| 0 <= i < p@.manifest_refs.len() ==> (#[trigger] p@.manifest_refs[i]).aki[0] == k
                    }) by {
                        assert(slot_ok(r.partitions@[k], k, refs_of(manifests@)));
                    }
                }
                Some(r)
            },
            None => {
                proof {
                    let q = choose|q: int| 0 <= q < PARTITION_COUNT && #[trigger] slots@[q] is Some;
                }
                None
            },
        }
    }
}

impl ResolvedErikIndex {
    /// The index over the manifests of some repository content.
    pub fn from_content(index_scope: Vec<u8>, content: &crate::rrdp::RepoContent) -> (r: Option<ResolvedErikIndex>)
        requires
            content.wf(),
        ensures
            r is None <==> content.spec_manifests()@.len() == 0,
            r matches Some(x) ==> x.wf() && x.index_scope@ == index_scope@ && slots_ok(x.partitions@, refs_of(content.spec_manifests()@))
                && forall|j: int| 0 <= j < content.spec_manifests()@.len() ==> slot_holds(
                    x.partitions@[(#[trigger] content.spec_manifests()@[j])@.aki[0] as int],
                    content.spec_manifests()@[j]@,
                ),
    {
        ResolvedErikIndex::from_manifests(index_scope, content.manifests())
    }
}

/// The references as plain values.
pub open spec fn refs_of(s: Seq<ManifestRef>) -> Seq<ManifestRefView> {
    s.map_values(|m: ManifestRef| m@)
}

/// The partition at key `k`: it holds only references seen so far whose key
/// is `k`, its time is their earliest; an empty slot means no reference seen
/// so far has key `k`.
pub open spec fn slot_ok(slot: Option<ErikPartition>, k: int, seen: Seq<ManifestRefView>) -> bool {
    match slot {
        Some(p) => {
            &&& p@.wf()
            &&& time_is_min(p@)
            &&& forall|i: int| 0 <= i < p@.manifest_refs.len() ==> (#[trigger] p@.manifest_refs[i]).aki[0] == k
                && seen.contains(p@.manifest_refs[i])
        },
        None => forall|j: int| 0 <= j < seen.len() ==> (#[trigger] seen[j]).aki[0] != k,
    }
}

/// The partition holds a reference with digest `h`.
pub open spec fn slot_has(slot: Option<ErikPartition>, h: Seq<u8>) -> bool {
    slot matches Some(p) && exists|i: int| 0 <= i < p@.manifest_refs.len() && (#[trigger] p@.manifest_refs[i]).hash == h
}

/// The slot holds a partition containing `m`.
pub open spec fn slot_holds(slot: Option<ErikPartition>, m: ManifestRefView) -> bool {
    slot matches Some(p) && p@.manifest_refs.contains(m)
}

proof fn lemma_slot_holds(slots: Seq<Option<ErikPartition>>, seen: Seq<ManifestRefView>, j: int)
    requires
        slots_ok(slots, seen),
        crate::rrdp::hashes_distinct(seen),
        0 <= j < seen.len(),
    ensures
        slot_holds(slots[seen[j].aki[0] as int], seen[j]),
{
    let k = seen[j].aki[0] as int;
    assert(slot_has(slots[k], seen[j].hash));
    assert(slot_ok(slots[k], k, seen));
    let p = slots[k]->Some_0;
    let i = choose|i: int| 0 <= i < p@.manifest_refs.len() && (#[trigger] p@.manifest_refs[i]).hash == seen[j].hash;
    assert(seen.contains(p@.manifest_refs[i]));
    let l = choose|l: int| 0 <= l < seen.len() && seen[l] == p@.manifest_refs[i];
    if l != j {
        if l < j {
            assert(seen[l].hash != seen[j].hash);
        } else {
            assert(seen[j].hash != seen[l].hash);
        }
    }
    assert(p@.manifest_refs[i] == seen[j]);
}

/// Partitions by key of the references `seen`: every reference seen has
/// its digest in the partition of its key.
pub open spec fn slots_ok(slots: Seq<Option<ErikPartition>>, seen: Seq<ManifestRefView>) -> bool {
    &&& slots.len() == PARTITION_COUNT
    &&& forall|k: int| 0 <= k < PARTITION_COUNT ==> slot_ok(#[trigger] slots[k], k, seen)
    &&& forall|j: int| 0 <= j < seen.len() ==> slot_has(slots[(#[trigger] seen[j]).aki[0] as int], seen[j].hash)
}

fn partition_manifests(manifests: &Vec<ManifestRef>) -> (slots: Vec<Option<ErikPartition>>)
    requires
        forall|i: int| 0 <= i < manifests@.len() ==> (#[trigger] manifests@[i])@.wf(),
    ensures
        slots_ok(slots@, refs_of(manifests@)),
{
    let mut slots: Vec<Option<ErikPartition>> = Vec::new();
    let mut k: usize = 0;
    while k < PARTITION_COUNT
        invariant
            k <= PARTITION_COUNT,
            slots@.len() == k,
            forall|j: int| 0 <= j < k ==> #[trigger] slots@[j] is None,
        decreases PARTITION_COUNT - k,
    {
        slots.push(None);
        k = k + 1;
    }
    proof {
        assert forall|k: int| 0 <= k < PARTITION_COUNT implies slot_ok(#[trigger] slots@[k], k, Seq::<ManifestRefView>::empty()) by {
            assert(slots@[k] is None);
        }
    }
    let ghost all = refs_of(manifests@);
    let mut n: usize = 0;
    while n < manifests.len()
        invariant
            n <= manifests@.len(),
            all == refs_of(manifests@),
            forall|i: int| 0 <= i < manifests@.len() ==> (#[trigger] manifests@[i])@.wf(),
            slots_ok(slots@, all.take(n as int)),
        decreases manifests@.len() - n,
    {
        let m = manifests[n].duplicate();
        proof {
            assert(all.take(n + 1) =~= all.take(n as int).push(m@));
        }
        add_to_slots(&mut slots, m, Ghost(all.take(n as int)));
        n = n + 1;
    }
    assert(all.take(manifests@.len() as int) =~= all);
    slots
}

fn add_to_slots(slots: &mut Vec<Option<ErikPartition>>, m: ManifestRef, Ghost(seen): Ghost<Seq<ManifestRefView>>)
    requires
        slots_ok(old(slots)@, seen),
        m@.wf(),
    ensures
        slots_ok(final(slots)@, seen.push(m@)),
{
    let kk = ErikPartitionKey::from_manifest_ref(&m).0 as usize;
    let ghost mv = m@;
    let ghost ns = seen.push(mv);
    let ghost old_slots = slots@;
    proof {
        assert(slot_ok(old_slots[kk as int], kk as int, seen));
    }
    let cur = slots.remove(kk);
    let newp = match cur {
        Some(mut p) => {
            let ghost op = p@;
            p.add_manifest_ref(m);
            proof {
                assert forall|i: int| 0 <= i < p@.manifest_refs.len() implies (#[trigger] p@.manifest_refs[i]).aki[0] == kk
                    && ns.contains(p@.manifest_refs[i]) by {
                    assert(p@.manifest_refs.contains(p@.manifest_refs[i]));
                    if op.manifest_refs.contains(p@.manifest_refs[i]) {
                        let q = choose|q: int| 0 <= q < op.manifest_refs.len() && op.manifest_refs[q] == p@.manifest_refs[i];
                        assert(op.manifest_refs[q].aki[0] == kk);
                        assert(seen.contains(op.manifest_refs[q]));
                        let j = choose|j: int| 0 <= j < seen.len() && seen[j] == op.manifest_refs[q];
                        assert(ns[j] == seen[j]);
                    } else {
                        assert(ns[seen.len() as int] == mv);
                    }
                }
            }
            p
        },
        None => {
            let p = ErikPartition::create_from_manifest_ref(m);
            proof {
                assert forall|i: int| 0 <= i < p@.manifest_refs.len() implies (#[trigger] p@.manifest_refs[i]).aki[0] == kk
                    && ns.contains(p@.manifest_refs[i]) by {
                    assert(ns[seen.len() as int] == mv);
                }
            }
            p
        },
    };
    let ghost np = newp;
    slots.insert(kk, Some(newp));
    proof {
        assert(slots@ =~= old_slots.update(kk as int, Some(np)));
        assert forall|k: int| 0 <= k < PARTITION_COUNT implies slot_ok(#[trigger] slots@[k], k, ns) by {
            if k != kk {
                assert(slots@[k] == old_slots[k]);
                assert(slot_ok(old_slots[k], k, seen));
                match old_slots[k] {
                    Some(p) => {
                        assert forall|i: int| 0 <= i < p@.manifest_refs.len() implies (#[trigger] p@.manifest_refs[i]).aki[0] == k
                            && ns.contains(p@.manifest_refs[i]) by {
                            let j = choose|j: int| 0 <= j < seen.len() && seen[j] == p@.manifest_refs[i];
                            assert(ns[j] == seen[j]);
                        }
                    },
                    None => {
                        assert forall|j: int| 0 <= j < ns.len() implies (#[trigger] ns[j]).aki[0] != k by {
                            if j < seen.len() {
                                assert(ns[j] == seen[j]);
                            }
                        }
                    },
                }
            }
        }
        assert forall|j: int| 0 <= j < ns.len() implies slot_has(slots@[(#[trigger] ns[j]).aki[0] as int], ns[j].hash) by {
            if j < seen.len() {
                assert(ns[j] == seen[j]);
                assert(slot_has(old_slots[seen[j].aki[0] as int], seen[j].hash));
                if seen[j].aki[0] == kk {
                    let op = old_slots[kk as int]->Some_0;
                    let i = choose|i: int| 0 <= i < op@.manifest_refs.len() && (#[trigger] op@.manifest_refs[i]).hash == seen[j].hash;
                    assert(op@.manifest_refs.contains(op@.manifest_refs[i]));
                    assert(np@.manifest_refs.contains(op@.manifest_refs[i]));
                    let i2 = choose|i2: int| 0 <= i2 < np@.manifest_refs.len() && np@.manifest_refs[i2] == op@.manifest_refs[i];
                    assert(np@.manifest_refs[i2].hash == seen[j].hash);
                }
            } else {
                assert(ns[j] == mv);
            }
        }
    }
}

/// The number of partitions among the first `k` slots.
pub open spec fn count_some(slots: Seq<Option<ErikPartition>>, k: int) -> nat
    decreases k,
{
    if k <= 0 {
        0
    } else {
        count_some(slots, k - 1) + if slots[k - 1] is Some { 1nat } else { 0nat }
    }
}

/// The reference to a partition: the digest and size of its encoding.
pub open spec fn partition_ref_of(p: ErikPartition) -> PartitionRefView {
    PartitionRefView { hash: sha256_of(partition_der(p@)), size: partition_der(p@).len() as u32 }
}

/// Ascending by digest, equal digests side by side.
pub open spec fn prefs_sorted(s: Seq<PartitionRefView>) -> bool {
    forall|i: int, j: int| 0 <= i < j < s.len() ==> !lex_less(#[trigger] s[j].hash, #[trigger] s[i].hash)
}

/// Strictly ascending by digest.
pub open spec fn prefs_strictly_sorted(s: Seq<PartitionRefView>) -> bool {
    forall|i: int, j: int| 0 <= i < j < s.len() ==> lex_less(#[trigger] s[i].hash, #[trigger] s[j].hash)
}

/// Partition references ascending by digest whose digests differ are
/// strictly ascending.
pub proof fn lemma_prefs_strictly_sorted(s: Seq<PartitionRefView>)
    requires
        prefs_sorted(s),
        forall|i: int, j: int| 0 <= i < j < s.len() ==> #[trigger] s[i].hash != #[trigger] s[j].hash,
    ensures
        prefs_strictly_sorted(s),
{
    assert forall|i: int, j: int| 0 <= i < j < s.len() implies lex_less(#[trigger] s[i].hash, #[trigger] s[j].hash) by {
        lemma_lex_total(s[i].hash, s[j].hash);
    }
}

/// Adds a partition reference, keeping the list ascending by digest.
fn insert_pref(refs: &mut Vec<ErikPartitionRef>, x: ErikPartitionRef)
    requires
        prefs_sorted(prefs_view(old(refs)@)),
    ensures
        prefs_sorted(prefs_view(final(refs)@)),
        final(refs)@.len() == old(refs)@.len() + 1,
        forall|y: PartitionRefView| prefs_view(final(refs)@).contains(y) <==> (prefs_view(old(refs)@).contains(y) || y == x@),
{
    let ghost ov = prefs_view(refs@);
    let ghost xv = x@;
    let mut i: usize = 0;
    while i < refs.len() && !lex_lt(x.hash.as_slice(), refs[i].hash.as_slice())
        invariant
            i <= refs@.len(),
            refs@ == old(refs)@,
            ov == prefs_view(refs@),
            xv == x@,
            forall|j: int| 0 <= j < i ==> !lex_less(xv.hash, #[trigger] ov[j].hash),
        decreases refs@.len() - i,
    {
        assert(ov[i as int] == refs@[i as int]@);
        i = i + 1;
    }
    proof {
        if i < ov.len() {
            assert(ov[i as int] == refs@[i as int]@);
        }
    }
    refs.insert(i, x);
    proof {
        let nv = prefs_view(refs@);
        assert(nv =~= ov.insert(i as int, xv));
        assert forall|a: int, b: int| 0 <= a < b < nv.len() implies !lex_less(#[trigger] nv[b].hash, #[trigger] nv[a].hash) by {
            if a < i && b < i {
                assert(nv[a] == ov[a] && nv[b] == ov[b]);
            } else if a < i && b == i {
            } else if a < i && b > i {
                assert(nv[a] == ov[a] && nv[b] == ov[b - 1]);
                if b - 1 > a {
                }
            } else if a == i {
                assert(nv[b] == ov[b - 1]);
                assert(lex_less(xv.hash, ov[i as int].hash));
                if lex_less(ov[b - 1].hash, xv.hash) {
                    lemma_lex_transitive(ov[b - 1].hash, xv.hash, ov[i as int].hash);
                    if b - 1 > i {
                    } else {
                        lemma_lex_asymmetric(ov[b - 1].hash, xv.hash);
                    }
                }
            } else {
                assert(nv[a] == ov[a - 1]);
                assert(nv[b] == ov[b - 1]);
            }
        }
        assert forall|y: PartitionRefView| nv.contains(y) <==> (ov.contains(y) || y == xv) by {
            if nv.contains(y) {
                let j = choose|j: int| 0 <= j < nv.len() && nv[j] == y;
                if j < i {
                    assert(ov[j] == y);
                } else if j > i {
                    assert(ov[j - 1] == y);
                }
            }
            if ov.contains(y) {
                let j = choose|j: int| 0 <= j < ov.len() && ov[j] == y;
                if j < i {
                    assert(nv[j] == y);
                } else {
                    assert(nv[j + 1] == y);
                }
            }
            if y == xv {
                assert(nv[i as int] == y);
            }
        }
    }
}

impl ErikIndex {
    /// The index over the partitions of a resolved index: one reference per
    /// partition, by the digest and size of the partition's encoding,
    /// ascending by digest. `None` where the scope is not an IA5 string or a
    /// partition's encoding is 2^32 octets or longer.
    pub fn from_resolved(index: &ResolvedErikIndex) -> (r: Option<ErikIndex>)
        requires
            index.wf(),
        ensures
            r is None <==> (!is_ia5(index.index_scope@) || exists|k: int| 0 <= k < PARTITION_COUNT
                && (#[trigger] index.partitions@[k] matches Some(p) && partition_der(p@).len() > u32::MAX)),
            r matches Some(x) ==> {
                &&& x@.wf()
                &&& x@.index_scope == index.index_scope@
                &&& x@.index_time == index.index_time
                &&& prefs_sorted(x@.partitions)
                &&& x@.partitions.len() == count_some(index.partitions@, PARTITION_COUNT as int)
                &&& forall|i: int| 0 <= i < x@.partitions.len() ==> exists|k: int| 0 <= k < PARTITION_COUNT
                    && (#[trigger] index.partitions@[k] matches Some(p) && #[trigger] x@.partitions[i] == partition_ref_of(p))
                &&& forall|k: int| 0 <= k < PARTITION_COUNT ==> (#[trigger] index.partitions@[k] matches Some(p)
                    ==> x@.partitions.contains(partition_ref_of(p)))
            },
    {
        let mut refs: Vec<ErikPartitionRef> = Vec::new();
        let mut k: usize = 0;
        while k < PARTITION_COUNT
            invariant
                k <= PARTITION_COUNT,
                index.wf(),
                prefs_sorted(prefs_view(refs@)),
                refs@.len() == count_some(index.partitions@, k as int),
                forall|q: int| 0 <= q < k ==> (#[trigger] index.partitions@[q] matches Some(p) ==> partition_der(p@).len() <= u32::MAX),
                forall|i: int| 0 <= i < refs@.len() ==> (#[trigger] refs@[i])@.wf(),
                forall|y: PartitionRefView| #[trigger] prefs_view(refs@).contains(y) ==> exists|q: int| 0 <= q < k
                    && (#[trigger] index.partitions@[q] matches Some(p) && y == partition_ref_of(p)),
                forall|q: int| 0 <= q < k ==> (#[trigger] index.partitions@[q] matches Some(p)
                    ==> prefs_view(refs@).contains(partition_ref_of(p))),
            decreases PARTITION_COUNT - k,
        {
            match &index.partitions[k] {
                Some(p) => {
                    proof {
                        assert(index.partitions@[k as int] matches Some(q) && q@.wf());
                    }
                    let bytes = p.encode();
                    if bytes.len() > 4294967295 {
                        return None;
                    }
                    let x = ErikPartitionRef::new(bytes.as_slice());
                    let ghost old_v = prefs_view(refs@);
                    let ghost old_refs = refs@;
                    assert(x@ == partition_ref_of(*p));
                    insert_pref(&mut refs, x);
                    proof {
                        assert forall|i: int| 0 <= i < refs@.len() implies (#[trigger] refs@[i])@.wf() by {
                            assert(prefs_view(refs@)[i] == refs@[i]@);
                            assert(prefs_view(refs@).contains(refs@[i]@));
                            if old_v.contains(refs@[i]@) {
                                let j = choose|j: int| 0 <= j < old_v.len() && old_v[j] == refs@[i]@;
                                assert(old_v[j] == old_refs[j]@);
                            }
                        }
                    }
                },
                None => {},
            }
            k = k + 1;
        }
        if !crate::erik::check_ia5(index.index_scope.as_slice()) {
            return None;
        }
        let x = ErikIndex {
            index_scope: crate::bytes_util::copy_bytes(index.index_scope.as_slice()),
            index_time: index.index_time,
            partitions: refs,
        };
        proof {
            let k0 = choose|k: int| 0 <= k < PARTITION_COUNT && (#[trigger] index.partitions@[k] matches Some(p) && p.partition_time == index.index_time);
            assert(index.partitions@[k0] matches Some(p) && time_is_min(p@));
            assert forall|i: int| 0 <= i < x@.partitions.len() implies (#[trigger] x@.partitions[i]).wf() by {
                assert(x@.partitions[i] == refs@[i]@);
            }
            assert forall|i: int| 0 <= i < x@.partitions.len() implies exists|k: int| 0 <= k < PARTITION_COUNT
                && (#[trigger] index.partitions@[k] matches Some(p) && #[trigger] x@.partitions[i] == partition_ref_of(p)) by {
                assert(x@.partitions.contains(x@.partitions[i]));
            }
        }
        Some(x)
    }
}

} // verus!
