//! The RRDP ingestion state machine: which fetch a notification calls for,
//! and how a snapshot or a chain of deltas changes the object store and the
//! manifest references derived from it. Fetching itself happens outside.
use vstd::prelude::*;

use crate::bytes_util::{bytes_eq, copy_bytes};
use crate::digest::sha256_of;
use crate::erik::{number_less, number_lt, ManifestRef, ManifestRefView};
use crate::order::{lemma_lex_total, lemma_lex_transitive, lemma_lex_asymmetric};
use crate::store::{object_ref, ObjectStore, RepoContentElement};
use rpki::rrdp::{Delta, DeltaElement as RrdpElement, NotificationFile as RrdpNotification, Snapshot};

verus! {

/// One element of a delta file.
#[derive(Clone, Debug)]
pub enum DeltaElement {
    /// A new object.
    Publish { uri: Vec<u8>, data: Vec<u8> },
    /// A new object replacing the object with digest `hash`.
    Update { uri: Vec<u8>, hash: Vec<u8>, data: Vec<u8> },
    /// The object with digest `hash` is withdrawn.
    Withdraw { uri: Vec<u8>, hash: Vec<u8> },
}

/// A delta file listed in a notification file.
#[derive(Clone, Debug)]
pub struct DeltaInfo {
    pub serial: u64,
    pub uri: Vec<u8>,
}

/// The parts of a notification file that the state machine reads.
#[derive(Clone, Debug)]
pub struct NotificationFile {
    pub session_id: u128,
    pub serial: u64,
    pub snapshot_uri: Vec<u8>,
    pub deltas: Vec<DeltaInfo>,
}

/// The outcome of fetching the notification file with the last entity tag.
#[derive(Clone, Debug)]
pub enum NotificationFileResponse {
    UnModified,
    Notification { etag: Option<Vec<u8>>, notification_file: NotificationFile },
}

impl NotificationFileResponse {
    /// The entity tag and the notification file; an error where the file
    /// was unmodified.
    pub fn try_into_etag_and_file(self) -> (r: Result<(Option<Vec<u8>>, NotificationFile), crate::retrieval::FetchError>)
        ensures
            match self {
                NotificationFileResponse::UnModified => r is Err,
                NotificationFileResponse::Notification { etag, notification_file } => r matches Ok((e, f))
                    && opt_view(e) == opt_view(etag) && f == notification_file,
            },
    {
        match self {
            NotificationFileResponse::UnModified => Err(crate::retrieval::FetchError::NoData),
            NotificationFileResponse::Notification { etag, notification_file } => Ok((etag, notification_file)),
        }
    }
}

/// What to fetch next.
#[derive(Clone, Debug)]
pub enum UpdatePlan {
    /// Nothing changed.
    NoUpdate,
    /// Fetch the snapshot at `uri` and install it in place of the current
    /// content.
    Snapshot { uri: Vec<u8>, session_id: u128, serial: u64 },
    /// Fetch the deltas at `uris`, in this order, and apply them; the serial
    /// becomes `serial`. Where they do not apply, fall back to the snapshot.
    Deltas { uris: Vec<Vec<u8>>, serial: u64, snapshot_uri: Vec<u8>, session_id: u128 },
}

/// Why deltas could not be applied.
#[derive(Clone, Copy, Debug, PartialEq, Eq, Structural)]
pub enum DeltaError {
    /// An update names an object that is not known.
    UnknownUpdate,
    /// A withdraw names an object that is not known.
    UnknownWithdraw,
}

/// The delta for serial `s` in the list, if any.
pub open spec fn has_delta(deltas: Seq<DeltaInfo>, s: int) -> bool {
    exists|j: int| 0 <= j < deltas.len() && #[trigger] deltas[j].serial == s
}

/// A delta for serial `s` lies at `uri`.
pub open spec fn delta_uri(deltas: Seq<DeltaInfo>, s: int, uri: Seq<u8>) -> bool {
    exists|j: int| 0 <= j < deltas.len() && deltas[j].serial == s && deltas[j].uri@ == uri
}

/// The deltas that lead from `serial` to the notification's serial, in
/// ascending order of serial: one for each serial after `serial` up to and
/// including the notification's. `None` where the notification's serial is
/// not after `serial` or one of those serials has no delta.
pub fn select_deltas(serial: u64, notification: &NotificationFile) -> (r: Option<Vec<Vec<u8>>>)
    ensures
        r is Some <==> (serial < notification.serial && forall|s: int| serial < s <= notification.serial
            ==> has_delta(notification.deltas@, s)),
        r matches Some(uris) ==> uris@.len() == notification.serial - serial && forall|i: int| 0 <= i < uris@.len()
            ==> delta_uri(notification.deltas@, serial + 1 + i, #[trigger] uris@[i]@),
{
    if serial >= notification.serial {
        return None;
    }
    let mut uris: Vec<Vec<u8>> = Vec::new();
    let mut s: u64 = serial;
    while s < notification.serial
        invariant
            serial <= s <= notification.serial,
            uris@.len() == s - serial,
            forall|t: int| serial < t <= s ==> has_delta(notification.deltas@, t),
            forall|i: int| 0 <= i < uris@.len() ==> delta_uri(notification.deltas@, serial + 1 + i, #[trigger] uris@[i]@),
        decreases notification.serial - s,
    {
        let want = s + 1;
        let mut j: usize = 0;
        let mut found: Option<usize> = None;
        while j < notification.deltas.len()
            invariant
                j <= notification.deltas@.len(),
                found matches Some(f) ==> f < notification.deltas@.len() && notification.deltas@[f as int].serial == want,
                found is None ==> forall|q: int| 0 <= q < j ==> notification.deltas@[q].serial != want,
            decreases notification.deltas@.len() - j,
        {
            if found.is_none() && notification.deltas[j].serial == want {
                found = Some(j);
            }
            j = j + 1;
        }
        match found {
            Some(f) => {
                let u = copy_bytes(notification.deltas[f].uri.as_slice());
                let ghost old_uris = uris@;
                uris.push(u);
                proof {
                    assert forall|i: int| 0 <= i < uris@.len() implies delta_uri(notification.deltas@, serial + 1 + i, #[trigger] uris@[i]@) by {
                        if i < old_uris.len() {
                            assert(uris@[i] == old_uris[i]);
                        } else {
                            assert(uris@[i]@ == notification.deltas@[f as int].uri@);
                            assert(notification.deltas@[f as int].serial == serial + 1 + i);
                        }
                    }
                }
            },
            None => {
                proof {
                    assert(!has_delta(notification.deltas@, want as int));
                }
                return None;
            },
        }
        s = s + 1;
    }
    Some(uris)
}

/// The manifest references by authority key identifier: one per key
/// identifier.
pub open spec fn akis_unique(s: Seq<ManifestRefView>) -> bool {
    forall|i: int, j: int| 0 <= i < j < s.len() ==> (#[trigger] s[i]).aki != (#[trigger] s[j]).aki
}

proof fn lemma_number_order(a: Seq<u8>, b: Seq<u8>, c: Seq<u8>)
    ensures
        a == b || number_less(a, b) || number_less(b, a),
        number_less(a, b) ==> !number_less(b, a),
        number_less(a, b) && number_less(b, c) ==> number_less(a, c),
{
    lemma_lex_total(a, b);
    if number_less(a, b) && a.len() == b.len() {
        lemma_lex_asymmetric(a, b);
    }
    if number_less(a, b) && number_less(b, c) && a.len() == b.len() && b.len() == c.len() {
        lemma_lex_transitive(a, b, c);
    }
}

/// Some reference in `s` has the key identifier of `c` and a manifest number
/// at least that of `c`.
pub open spec fn covered(s: Seq<ManifestRefView>, c: ManifestRefView) -> bool {
    exists|i: int| 0 <= i < s.len() && (#[trigger] s[i]).aki == c.aki && !number_less(s[i].manifest_number, c.manifest_number)
}

/// No two references share a digest.
pub open spec fn hashes_distinct(s: Seq<ManifestRefView>) -> bool {
    forall|i: int, j: int| 0 <= i < j < s.len() ==> (#[trigger] s[i]).hash != (#[trigger] s[j]).hash
}

/// Keeps, for each authority key identifier, the reference with the greatest
/// manifest number; of equal numbers the first.
pub fn manifests_from_refs(candidates: Vec<ManifestRef>) -> (r: Vec<ManifestRef>)
    ensures
        akis_unique(crate::state::refs_of(r@)),
        forall|i: int| 0 <= i < r@.len() ==> crate::state::refs_of(candidates@).contains(#[trigger] r@[i]@),
        forall|c: int| 0 <= c < candidates@.len() ==> covered(crate::state::refs_of(r@), #[trigger] candidates@[c]@),
{
    let ghost cv = crate::state::refs_of(candidates@);
    let mut out: Vec<ManifestRef> = Vec::new();
    let mut n: usize = 0;
    while n < candidates.len()
        invariant
            n <= candidates@.len(),
            cv == crate::state::refs_of(candidates@),
            akis_unique(crate::state::refs_of(out@)),
            forall|i: int| 0 <= i < out@.len() ==> cv.contains(#[trigger] out@[i]@),
            forall|c: int| 0 <= c < n ==> covered(crate::state::refs_of(out@), #[trigger] candidates@[c]@),
        decreases candidates@.len() - n,
    {
        let cand = &candidates[n];
        assert(cv[n as int] == cand@);
        let mut i: usize = 0;
        while i < out.len() && !bytes_eq(out[i].aki.as_slice(), cand.aki.as_slice())
            invariant
                i <= out@.len(),
                forall|q: int| 0 <= q < i ==> out@[q]@.aki != cand@.aki,
            decreases out@.len() - i,
        {
            i = i + 1;
        }
        let ghost old_out = out@;
        if i == out.len() {
            out.push(cand.duplicate());
            proof {
                assert forall|a: int, b: int| 0 <= a < b < out@.len() implies (#[trigger] crate::state::refs_of(out@)[a]).aki
                    != (#[trigger] crate::state::refs_of(out@)[b]).aki by {
                    if b < old_out.len() {
                        assert(crate::state::refs_of(old_out)[a] == crate::state::refs_of(out@)[a]);
                        assert(crate::state::refs_of(old_out)[b] == crate::state::refs_of(out@)[b]);
                    }
                }
                assert forall|q: int| 0 <= q < out@.len() implies cv.contains(#[trigger] out@[q]@) by {
                    if q < old_out.len() {
                        assert(out@[q] == old_out[q]);
                    } else {
                        assert(cv[n as int] == out@[q]@);
                    }
                }
                assert forall|c: int| 0 <= c < n + 1 implies covered(crate::state::refs_of(out@), #[trigger] candidates@[c]@) by {
                    let ov = crate::state::refs_of(old_out);
                    let nv = crate::state::refs_of(out@);
                    if c < n {
                        let q = choose|q: int| 0 <= q < ov.len() && (#[trigger] ov[q]).aki == candidates@[c]@.aki
                            && !number_less(ov[q].manifest_number, candidates@[c]@.manifest_number);
                        assert(nv[q] == ov[q]);
                    } else {
                        let q = old_out.len() as int;
                        assert(nv[q] == candidates@[c]@);
                        lemma_number_order(nv[q].manifest_number, candidates@[c]@.manifest_number, candidates@[c]@.manifest_number);
                    }
                }
            }
        } else if number_lt(out[i].manifest_number.as_slice(), cand.manifest_number.as_slice()) {
            let newer = cand.duplicate();
            out.set(i, newer);
            proof {
                assert forall|a: int, b: int| 0 <= a < b < out@.len() implies (#[trigger] crate::state::refs_of(out@)[a]).aki
                    != (#[trigger] crate::state::refs_of(out@)[b]).aki by {
                    assert(crate::state::refs_of(old_out)[a] == old_out[a]@);
                    assert(crate::state::refs_of(old_out)[b] == old_out[b]@);
                    assert(crate::state::refs_of(out@)[a] == out@[a]@);
                    assert(crate::state::refs_of(out@)[b] == out@[b]@);
                }
                assert forall|q: int| 0 <= q < out@.len() implies cv.contains(#[trigger] out@[q]@) by {
                    if q != i {
                        assert(out@[q] == old_out[q]);
                    } else {
                        assert(cv[n as int] == out@[q]@);
                    }
                }
                assert forall|c: int| 0 <= c < n + 1 implies covered(crate::state::refs_of(out@), #[trigger] candidates@[c]@) by {
                    let ov = crate::state::refs_of(old_out);
                    let nv = crate::state::refs_of(out@);
                    if c < n {
                        let q = choose|q: int| 0 <= q < ov.len() && (#[trigger] ov[q]).aki == candidates@[c]@.aki
                            && !number_less(ov[q].manifest_number, candidates@[c]@.manifest_number);
                        if q != i {
                            assert(nv[q] == ov[q]);
                        } else {
                            lemma_number_order(ov[q].manifest_number, candidates@[c]@.manifest_number, cand@.manifest_number);
                            lemma_number_order(candidates@[c]@.manifest_number, ov[q].manifest_number, cand@.manifest_number);
                            lemma_number_order(cand@.manifest_number, candidates@[c]@.manifest_number, ov[q].manifest_number);
                            assert(nv[q] == cand@);
                        }
                    } else {
                        assert(nv[i as int] == candidates@[c]@);
                        lemma_number_order(cand@.manifest_number, cand@.manifest_number, cand@.manifest_number);
                    }
                }
            }
        } else {
            proof {
                assert forall|c: int| 0 <= c < n + 1 implies covered(crate::state::refs_of(out@), #[trigger] candidates@[c]@) by {
                    if c == n {
                        let nv = crate::state::refs_of(out@);
                        assert(nv[i as int] == out@[i as int]@);
                        assert(nv[i as int].aki == cand@.aki);
                        lemma_number_order(cand@.manifest_number, nv[i as int].manifest_number, cand@.manifest_number);
                    }
                }
            }
        }
        n = n + 1;
    }
    out
}

/// An optional text as plain values.
pub open spec fn opt_view(o: Option<Vec<u8>>) -> Option<Seq<u8>> {
    match o {
        Some(v) => Some(v@),
        None => None,
    }
}

fn copy_opt(o: &Option<Vec<u8>>) -> (r: Option<Vec<u8>>)
    ensures
        opt_view(r) == opt_view(*o),
{
    match o {
        Some(v) => Some(copy_bytes(v.as_slice())),
        None => None,
    }
}

/// Every manifest reference is well formed, names an object in the store by
/// its digest, and has a key identifier of its own.
pub open spec fn manifests_wf(manifests: Seq<ManifestRef>, store: ObjectStore) -> bool {
    &&& akis_unique(crate::state::refs_of(manifests))
    &&& forall|i: int| 0 <= i < manifests.len() ==> (#[trigger] manifests[i])@.wf() && store.contains(manifests[i]@.hash)
}

/// The reference of the `i`-th stored object, where it is a manifest.
pub open spec fn stored_ref(store: ObjectStore, i: int) -> Option<ManifestRefView> {
    object_ref(store.objects()[i].0, store.objects()[i].1)
}

/// The manifest references are those the store's manifests give: each
/// manifest in the store is covered by a reference with its key identifier
/// and at least its number, and each reference is that of a stored object.
pub open spec fn manifests_rebuilt(manifests: Seq<ManifestRef>, store: ObjectStore) -> bool {
    &&& forall|i: int| 0 <= i < store.objects().len() ==> (#[trigger] stored_ref(store, i) matches Some(c) ==> covered(
        crate::state::refs_of(manifests),
        c,
    ))
    &&& forall|q: int| 0 <= q < manifests.len() ==> is_stored_ref(store, (#[trigger] manifests[q])@)
}

/// Some stored object has `m` as its manifest reference.
pub open spec fn is_stored_ref(store: ObjectStore, m: ManifestRefView) -> bool {
    exists|i: int| 0 <= i < store.objects().len() && #[trigger] stored_ref(store, i) == Some(m)
}

/// The manifest references of the objects in the store: of each key
/// identifier the one with the greatest manifest number. Stale manifests
/// count, as the source is trusted.
pub fn manifests_from_elements(store: &ObjectStore) -> (r: Vec<ManifestRef>)
    requires
        store.wf(),
    ensures
        manifests_wf(r@, *store),
        manifests_rebuilt(r@, *store),
{
    let mut candidates: Vec<ManifestRef> = Vec::new();
    let mut i: usize = 0;
    while i < store.len()
        invariant
            store.wf(),
            i <= store.digests().len(),
            forall|j: int| 0 <= j < candidates@.len() ==> (#[trigger] candidates@[j])@.wf() && store.contains(candidates@[j]@.hash),
            forall|j: int| 0 <= j < candidates@.len() ==> exists|k: int| 0 <= k < i && #[trigger] stored_ref(*store, k)
                == Some((#[trigger] candidates@[j])@),
            forall|k: int| 0 <= k < i ==> (#[trigger] stored_ref(*store, k) matches Some(c) ==> crate::state::refs_of(
                candidates@,
            ).contains(c)),
        decreases store.digests().len() - i,
    {
        let (_, e) = store.entry(i);
        let ghost old_c = candidates@;
        match e.try_manifest_ref(true) {
            Ok(m) => {
                proof {
                    assert(store.digests()[i as int] == sha256_of(store.objects()[i as int].1));
                    assert(store.digests().contains(store.digests()[i as int]));
                }
                let ghost mv = m@;
                candidates.push(m);
                proof {
                    assert(stored_ref(*store, i as int) == Some(mv));
                    assert forall|j: int| 0 <= j < candidates@.len() implies exists|k: int| 0 <= k < i + 1 && #[trigger] stored_ref(*store, k)
                        == Some((#[trigger] candidates@[j])@) by {
                        if j < old_c.len() {
                            assert(candidates@[j] == old_c[j]);
                            let k = choose|k: int| 0 <= k < i && #[trigger] stored_ref(*store, k) == Some(old_c[j]@);
                        }
                    }
                    assert forall|k: int| 0 <= k < i + 1 implies (#[trigger] stored_ref(*store, k) matches Some(c) ==> crate::state::refs_of(
                        candidates@,
                    ).contains(c)) by {
                        if k < i {
                            if let Some(c) = stored_ref(*store, k) {
                                let j = choose|j: int| 0 <= j < old_c.len() && crate::state::refs_of(old_c)[j] == c;
                                assert(crate::state::refs_of(candidates@)[j] == c);
                            }
                        } else {
                            assert(crate::state::refs_of(candidates@)[old_c.len() as int] == mv);
                        }
                    }
                }
            },
            Err(_) => {
                proof {
                    assert(stored_ref(*store, i as int) is None);
                }
            },
        }
        i = i + 1;
    }
    let ghost cv = crate::state::refs_of(candidates@);
    let ghost cs = candidates@;
    let r = manifests_from_refs(candidates);
    proof {
        assert forall|q: int| 0 <= q < r@.len() implies (#[trigger] r@[q])@.wf() && store.contains(r@[q]@.hash) by {
            assert(cv.contains(r@[q]@));
            let j = choose|j: int| 0 <= j < cv.len() && cv[j] == r@[q]@;
            assert(cv[j] == cs[j]@);
        }
        assert forall|q: int| 0 <= q < r@.len() implies is_stored_ref(*store, (#[trigger] r@[q])@) by {
            assert(cv.contains(r@[q]@));
            let j = choose|j: int| 0 <= j < cv.len() && cv[j] == r@[q]@;
            assert(cv[j] == cs[j]@);
        }
        assert forall|i: int| 0 <= i < store.objects().len() implies (#[trigger] stored_ref(*store, i) matches Some(c) ==> covered(
            crate::state::refs_of(r@),
            c,
        )) by {
            if let Some(c) = stored_ref(*store, i) {
                assert(i < store.digests().len());
                assert(cv.contains(c));
                let j = choose|j: int| 0 <= j < cv.len() && cv[j] == c;
                assert(cv[j] == cs[j]@);
                assert(covered(crate::state::refs_of(r@), cs[j]@));
            }
        }

    }
    r
}

/// The object is the (URI, octets) of some element of the snapshot.
pub open spec fn is_snapshot_object(snapshot: Seq<RepoContentElement>, o: (Seq<u8>, Seq<u8>)) -> bool {
    exists|i: int| 0 <= i < snapshot.len() && o == (#[trigger] snapshot[i].uri@, snapshot[i].data@)
}

/// The object store that a snapshot's objects make up.
pub fn elements_from_snapshot(snapshot: Vec<RepoContentElement>) -> (r: ObjectStore)
    ensures
        r.wf(),
        forall|i: int| 0 <= i < snapshot@.len() ==> r.contains(sha256_of(#[trigger] snapshot@[i].data@)),
        forall|d: Seq<u8>| r.contains(d) ==> exists|i: int| 0 <= i < snapshot@.len() && #[trigger] sha256_of(snapshot@[i].data@) == d,
        forall|k: int| 0 <= k < r.objects().len() ==> is_snapshot_object(snapshot@, #[trigger] r.objects()[k]),
{
    let mut store = ObjectStore::new();
    let mut i: usize = 0;
    while i < snapshot.len()
        invariant
            i <= snapshot@.len(),
            store.wf(),
            forall|j: int| 0 <= j < i ==> store.contains(sha256_of(#[trigger] snapshot@[j].data@)),
            forall|d: Seq<u8>| store.contains(d) ==> exists|j: int| 0 <= j < i && #[trigger] sha256_of(snapshot@[j].data@) == d,
            forall|k: int| 0 <= k < store.objects().len() ==> is_snapshot_object(snapshot@, #[trigger] store.objects()[k]),
        decreases snapshot@.len() - i,
    {
        let e = snapshot[i].duplicate();
        let ghost od = store.digests();
        let ghost old_store = store;
        let ghost nd = sha256_of(snapshot@[i as int].data@);
        let ghost oo = store.objects();
        let added = store.insert_if_absent(e);
        proof {
            assert forall|k: int| 0 <= k < store.objects().len() implies is_snapshot_object(snapshot@, #[trigger] store.objects()[k]) by {
                if !added || k < oo.len() {
                    assert(store.objects()[k] == oo[k]);
                } else {
                    assert(store.objects()[k] == (snapshot@[i as int].uri@, snapshot@[i as int].data@));
                }
            }
            assert forall|j: int| 0 <= j < i + 1 implies store.contains(sha256_of(#[trigger] snapshot@[j].data@)) by {
                if j < i {
                    let k = choose|k: int| 0 <= k < od.len() && od[k] == sha256_of(snapshot@[j].data@);
                    assert(store.digests()[k] == od[k]);
                }
                if j == i && od.contains(nd) {
                    let k = choose|k: int| 0 <= k < od.len() && od[k] == nd;
                    assert(store.digests()[k] == od[k]);
                }
                if j == i && !od.contains(nd) {
                    assert(store.digests()[od.len() as int] == nd);
                }
            }
            assert forall|d: Seq<u8>| store.contains(d) implies exists|j: int| 0 <= j < i + 1 && #[trigger] sha256_of(snapshot@[j].data@) == d by {
                let k = choose|k: int| 0 <= k < store.digests().len() && store.digests()[k] == d;
                if !added || k < od.len() {
                    assert(od[k] == d);
                    assert(old_store.contains(d));
                } else {
                    assert(store.digests() == od.push(nd));
                    assert(sha256_of(snapshot@[i as int].data@) == d);
                }
            }
        }
        i = i + 1;
    }
    store
}

/// The state of one relayed RRDP session.
#[derive(Clone, Debug)]
pub struct RrdpState {
    /// The URI of the notification file.
    pub notify: Vec<u8>,
    pub session_id: u128,
    pub serial: u64,
    /// The entity tag of the last notification file received.
    pub etag: Option<Vec<u8>>,
    /// Every object seen, by digest.
    pub elements: ObjectStore,
    /// The manifest references, one per key identifier.
    pub manifests: Vec<ManifestRef>,
}

impl RrdpState {
    /// The store is well formed and the manifest references match it.
    pub open spec fn wf(&self) -> bool {
        self.elements.wf() && manifests_wf(self.manifests@, self.elements) && manifests_rebuilt(self.manifests@, self.elements)
    }

    /// The state after the initial synchronisation: the session and serial
    /// of the notification file, and the objects of its snapshot.
    pub fn create(
        notify: Vec<u8>,
        etag: Option<Vec<u8>>,
        session_id: u128,
        serial: u64,
        snapshot: Vec<RepoContentElement>,
    ) -> (r: RrdpState)
        ensures
            r.wf(),
            r.notify@ == notify@,
            opt_view(r.etag) == opt_view(etag),
            r.session_id == session_id,
            r.serial == serial,
            forall|i: int| 0 <= i < snapshot@.len() ==> r.elements.contains(sha256_of(#[trigger] snapshot@[i].data@)),
            forall|d: Seq<u8>| r.elements.contains(d) ==> exists|i: int| 0 <= i < snapshot@.len() && #[trigger] sha256_of(snapshot@[i].data@) == d,
            forall|k: int| 0 <= k < r.elements.objects().len() ==> is_snapshot_object(snapshot@, #[trigger] r.elements.objects()[k]),
    {
        let elements = elements_from_snapshot(snapshot);
        let manifests = manifests_from_elements(&elements);
        RrdpState { notify, session_id, serial, etag, elements, manifests }
    }

    /// Decides what a response to the notification fetch calls for. The
    /// entity tag of a new notification file is kept at once, before any
    /// snapshot or delta is fetched, so that a file pointing at broken
    /// content is not retried forever.
    pub fn update(&mut self, response: NotificationFileResponse) -> (r: UpdatePlan)
        requires
            old(self).wf(),
        ensures
            final(self).wf(),
            final(self).notify@ == old(self).notify@,
            final(self).session_id == old(self).session_id,
            final(self).serial == old(self).serial,
            final(self).elements == old(self).elements,
            final(self).manifests@ == old(self).manifests@,
            match response {
                NotificationFileResponse::UnModified => {
                    &&& r is NoUpdate
                    &&& opt_view(final(self).etag) == opt_view(old(self).etag)
                },
                NotificationFileResponse::Notification { etag, notification_file: nf } => {
                    &&& opt_view(final(self).etag) == opt_view(etag)
                    &&& (nf.session_id == old(self).session_id && nf.serial == old(self).serial) ==> r is NoUpdate
                    &&& nf.session_id != old(self).session_id ==> (r matches UpdatePlan::Snapshot { uri, session_id, serial }
                        && uri@ == nf.snapshot_uri@ && session_id == nf.session_id && serial == nf.serial)
                    &&& (nf.session_id == old(self).session_id && nf.serial != old(self).serial) ==> {
                        let chain = old(self).serial < nf.serial && forall|s: int| old(self).serial < s <= nf.serial
                            ==> has_delta(nf.deltas@, s);
                        &&& chain ==> (r matches UpdatePlan::Deltas { uris, serial, snapshot_uri, session_id }
                            && serial == nf.serial && snapshot_uri@ == nf.snapshot_uri@ && session_id == nf.session_id
                            && uris@.len() == nf.serial - old(self).serial
                            && forall|i: int| 0 <= i < uris@.len() ==> delta_uri(nf.deltas@, old(self).serial + 1 + i, #[trigger] uris@[i]@))
                        &&& !chain ==> (r matches UpdatePlan::Snapshot { uri, session_id, serial }
                            && uri@ == nf.snapshot_uri@ && session_id == nf.session_id && serial == nf.serial)
                    }
                },
            },
    {
        match response {
            NotificationFileResponse::UnModified => UpdatePlan::NoUpdate,
            NotificationFileResponse::Notification { etag, notification_file } => {
                self.etag = etag;
                if self.session_id == notification_file.session_id && self.serial == notification_file.serial {
                    return UpdatePlan::NoUpdate;
                }
                let snapshot = UpdatePlan::Snapshot {
                    uri: copy_bytes(notification_file.snapshot_uri.as_slice()),
                    session_id: notification_file.session_id,
                    serial: notification_file.serial,
                };
                if self.session_id != notification_file.session_id {
                    return snapshot;
                }
                match select_deltas(self.serial, &notification_file) {
                    Some(uris) => UpdatePlan::Deltas {
                        uris,
                        serial: notification_file.serial,
                        snapshot_uri: copy_bytes(notification_file.snapshot_uri.as_slice()),
                        session_id: notification_file.session_id,
                    },
                    None => snapshot,
                }
            },
        }
    }

    /// Installs a snapshot in place of the current content: the object
    /// store holds exactly the snapshot's objects and the manifest references
    /// are derived from them anew.
    pub fn apply_snapshot(&mut self, session_id: u128, serial: u64, snapshot: Vec<RepoContentElement>)
        requires
            old(self).wf(),
        ensures
            final(self).wf(),
            final(self).notify@ == old(self).notify@,
            opt_view(final(self).etag) == opt_view(old(self).etag),
            final(self).session_id == session_id,
            final(self).serial == serial,
            forall|i: int| 0 <= i < snapshot@.len() ==> final(self).elements.contains(sha256_of(#[trigger] snapshot@[i].data@)),
            forall|d: Seq<u8>| final(self).elements.contains(d) ==> exists|i: int| 0 <= i < snapshot@.len() && #[trigger] sha256_of(snapshot@[i].data@) == d,
            forall|k: int| 0 <= k < final(self).elements.objects().len() ==> is_snapshot_object(snapshot@, #[trigger] final(self).elements.objects()[k]),
    {
        let elements = elements_from_snapshot(snapshot);
        let manifests = manifests_from_elements(&elements);
        self.elements = elements;
        self.manifests = manifests;
        self.session_id = session_id;
        self.serial = serial;
    }
}

/// A delta element as plain values: the digest it replaces or withdraws,
/// its URI, and the octets it publishes.
pub open spec fn elem_view(e: DeltaElement) -> (Option<Seq<u8>>, Seq<u8>, Option<Seq<u8>>) {
    match e {
        DeltaElement::Publish { uri, data } => (None, uri@, Some(data@)),
        DeltaElement::Update { uri, hash, data } => (Some(hash@), uri@, Some(data@)),
        DeltaElement::Withdraw { uri, hash } => (Some(hash@), uri@, None),
    }
}

/// Deltas as plain values.
pub open spec fn delta_views(ds: Seq<Vec<DeltaElement>>) -> Seq<Seq<(Option<Seq<u8>>, Seq<u8>, Option<Seq<u8>>)>> {
    Seq::new(ds.len(), |d: int| ds[d]@.map_values(|e: DeltaElement| elem_view(e)))
}

/// The octets that a delta element publishes.
pub open spec fn published_data(e: (Option<Seq<u8>>, Seq<u8>, Option<Seq<u8>>)) -> Option<Seq<u8>> {
    e.2
}

/// The digest of the object that a delta element replaces or withdraws.
pub open spec fn prior_digest(e: (Option<Seq<u8>>, Seq<u8>, Option<Seq<u8>>)) -> Option<Seq<u8>> {
    e.0
}

/// Element `i` of delta `d` comes before element `j` of delta `c`.
pub open spec fn before(d: int, i: int, c: int, j: int) -> bool {
    d < c || (d == c && i < j)
}

/// The digest of an object that element `i` of delta `d` publishes.
pub open spec fn publishes(deltas: Seq<Seq<(Option<Seq<u8>>, Seq<u8>, Option<Seq<u8>>)>>, d: int, i: int, h: Seq<u8>) -> bool {
    &&& 0 <= d < deltas.len()
    &&& 0 <= i < deltas[d].len()
    &&& published_data(deltas[d][i]) matches Some(x)
    &&& sha256_of(x) == h
}

/// The object is the (URI, octets) that some delta element publishes.
pub open spec fn is_published_object(deltas: Seq<Seq<(Option<Seq<u8>>, Seq<u8>, Option<Seq<u8>>)>>, o: (Seq<u8>, Seq<u8>)) -> bool {
    exists|d: int, i: int| 0 <= d < deltas.len() && 0 <= i < deltas[d].len() && (#[trigger] deltas[d][i]).1 == o.0
        && deltas[d][i].2 == Some(o.1)
}

/// The object with digest `h` is known when element `i` of delta `d` is
/// applied: it is in the store or an earlier element published it.
pub open spec fn known_before(store: ObjectStore, deltas: Seq<Seq<(Option<Seq<u8>>, Seq<u8>, Option<Seq<u8>>)>>, d: int, i: int, h: Seq<u8>) -> bool {
    store.contains(h) || exists|c: int, j: int| before(c, j, d, i) && #[trigger] publishes(deltas, c, j, h)
}

/// Every update and withdraw names an object known when it is applied.
pub open spec fn deltas_consistent(store: ObjectStore, deltas: Seq<Seq<(Option<Seq<u8>>, Seq<u8>, Option<Seq<u8>>)>>) -> bool {
    forall|d: int, i: int| 0 <= d < deltas.len() && 0 <= i < deltas[d].len() ==> (prior_digest(#[trigger] deltas[d][i])
        matches Some(h) ==> known_before(store, deltas, d, i, h))
}

impl RrdpState {
    /// Applies deltas in order, all or nothing. Every update and withdraw
    /// must name an object already known, in the store or published by an
    /// earlier element; else nothing changes and the snapshot has to be used.
    /// On success the published objects join the store, the manifest
    /// references are derived anew, and the serial becomes `serial`.
    pub fn apply_deltas(&mut self, serial: u64, deltas: Vec<Vec<DeltaElement>>) -> (r: Result<(), DeltaError>)
        requires
            old(self).wf(),
        ensures
            final(self).wf(),
            final(self).notify@ == old(self).notify@,
            opt_view(final(self).etag) == opt_view(old(self).etag),
            final(self).session_id == old(self).session_id,
            r is Ok <==> deltas_consistent(old(self).elements, delta_views(deltas@)),
            r is Err ==> {
                &&& final(self).serial == old(self).serial
                &&& final(self).elements == old(self).elements
                &&& final(self).manifests@ == old(self).manifests@
                &&& exists|d: int, i: int| 0 <= d < deltas@.len() && 0 <= i < deltas@[d]@.len()
                    && (prior_digest(#[trigger] delta_views(deltas@)[d][i]) matches Some(h) && !old(self).elements.contains(h))
            },
            r is Ok ==> {
                &&& final(self).serial == serial
                &&& final(self).elements.digests().subrange(0, old(self).elements.digests().len() as int) == old(self).elements.digests()
                &&& final(self).elements.objects().subrange(0, old(self).elements.objects().len() as int) == old(self).elements.objects()
                &&& forall|d: int, i: int, h: Seq<u8>| #[trigger] publishes(delta_views(deltas@), d, i, h) ==> final(self).elements.contains(h)
                &&& forall|h: Seq<u8>| #[trigger] final(self).elements.contains(h) ==> old(self).elements.contains(h)
                    || exists|d: int, i: int| publishes(delta_views(deltas@), d, i, h)
                &&& forall|k: int| old(self).elements.objects().len() <= k < final(self).elements.objects().len()
                    ==> is_published_object(delta_views(deltas@), #[trigger] final(self).elements.objects()[k])
            },
    {
        let mut staging = ObjectStore::new();
        let mut d: usize = 0;
        while d < deltas.len()
            invariant
                d <= deltas@.len(),
                staging.wf(),
                forall|k: int| 0 <= k < staging.objects().len() ==> is_published_object(delta_views(deltas@), #[trigger] staging.objects()[k]),
                self.wf(),
                *self == *old(self),
                forall|c: int, j: int, h: Seq<u8>| #[trigger] publishes(delta_views(deltas@), c, j, h) && c < d ==> staging.contains(h),
                forall|h: Seq<u8>| #[trigger] staging.contains(h) ==> exists|c: int, j: int| c < d && publishes(delta_views(deltas@), c, j, h),
                forall|c: int, j: int| 0 <= c < d && 0 <= j < deltas@[c]@.len() ==> (prior_digest(#[trigger] delta_views(deltas@)[c][j])
                    matches Some(h) ==> known_before(old(self).elements, delta_views(deltas@), c, j, h)),
            decreases deltas@.len() - d,
        {
            let delta = &deltas[d];
            let mut i: usize = 0;
            proof {
                assert forall|h: Seq<u8>| #[trigger] staging.contains(h) implies exists|c: int, j: int| before(c, j, d as int, 0) && publishes(delta_views(deltas@), c, j, h) by {
                    let (c, j) = choose|c: int, j: int| c < d && publishes(delta_views(deltas@), c, j, h);
                    assert(before(c, j, d as int, 0));
                }
            }
            while i < delta.len()
                invariant
                    d < deltas@.len(),
                    delta == &deltas@[d as int],
                    i <= delta@.len(),
                    staging.wf(),
                    forall|k: int| 0 <= k < staging.objects().len() ==> is_published_object(delta_views(deltas@), #[trigger] staging.objects()[k]),
                    self.wf(),
                    *self == *old(self),
                    forall|c: int, j: int, h: Seq<u8>| #[trigger] publishes(delta_views(deltas@), c, j, h) && before(c, j, d as int, i as int) ==> staging.contains(h),
                    forall|h: Seq<u8>| #[trigger] staging.contains(h) ==> exists|c: int, j: int| before(c, j, d as int, i as int) && publishes(delta_views(deltas@), c, j, h),
                    forall|c: int, j: int| 0 <= c < deltas@.len() && 0 <= j < deltas@[c]@.len() && before(c, j, d as int, i as int)
                        ==> (prior_digest(#[trigger] delta_views(deltas@)[c][j]) matches Some(h) ==> known_before(old(self).elements, delta_views(deltas@), c, j, h)),
                decreases delta@.len() - i,
            {
                let ghost old_staging = staging;
                let element = match &delta[i] {
                    DeltaElement::Publish { uri, data } => {
                        RepoContentElement { uri: copy_bytes(uri.as_slice()), data: copy_bytes(data.as_slice()) }
                    },
                    DeltaElement::Update { uri, hash, data } => {
                        if !self.elements.contains_digest(hash.as_slice()) && !staging.contains_digest(hash.as_slice()) {
                            proof {
                                assert(prior_digest(delta_views(deltas@)[d as int][i as int]) == Some(hash@));
                                if known_before(old(self).elements, delta_views(deltas@), d as int, i as int, hash@) {
                                    if !old(self).elements.contains(hash@) {
                                        let (c, j) = choose|c: int, j: int| before(c, j, d as int, i as int) && #[trigger] publishes(delta_views(deltas@), c, j, hash@);
                                        assert(staging.contains(hash@));
                                    }
                                }
                                assert(!deltas_consistent(old(self).elements, delta_views(deltas@)));
                            }
                            return Err(DeltaError::UnknownUpdate);
                        }
                        proof {
                            assert(prior_digest(delta_views(deltas@)[d as int][i as int]) == Some(hash@));
                            assert(known_before(old(self).elements, delta_views(deltas@), d as int, i as int, hash@)) by {
                                if !self.elements.contains(hash@) {
                                    assert(staging.contains(hash@));
                                }
                            }
                        }
                        RepoContentElement { uri: copy_bytes(uri.as_slice()), data: copy_bytes(data.as_slice()) }
                    },
                    DeltaElement::Withdraw { uri, hash } => {
                        if !self.elements.contains_digest(hash.as_slice()) && !staging.contains_digest(hash.as_slice()) {
                            proof {
                                assert(prior_digest(delta_views(deltas@)[d as int][i as int]) == Some(hash@));
                                if known_before(old(self).elements, delta_views(deltas@), d as int, i as int, hash@) {
                                    if !old(self).elements.contains(hash@) {
                                        let (c, j) = choose|c: int, j: int| before(c, j, d as int, i as int) && #[trigger] publishes(delta_views(deltas@), c, j, hash@);
                                        assert(staging.contains(hash@));
                                    }
                                }
                                assert(!deltas_consistent(old(self).elements, delta_views(deltas@)));
                            }
                            return Err(DeltaError::UnknownWithdraw);
                        }
                        proof {
                            assert forall|c: int, j: int, h: Seq<u8>| #[trigger] publishes(delta_views(deltas@), c, j, h) && before(c, j, d as int, i + 1) implies staging.contains(h) by {
                                if c == d && j == i {
                                    assert(published_data(delta_views(deltas@)[d as int][i as int]) is None);
                                }
                            }
                            assert forall|h: Seq<u8>| #[trigger] staging.contains(h) implies exists|c: int, j: int| before(c, j, d as int, i + 1) && publishes(delta_views(deltas@), c, j, h) by {
                                let (c, j) = choose|c: int, j: int| before(c, j, d as int, i as int) && publishes(delta_views(deltas@), c, j, h);
                                assert(before(c, j, d as int, i + 1));
                            }
                            assert(known_before(old(self).elements, delta_views(deltas@), d as int, i as int, hash@)) by {
                                if !self.elements.contains(hash@) {
                                    assert(staging.contains(hash@));
                                }
                            }
                            assert forall|c: int, j: int| 0 <= c < deltas@.len() && 0 <= j < deltas@[c]@.len() && before(c, j, d as int, i + 1)
                                implies (prior_digest(#[trigger] delta_views(deltas@)[c][j]) matches Some(h) ==> known_before(old(self).elements, delta_views(deltas@), c, j, h)) by {
                                if c == d && j == i {
                                    assert(prior_digest(delta_views(deltas@)[c][j]) == Some(hash@));
                                }
                            }
                        }
                        i = i + 1;
                        continue;
                    },
                };
                let ghost x = element.data@;
                let ghost xo = (element.uri@, element.data@);
                let ghost oso = staging.objects();
                proof {
                    assert(delta_views(deltas@)[d as int][i as int].1 == xo.0);
                    assert(published_data(delta_views(deltas@)[d as int][i as int]) == Some(x));
                    assert(publishes(delta_views(deltas@), d as int, i as int, sha256_of(x)));
                }
                let added = staging.insert_if_absent(element);
                proof {
                    assert forall|k: int| 0 <= k < staging.objects().len() implies is_published_object(delta_views(deltas@), #[trigger] staging.objects()[k]) by {
                        if !added || k < oso.len() {
                            assert(staging.objects()[k] == oso[k]);
                        } else {
                            assert(staging.objects()[k] == xo);
                        }
                    }
                    assert forall|h: Seq<u8>| old_staging.contains(h) implies staging.contains(h) by {
                        let k = choose|k: int| 0 <= k < old_staging.digests().len() && old_staging.digests()[k] == h;
                        if added {
                            assert(staging.digests()[k] == old_staging.digests()[k]);
                        }
                    }
                    if added {
                        assert(staging.digests()[old_staging.digests().len() as int] == sha256_of(x));
                    }
                    assert(staging.contains(sha256_of(x)));
                    assert forall|h: Seq<u8>| #[trigger] staging.contains(h) implies exists|c: int, j: int| before(c, j, d as int, i + 1) && publishes(delta_views(deltas@), c, j, h) by {
                        let k = choose|k: int| 0 <= k < staging.digests().len() && staging.digests()[k] == h;
                        if !added || k < old_staging.digests().len() {
                            assert(old_staging.digests()[k] == h);
                            assert(old_staging.contains(h));
                            let (c, j) = choose|c: int, j: int| before(c, j, d as int, i as int) && publishes(delta_views(deltas@), c, j, h);
                            assert(before(c, j, d as int, i + 1));
                        } else {
                            assert(h == sha256_of(x));
                            assert(before(d as int, i as int, d as int, i + 1));
                        }
                    }
                    assert forall|c: int, j: int| 0 <= c < deltas@.len() && 0 <= j < deltas@[c]@.len() && before(c, j, d as int, i + 1)
                        implies (prior_digest(#[trigger] delta_views(deltas@)[c][j]) matches Some(h) ==> known_before(old(self).elements, delta_views(deltas@), c, j, h)) by {
                        if c == d && j == i {
                            match deltas@[c]@[j] {
                                DeltaElement::Update { hash, .. } => {
                                    assert(known_before(old(self).elements, delta_views(deltas@), d as int, i as int, hash@));
                                },
                                _ => {},
                            }
                        }
                    }
                    assert forall|c: int, j: int, h: Seq<u8>| #[trigger] publishes(delta_views(deltas@), c, j, h) && before(c, j, d as int, i + 1) implies staging.contains(h) by {
                        if before(c, j, d as int, i as int) {
                            assert(old_staging.contains(h));
                        }
                    }
                }
                i = i + 1;
            }
            proof {
                assert forall|h: Seq<u8>| #[trigger] staging.contains(h) implies exists|c: int, j: int| c < d + 1 && publishes(delta_views(deltas@), c, j, h) by {
                    let (c, j) = choose|c: int, j: int| before(c, j, d as int, delta@.len() as int) && publishes(delta_views(deltas@), c, j, h);
                }
            }
            d = d + 1;
        }
        let ghost old_elements = self.elements;
        let mut j: usize = 0;
        while j < staging.len()
            invariant
                j <= staging.digests().len(),
                staging.wf(),
                self.elements.wf(),
                old_elements.wf(),
                old_elements == old(self).elements,
                self.notify == old(self).notify,
                self.etag == old(self).etag,
                self.session_id == old(self).session_id,
                old_elements.digests().len() <= self.elements.digests().len(),
                old_elements.objects().len() <= self.elements.objects().len(),
                forall|k: int| 0 <= k < j ==> self.elements.contains(#[trigger] staging.digests()[k]),
                self.elements.digests().subrange(0, old_elements.digests().len() as int) == old_elements.digests(),
                self.elements.objects().subrange(0, old_elements.objects().len() as int) == old_elements.objects(),
                forall|h: Seq<u8>| #[trigger] self.elements.contains(h) ==> old_elements.contains(h) || staging.contains(h),
                forall|k: int| 0 <= k < staging.objects().len() ==> is_published_object(delta_views(deltas@), #[trigger] staging.objects()[k]),
                forall|k: int| old_elements.objects().len() <= k < self.elements.objects().len()
                    ==> is_published_object(delta_views(deltas@), #[trigger] self.elements.objects()[k]),
            decreases staging.digests().len() - j,
        {
            let (_, e) = staging.entry(j);
            let e2 = e.duplicate();
            let ghost prev = self.elements;
            let ghost eo = (e2.uri@, e2.data@);
            let added = self.elements.insert_if_absent(e2);
            proof {
                assert(eo == staging.objects()[j as int]);
                assert forall|k: int| old_elements.objects().len() <= k < self.elements.objects().len()
                    implies is_published_object(delta_views(deltas@), #[trigger] self.elements.objects()[k]) by {
                    if !added || k < prev.objects().len() {
                        assert(self.elements.objects()[k] == prev.objects()[k]);
                    } else {
                        assert(self.elements.objects()[k] == eo);
                    }
                }
                assert(staging.digests()[j as int] == sha256_of(staging.objects()[j as int].1));
                assert(staging.contains(staging.digests()[j as int]));
                if added {
                    assert(self.elements.digests()[prev.digests().len() as int] == staging.digests()[j as int]);
                    assert(self.elements.digests().subrange(0, old_elements.digests().len() as int)
                        =~= prev.digests().subrange(0, old_elements.digests().len() as int));
                    assert(self.elements.objects().subrange(0, old_elements.objects().len() as int)
                        =~= prev.objects().subrange(0, old_elements.objects().len() as int));
                }
                assert forall|k: int| 0 <= k < j + 1 implies self.elements.contains(#[trigger] staging.digests()[k]) by {
                    if k < j {
                        assert(prev.contains(staging.digests()[k]));
                        let q = choose|q: int| 0 <= q < prev.digests().len() && prev.digests()[q] == staging.digests()[k];
                        if added {
                            assert(self.elements.digests()[q] == prev.digests()[q]);
                        }
                    }
                }
                assert forall|h: Seq<u8>| #[trigger] self.elements.contains(h) implies old_elements.contains(h) || staging.contains(h) by {
                    let q = choose|q: int| 0 <= q < self.elements.digests().len() && self.elements.digests()[q] == h;
                    if !added || q < prev.digests().len() {
                        assert(prev.digests()[q] == h);
                        assert(prev.contains(h));
                    }
                }
            }
            j = j + 1;
        }
        proof {
            assert forall|c: int, i: int, h: Seq<u8>| #[trigger] publishes(delta_views(deltas@), c, i, h) implies self.elements.contains(h) by {
                assert(staging.contains(h));
                let k = choose|k: int| 0 <= k < staging.digests().len() && staging.digests()[k] == h;
            }
        }
        self.manifests = manifests_from_elements(&self.elements);
        self.serial = serial;
        Ok(())
    }
}

/// The session, serial, snapshot URI and deltas (serial, URI) of a
/// notification file, if the octets parse as one.
pub uninterp spec fn notification_of(xml: Seq<u8>) -> Option<(u128, u64, Seq<u8>, Seq<(u64, Seq<u8>)>)>;

/// A notification file as plain values.
pub open spec fn notification_view(n: NotificationFile) -> (u128, u64, Seq<u8>, Seq<(u64, Seq<u8>)>) {
    (n.session_id, n.serial, n.snapshot_uri@, n.deltas@.map_values(|d: DeltaInfo| (d.serial, d.uri@)))
}

/// Relies on `rpki::rrdp::NotificationFile::parse`: the session, serial,
/// snapshot URI and deltas of a notification file, if the octets parse as
/// one; the result depends on the octets alone.
#[verifier::external_body]
fn parse_notification(xml: &[u8]) -> (r: Option<NotificationFile>)
    ensures
        match r {
            Some(n) => notification_of(xml@) == Some(notification_view(n)),
            None => notification_of(xml@) is None,
        },
{
    RrdpNotification::parse(xml).ok().map(|n| NotificationFile {
        session_id: n.session_id().as_u128(),
        serial: n.serial(),
        snapshot_uri: n.snapshot().uri().as_slice().to_vec(),
        deltas: n.deltas().iter().map(|d| DeltaInfo { serial: d.serial(), uri: d.uri().as_slice().to_vec() }).collect(),
    })
}

/// The session, serial and published objects (URI, octets) of a snapshot
/// file, if the octets parse as one.
pub uninterp spec fn snapshot_of(xml: Seq<u8>) -> Option<(u128, u64, Seq<(Seq<u8>, Seq<u8>)>)>;

/// The store holds exactly the objects, by the digests of their octets.
pub open spec fn holds_exactly(store: ObjectStore, objects: Seq<(Seq<u8>, Seq<u8>)>) -> bool {
    &&& forall|i: int| 0 <= i < objects.len() ==> store.contains(sha256_of(#[trigger] objects[i].1))
    &&& forall|d: Seq<u8>| store.contains(d) ==> exists|i: int| 0 <= i < objects.len() && #[trigger] sha256_of(objects[i].1) == d
}

/// Objects as (URI, octets) pairs.
pub open spec fn objects_view(s: Seq<RepoContentElement>) -> Seq<(Seq<u8>, Seq<u8>)> {
    s.map_values(|e: RepoContentElement| (e.uri@, e.data@))
}

/// Relies on `rpki::rrdp::Snapshot::parse`: the session, serial and
/// published objects of a snapshot file, if the octets parse as one; the
/// result depends on the octets alone.
#[verifier::external_body]
fn parse_snapshot(xml: &[u8]) -> (r: Option<(u128, u64, Vec<RepoContentElement>)>)
    ensures
        match r {
            Some((session_id, serial, elements)) => snapshot_of(xml@) == Some((session_id, serial, objects_view(elements@))),
            None => snapshot_of(xml@) is None,
        },
{
    Snapshot::parse(xml).ok().map(|s| {
        (s.session_id().as_u128(), s.serial(), s.into_elements().into_iter().map(|e| {
            let (uri, data) = e.unpack();
            RepoContentElement { uri: uri.as_slice().to_vec(), data: data.to_vec() }
        }).collect())
    })
}

/// The elements of a delta file as plain values, if the octets parse as one.
pub uninterp spec fn delta_of(xml: Seq<u8>) -> Option<Seq<(Option<Seq<u8>>, Seq<u8>, Option<Seq<u8>>)>>;

/// Relies on `rpki::rrdp::Delta::parse`: the elements of a delta file, if
/// the octets parse as one; the result depends on the octets alone.
#[verifier::external_body]
fn parse_delta(xml: &[u8]) -> (r: Option<Vec<DeltaElement>>)
    ensures
        match r {
            Some(v) => delta_of(xml@) == Some(v@.map_values(|e: DeltaElement| elem_view(e))),
            None => delta_of(xml@) is None,
        },
{
    Delta::parse(xml).ok().map(|d| d.into_elements().into_iter().map(|e| match e {
        RrdpElement::Publish(p) => { let (u, b) = p.unpack(); DeltaElement::Publish { uri: u.as_slice().into(), data: b.into() } },
        RrdpElement::Update(p) => { let (u, h, b) = p.unpack(); DeltaElement::Update { uri: u.as_slice().into(), hash: h.as_slice().into(), data: b.into() } },
        RrdpElement::Withdraw(w) => { let (u, h) = w.unpack(); DeltaElement::Withdraw { uri: u.as_slice().into(), hash: h.as_slice().into() } },
    }).collect())
}

/// All objects of a repository, by digest, with the manifest reference of
/// each manifest among them.
#[derive(Clone, Debug)]
pub struct RepoContent {
    elements: ObjectStore,
    manifests: Vec<ManifestRef>,
}

impl RepoContent {
    /// The store is well formed, each manifest reference is the reference
    /// of an object in it, and no two references share a digest.
    pub open spec fn wf(&self) -> bool {
        &&& self.spec_elements().wf()
        &&& forall|i: int| 0 <= i < self.spec_manifests()@.len() ==> (#[trigger] self.spec_manifests()@[i])@.wf()
            && self.spec_elements().contains(self.spec_manifests()@[i]@.hash)
            && is_stored_ref(self.spec_elements(), self.spec_manifests()@[i]@)
        &&& hashes_distinct(crate::state::refs_of(self.spec_manifests()@))
    }

    /// The objects by digest.
    pub closed spec fn spec_elements(&self) -> ObjectStore {
        self.elements
    }

    /// The manifest references.
    pub closed spec fn spec_manifests(&self) -> Vec<ManifestRef> {
        self.manifests
    }

    /// The content of a snapshot: its objects, and a manifest reference for
    /// each of them that is a manifest (a stale one only where
    /// `accept_stale`).
    pub fn create_from_snapshot(snapshot: Vec<RepoContentElement>, accept_stale: bool) -> (r: RepoContent)
        ensures
            r.wf(),
            forall|i: int| 0 <= i < snapshot@.len() ==> r.spec_elements().contains(sha256_of(#[trigger] snapshot@[i].data@)),
            forall|d: Seq<u8>| r.spec_elements().contains(d) ==> exists|i: int| 0 <= i < snapshot@.len() && #[trigger] sha256_of(snapshot@[i].data@) == d,
            accept_stale ==> forall|i: int| 0 <= i < r.spec_elements().objects().len() ==> (#[trigger] stored_ref(r.spec_elements(), i)
                matches Some(c) ==> crate::state::refs_of(r.spec_manifests()@).contains(c)),
    {
        let elements = elements_from_snapshot(snapshot);
        let ghost mut idx: Seq<int> = Seq::empty();
        let mut manifests: Vec<ManifestRef> = Vec::new();
        let mut i: usize = 0;
        while i < elements.len()
            invariant
                elements.wf(),
                i <= elements.digests().len(),
                forall|j: int| 0 <= j < manifests@.len() ==> (#[trigger] manifests@[j])@.wf() && elements.contains(manifests@[j]@.hash),
                idx.len() == manifests@.len(),
                forall|j: int| 0 <= j < idx.len() ==> 0 <= #[trigger] idx[j] < i && stored_ref(elements, idx[j]) == Some(manifests@[j]@),
                forall|j: int, l: int| 0 <= j < l < idx.len() ==> #[trigger] idx[j] < #[trigger] idx[l],
                accept_stale ==> forall|k: int| 0 <= k < i ==> (#[trigger] stored_ref(elements, k) matches Some(c)
                    ==> crate::state::refs_of(manifests@).contains(c)),
            decreases elements.digests().len() - i,
        {
            let (_, e) = elements.entry(i);
            let ghost old_m = manifests@;
            match e.try_manifest_ref(accept_stale) {
                Ok(m) => {
                    proof {
                        assert(elements.digests()[i as int] == sha256_of(elements.objects()[i as int].1));
                        assert(elements.digests().contains(elements.digests()[i as int]));
                    }
                    let ghost mv = m@;
                    manifests.push(m);
                    proof {
                        idx = idx.push(i as int);
                        assert forall|j: int| 0 <= j < idx.len() implies 0 <= #[trigger] idx[j] < i + 1 && stored_ref(elements, idx[j]) == Some(manifests@[j]@) by {
                            if j < old_m.len() {
                                assert(manifests@[j] == old_m[j]);
                            }
                        }
                        if accept_stale {
                            assert forall|k: int| 0 <= k < i + 1 implies (#[trigger] stored_ref(elements, k) matches Some(c)
                                ==> crate::state::refs_of(manifests@).contains(c)) by {
                                if k < i {
                                    if let Some(c) = stored_ref(elements, k) {
                                        let j = choose|j: int| 0 <= j < old_m.len() && crate::state::refs_of(old_m)[j] == c;
                                        assert(crate::state::refs_of(manifests@)[j] == c);
                                    }
                                } else {
                                    assert(crate::state::refs_of(manifests@)[old_m.len() as int] == mv);
                                }
                            }
                        }
                    }
                },
                Err(_) => {},
            }
            i = i + 1;
        }
        let r = RepoContent { elements, manifests };
        proof {
            let ms = crate::state::refs_of(r.manifests@);
            assert forall|j: int| 0 <= j < r.manifests@.len() implies is_stored_ref(r.elements, (#[trigger] r.manifests@[j])@) by {
                assert(stored_ref(r.elements, idx[j]) == Some(r.manifests@[j]@));
            }
            assert forall|j: int, l: int| 0 <= j < l < ms.len() implies (#[trigger] ms[j]).hash != (#[trigger] ms[l]).hash by {
                assert(idx[j] < idx[l]);
                assert(ms[j] == r.manifests@[j]@ && ms[l] == r.manifests@[l]@);
                assert(r.elements.digests()[idx[j]] != r.elements.digests()[idx[l]]);
                assert(r.elements.digests()[idx[j]] == sha256_of(r.elements.objects()[idx[j]].1));
                assert(r.elements.digests()[idx[l]] == sha256_of(r.elements.objects()[idx[l]].1));
            }
        }
        r
    }

    /// The objects by digest.
    pub fn elements(&self) -> (r: &ObjectStore)
        ensures
            r == self.spec_elements(),
    {
        &self.elements
    }

    /// The manifest references.
    pub fn manifests(&self) -> (r: &Vec<ManifestRef>)
        ensures
            r == self.spec_manifests(),
    {
        &self.manifests
    }
}

/// Every delta file parses.
pub open spec fn all_parse(xmls: Seq<Vec<u8>>) -> bool {
    forall|k: int| 0 <= k < xmls.len() ==> delta_of(#[trigger] xmls[k]@) is Some
}

/// The parsed delta files, in order.
pub open spec fn parsed_deltas(xmls: Seq<Vec<u8>>) -> Seq<Seq<(Option<Seq<u8>>, Seq<u8>, Option<Seq<u8>>)>> {
    Seq::new(xmls.len(), |k: int| delta_of(xmls[k]@)->Some_0)
}

/// Why fetched content could not be used.
#[derive(Clone, Copy, Debug, PartialEq, Eq, Structural)]
pub enum SyncError {
    /// The notification file did not parse.
    Notification,
    /// The snapshot file did not parse.
    Snapshot,
    /// A delta file did not parse.
    Delta,
    /// The deltas do not apply to the current content.
    Inconsistent(DeltaError),
    /// A fetch that had to give content gave none.
    NoData,
}

/// The response to the notification fetch, with the notification file
/// parsed: unmodified stays unmodified, content keeps its entity tag.
pub fn notification_response(response: crate::retrieval::FetchResponse) -> (r: Result<NotificationFileResponse, SyncError>)
    ensures
        match response {
            crate::retrieval::FetchResponse::UnModified => r matches Ok(NotificationFileResponse::UnModified),
            crate::retrieval::FetchResponse::Data { bytes, etag } => match r {
                Ok(NotificationFileResponse::Notification { etag: e, notification_file: n }) => opt_view(e) == opt_view(etag)
                    && notification_of(bytes@) == Some(notification_view(n)),
                Ok(NotificationFileResponse::UnModified) => false,
                Err(err) => err == SyncError::Notification && notification_of(bytes@) is None,
            },
        },
{
    match response {
        crate::retrieval::FetchResponse::UnModified => Ok(NotificationFileResponse::UnModified),
        crate::retrieval::FetchResponse::Data { bytes, etag } => match parse_notification(bytes.as_slice()) {
            Some(notification_file) => Ok(NotificationFileResponse::Notification { etag, notification_file }),
            None => Err(SyncError::Notification),
        },
    }
}

impl RrdpState {
    /// The state after the initial synchronisation: the notification
    /// response must carry a notification file, and the snapshot it names is
    /// `snapshot_xml`.
    pub fn create_from_xml(notify: Vec<u8>, response: NotificationFileResponse, snapshot_xml: &[u8]) -> (r: Result<RrdpState, SyncError>)
        ensures
            r matches Ok(s) ==> s.wf() && s.notify@ == notify@ && match response {
                NotificationFileResponse::Notification { etag, notification_file } => opt_view(s.etag) == opt_view(etag)
                    && s.session_id == notification_file.session_id && s.serial == notification_file.serial,
                NotificationFileResponse::UnModified => false,
            },
            response is UnModified ==> r == Err::<RrdpState, SyncError>(SyncError::NoData),
            response is Notification ==> (r is Ok <==> snapshot_of(snapshot_xml@) is Some),
            r matches Ok(s) ==> snapshot_of(snapshot_xml@) is Some && holds_exactly(s.elements, snapshot_of(snapshot_xml@)->Some_0.2),
    {
        let (etag, notification_file) = match response.try_into_etag_and_file() {
            Ok(x) => x,
            Err(_) => { return Err(SyncError::NoData); },
        };
        match parse_snapshot(snapshot_xml) {
            Some((_, _, elements)) => {
                let ghost els = elements@;
                let ghost objects = objects_view(elements@);
                let r = RrdpState::create(notify, etag, notification_file.session_id, notification_file.serial, elements);
                proof {
                    assert forall|i: int| 0 <= i < objects.len() implies r.elements.contains(sha256_of(#[trigger] objects[i].1)) by {
                        assert(objects[i].1 == els[i].data@);
                    }
                    assert forall|d: Seq<u8>| r.elements.contains(d) implies exists|i: int| 0 <= i < objects.len()
                        && #[trigger] sha256_of(objects[i].1) == d by {
                        let i = choose|i: int| 0 <= i < els.len() && #[trigger] sha256_of(els[i].data@) == d;
                        assert(objects[i].1 == els[i].data@);
                    }
                    assert(holds_exactly(r.elements, objects));
                }
                Ok(r)
            },
            None => Err(SyncError::Snapshot),
        }
    }

    /// Installs the snapshot `xml`, taking session and serial from it;
    /// nothing changes where it does not parse.
    pub fn apply_snapshot_xml(&mut self, xml: &[u8]) -> (r: Result<(), SyncError>)
        requires
            old(self).wf(),
        ensures
            final(self).wf(),
            final(self).notify@ == old(self).notify@,
            opt_view(final(self).etag) == opt_view(old(self).etag),
            r is Err ==> r == Err::<(), SyncError>(SyncError::Snapshot) && final(self).serial == old(self).serial
                && final(self).session_id == old(self).session_id && final(self).elements == old(self).elements
                && final(self).manifests@ == old(self).manifests@,
            r is Ok <==> snapshot_of(xml@) is Some,
            snapshot_of(xml@) matches Some((session_id, serial, objects)) ==> {
                &&& final(self).session_id == session_id
                &&& final(self).serial == serial
                &&& holds_exactly(final(self).elements, objects)
            },
    {
        match parse_snapshot(xml) {
            Some((session_id, serial, elements)) => {
                let ghost objects = objects_view(elements@);
                let ghost els = elements@;
                self.apply_snapshot(session_id, serial, elements);
                proof {
                    assert forall|i: int| 0 <= i < objects.len() implies self.elements.contains(sha256_of(#[trigger] objects[i].1)) by {
                        assert(objects[i].1 == els[i].data@);
                    }
                    assert forall|d: Seq<u8>| self.elements.contains(d) implies exists|i: int| 0 <= i < objects.len()
                        && #[trigger] sha256_of(objects[i].1) == d by {
                        let i = choose|i: int| 0 <= i < els.len() && #[trigger] sha256_of(els[i].data@) == d;
                        assert(objects[i].1 == els[i].data@);
                    }
                    assert(holds_exactly(self.elements, objects));
                }
                Ok(())
            },
            None => Err(SyncError::Snapshot),
        }
    }

    /// Applies the delta files `xmls`, in order, all or nothing: nothing
    /// changes where one does not parse or the deltas do not apply.
    pub fn apply_deltas_xml(&mut self, serial: u64, xmls: &Vec<Vec<u8>>) -> (r: Result<(), SyncError>)
        requires
            old(self).wf(),
        ensures
            final(self).wf(),
            final(self).notify@ == old(self).notify@,
            opt_view(final(self).etag) == opt_view(old(self).etag),
            final(self).session_id == old(self).session_id,
            r is Ok <==> (all_parse(xmls@) && deltas_consistent(old(self).elements, parsed_deltas(xmls@))),
            !all_parse(xmls@) ==> r == Err::<(), SyncError>(SyncError::Delta),
            r is Err ==> final(self).serial == old(self).serial && final(self).elements == old(self).elements
                && final(self).manifests@ == old(self).manifests@,
            r is Ok ==> {
                &&& final(self).serial == serial
                &&& final(self).elements.digests().subrange(0, old(self).elements.digests().len() as int) == old(self).elements.digests()
                &&& final(self).elements.objects().subrange(0, old(self).elements.objects().len() as int) == old(self).elements.objects()
                &&& forall|d: int, i: int, h: Seq<u8>| #[trigger] publishes(parsed_deltas(xmls@), d, i, h) ==> final(self).elements.contains(h)
                &&& forall|h: Seq<u8>| #[trigger] final(self).elements.contains(h) ==> old(self).elements.contains(h)
                    || exists|d: int, i: int| publishes(parsed_deltas(xmls@), d, i, h)
                &&& forall|k: int| old(self).elements.objects().len() <= k < final(self).elements.objects().len()
                    ==> is_published_object(parsed_deltas(xmls@), #[trigger] final(self).elements.objects()[k])
            },
    {
        let mut deltas: Vec<Vec<DeltaElement>> = Vec::new();
        let mut i: usize = 0;
        while i < xmls.len()
            invariant
                i <= xmls@.len(),
                *self == *old(self),
                self.wf(),
                deltas@.len() == i,
                forall|k: int| 0 <= k < i ==> delta_of(#[trigger] xmls@[k]@) == Some(delta_views(deltas@)[k]),
            decreases xmls@.len() - i,
        {
            match parse_delta(xmls[i].as_slice()) {
                Some(d) => {
                    let ghost old_d = deltas@;
                    deltas.push(d);
                    proof {
                        assert forall|k: int| 0 <= k < i + 1 implies delta_of(#[trigger] xmls@[k]@) == Some(delta_views(deltas@)[k]) by {
                            if k < i {
                                assert(deltas@[k] == old_d[k]);
                            }
                        }
                    }
                },
                None => {
                    return Err(SyncError::Delta);
                },
            }
            i = i + 1;
        }
        proof {
            assert(delta_views(deltas@) =~= parsed_deltas(xmls@));
        }
        match self.apply_deltas(serial, deltas) {
            Ok(()) => Ok(()),
            Err(e) => Err(SyncError::Inconsistent(e)),
        }
    }
}

/// What the HTTP surface serves: every object by digest, the encoded
/// partitions among them, and the encoded index with its scope.
pub struct LiveView {
    pub store: ObjectStore,
    pub index: Option<(Vec<u8>, Vec<u8>)>,
}

/// Inserting keeps every digest already there.
proof fn lemma_insert_keeps(before: ObjectStore, after: ObjectStore, d: Seq<u8>, added: bool, h: Seq<u8>)
    requires
        before.contains(h),
        !added ==> after.digests() == before.digests(),
        added ==> after.digests() == before.digests().push(d),
    ensures
        after.contains(h),
{
    let k = choose|k: int| 0 <= k < before.digests().len() && before.digests()[k] == h;
    assert(after.digests()[k] == h);
}

proof fn lemma_view_closed(iv: crate::index::IndexView, resolved: crate::state::ResolvedErikIndex, store: ObjectStore)
    requires
        forall|i: int| 0 <= i < iv.partitions.len() ==> exists|k: int| 0 <= k < crate::state::PARTITION_COUNT
            && (#[trigger] resolved.partitions@[k] matches Some(p) && #[trigger] iv.partitions[i] == crate::state::partition_ref_of(p)),
        forall|q: int| 0 <= q < crate::state::PARTITION_COUNT ==> (#[trigger] resolved.partitions@[q] matches Some(p)
            ==> store.contains(sha256_of(crate::erik::partition_der(p@)))),
    ensures
        forall|i: int| 0 <= i < iv.partitions.len() ==> store.contains(#[trigger] iv.partitions[i].hash),
{
    assert forall|i: int| 0 <= i < iv.partitions.len() implies store.contains(#[trigger] iv.partitions[i].hash) by {
        let q = choose|q: int| 0 <= q < crate::state::PARTITION_COUNT && (#[trigger] resolved.partitions@[q] matches Some(p)
            && #[trigger] iv.partitions[i] == crate::state::partition_ref_of(p));
    }
}

/// Stores each partition of a resolved index under the digest of its
/// encoding.
fn store_partitions(store: &mut ObjectStore, resolved: &crate::state::ResolvedErikIndex)
    requires
        old(store).wf(),
        resolved.wf(),
    ensures
        final(store).wf(),
        forall|d: Seq<u8>| old(store).contains(d) ==> #[trigger] final(store).contains(d),
        forall|q: int| 0 <= q < crate::state::PARTITION_COUNT ==> (#[trigger] resolved.partitions@[q] matches Some(p)
            ==> final(store).contains(sha256_of(crate::erik::partition_der(p@)))),
{
    let mut k: usize = 0;
    while k < crate::state::PARTITION_COUNT
        invariant
            k <= crate::state::PARTITION_COUNT,
            resolved.wf(),
            store.wf(),
            forall|d: Seq<u8>| old(store).contains(d) ==> #[trigger] store.contains(d),
            forall|q: int| 0 <= q < k ==> (#[trigger] resolved.partitions@[q] matches Some(p)
                ==> store.contains(sha256_of(crate::erik::partition_der(p@)))),
        decreases crate::state::PARTITION_COUNT - k,
    {
        match &resolved.partitions[k] {
            Some(p) => {
                proof {
                    assert(resolved.partitions@[k as int] matches Some(q) && q@.wf());
                }
                let bytes = p.encode();
                let ghost before = *store;
                let ghost d = sha256_of(bytes@);
                let added = store.insert_if_absent(RepoContentElement::new(Vec::new(), bytes));
                proof {
                    assert forall|h: Seq<u8>| before.contains(h) implies store.contains(h) by {
                        lemma_insert_keeps(before, *store, d, added, h);
                    }
                    assert forall|h: Seq<u8>| old(store).contains(h) implies #[trigger] store.contains(h) by {
                        assert(before.contains(h));
                        lemma_insert_keeps(before, *store, d, added, h);
                    }
                    if added {
                        assert(store.digests()[before.digests().len() as int] == d);
                    }
                }
            },
            None => {},
        }
        k = k + 1;
    }
}

/// The view to serve for the state: its objects, each partition of its
/// index stored under the digest of its encoding, and the encoded index.
/// Every partition that the index names can be fetched by digest.
#[verifier::rlimit(100)]
pub fn build_view(state: &RrdpState, scope: &[u8]) -> (r: LiveView)
    requires
        state.elements.wf(),
        forall|i: int| 0 <= i < state.manifests@.len() ==> (#[trigger] state.manifests@[i])@.wf(),
    ensures
        r.store.wf(),
        forall|d: Seq<u8>| state.elements.contains(d) ==> #[trigger] r.store.contains(d),
        state.manifests@.len() == 0 ==> r.index is None,
        r.index matches Some((sc, bytes)) ==> sc@ == scope@ && exists|iv: crate::index::IndexView| iv.wf()
            && iv.index_scope == scope@ && bytes@ == #[trigger] crate::index::index_der(iv)
            && forall|i: int| 0 <= i < iv.partitions.len() ==> r.store.contains(#[trigger] iv.partitions[i].hash),
{
    let mut store = state.elements.duplicate();
    let resolved = match crate::state::ResolvedErikIndex::from_manifests(copy_bytes(scope), &state.manifests) {
        Some(x) => x,
        None => { return LiveView { store, index: None }; },
    };
    let index = match crate::index::ErikIndex::from_resolved(&resolved) {
        Some(x) => x,
        None => { return LiveView { store, index: None }; },
    };
    store_partitions(&mut store, &resolved);
    let bytes = index.encode();
    proof {
        lemma_view_closed(index@, resolved, store);
    }
    LiveView { store, index: Some((copy_bytes(scope), bytes)) }
}

} // verus!
