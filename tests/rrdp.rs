use bomans::erik::ManifestRef;
use bomans::rrdp::{
    manifests_from_refs, select_deltas, DeltaElement, DeltaError, DeltaInfo, NotificationFile, NotificationFileResponse,
    RepoContent, RrdpState, UpdatePlan,
};
use bomans::store::{ObjectStore, RepoContentElement};
use bomans::time::Time;

fn obj(name: &str, data: &[u8]) -> RepoContentElement {
    RepoContentElement::new(format!("rsync://example.net/repo/{name}").into_bytes(), data.to_vec())
}

fn digest(data: &[u8]) -> Vec<u8> {
    rpki::rrdp::Hash::from_data(data).as_slice().to_vec()
}

fn notification(session_id: u128, serial: u64, deltas: &[u64]) -> NotificationFile {
    NotificationFile {
        session_id,
        serial,
        snapshot_uri: b"https://example.net/rrdp/snapshot.xml".to_vec(),
        deltas: deltas
            .iter()
            .map(|s| DeltaInfo { serial: *s, uri: format!("https://example.net/rrdp/{s}.xml").into_bytes() })
            .collect(),
    }
}

fn state() -> RrdpState {
    RrdpState::create(
        b"https://example.net/rrdp/notification.xml".to_vec(),
        Some(b"etag-1".to_vec()),
        7,
        10,
        vec![obj("a.cer", b"object a"), obj("b.roa", b"object b")],
    )
}

#[test]
fn rrdp_state_from_snapshot_objects() {
    let s = state();
    assert_eq!(s.elements.len(), 2);
    assert!(s.elements.contains_digest(&digest(b"object a")));
    assert!(s.manifests.is_empty());
    assert_eq!(s.serial, 10);
}

#[test]
fn deltas_must_form_a_chain() {
    let n = notification(7, 13, &[13, 11, 12, 10]);
    let uris = select_deltas(10, &n).unwrap();
    assert_eq!(uris, vec![
        b"https://example.net/rrdp/11.xml".to_vec(),
        b"https://example.net/rrdp/12.xml".to_vec(),
        b"https://example.net/rrdp/13.xml".to_vec(),
    ]);
    assert!(select_deltas(10, &notification(7, 13, &[11, 13])).is_none());
    assert!(select_deltas(13, &notification(7, 13, &[13])).is_none());
}

#[test]
fn unmodified_notification_changes_nothing() {
    let mut s = state();
    assert!(matches!(s.update(NotificationFileResponse::UnModified), UpdatePlan::NoUpdate));
    assert_eq!(s.etag, Some(b"etag-1".to_vec()));
}

#[test]
fn same_serial_keeps_new_etag() {
    let mut s = state();
    let r = NotificationFileResponse::Notification { etag: Some(b"etag-2".to_vec()), notification_file: notification(7, 10, &[]) };
    assert!(matches!(s.update(r), UpdatePlan::NoUpdate));
    assert_eq!(s.etag, Some(b"etag-2".to_vec()));
}

#[test]
fn session_change_calls_for_snapshot() {
    let mut s = state();
    let r = NotificationFileResponse::Notification { etag: None, notification_file: notification(8, 3, &[3]) };
    match s.update(r) {
        UpdatePlan::Snapshot { uri, session_id, serial } => {
            assert_eq!(uri, b"https://example.net/rrdp/snapshot.xml".to_vec());
            assert_eq!(session_id, 8);
            assert_eq!(serial, 3);
        }
        other => panic!("unexpected plan {other:?}"),
    }
    assert_eq!(s.etag, None);
    s.apply_snapshot(8, 3, vec![obj("c.cer", b"object c")]);
    assert_eq!(s.session_id, 8);
    assert_eq!(s.elements.len(), 1);
    assert!(!s.elements.contains_digest(&digest(b"object a")));
}

#[test]
fn new_serial_calls_for_deltas_or_snapshot() {
    let mut s = state();
    let r = NotificationFileResponse::Notification { etag: None, notification_file: notification(7, 12, &[11, 12]) };
    match s.update(r) {
        UpdatePlan::Deltas { uris, serial, .. } => {
            assert_eq!(uris.len(), 2);
            assert_eq!(serial, 12);
        }
        other => panic!("unexpected plan {other:?}"),
    }
    let r = NotificationFileResponse::Notification { etag: None, notification_file: notification(7, 12, &[12]) };
    assert!(matches!(s.update(r), UpdatePlan::Snapshot { .. }));
}

#[test]
fn deltas_apply_in_order() {
    let mut s = state();
    let d1 = vec![DeltaElement::Publish { uri: b"rsync://example.net/repo/c.cer".to_vec(), data: b"object c".to_vec() }];
    let d2 = vec![
        DeltaElement::Update { uri: b"rsync://example.net/repo/c.cer".to_vec(), hash: digest(b"object c"), data: b"object c2".to_vec() },
        DeltaElement::Withdraw { uri: b"rsync://example.net/repo/a.cer".to_vec(), hash: digest(b"object a") },
    ];
    assert_eq!(s.apply_deltas(12, vec![d1, d2]), Ok(()));
    assert_eq!(s.serial, 12);
    assert_eq!(s.elements.len(), 4);
    assert!(s.elements.contains_digest(&digest(b"object c2")));
    assert!(s.elements.contains_digest(&digest(b"object a")));
}

#[test]
fn inconsistent_delta_changes_nothing() {
    let mut s = state();
    let d = vec![
        DeltaElement::Publish { uri: b"rsync://example.net/repo/c.cer".to_vec(), data: b"object c".to_vec() },
        DeltaElement::Withdraw { uri: b"rsync://example.net/repo/x.cer".to_vec(), hash: digest(b"unknown") },
    ];
    assert_eq!(s.apply_deltas(11, vec![d]), Err(DeltaError::UnknownWithdraw));
    assert_eq!(s.serial, 10);
    assert_eq!(s.elements.len(), 2);
    let u = vec![DeltaElement::Update { uri: b"rsync://example.net/repo/x.cer".to_vec(), hash: digest(b"unknown"), data: b"x".to_vec() }];
    assert_eq!(s.apply_deltas(11, vec![u]), Err(DeltaError::UnknownUpdate));
    s.apply_snapshot(7, 11, vec![obj("a.cer", b"object a")]);
    let fresh = RrdpState::create(s.notify.clone(), s.etag.clone(), 7, 11, vec![obj("a.cer", b"object a")]);
    assert_eq!(s.elements.len(), fresh.elements.len());
    assert!(s.elements.contains_digest(&digest(b"object a")));
    assert!(!s.elements.contains_digest(&digest(b"object b")));
}

fn mref(hash: u8, aki0: u8, number: Vec<u8>) -> ManifestRef {
    let mut aki = vec![0u8; 20];
    aki[0] = aki0;
    ManifestRef::new(
        vec![hash; 32],
        1,
        aki,
        number,
        Time::utc(2024, 1, 1, 0, 0, 0).unwrap(),
        b"rsync://example.net/repo/m.mft".to_vec(),
    )
}

#[test]
fn greatest_manifest_number_wins() {
    let r = manifests_from_refs(vec![
        mref(1, 5, vec![9]),
        mref(2, 5, vec![1, 0]),
        mref(3, 6, vec![2]),
        mref(4, 5, vec![0x7f]),
    ]);
    assert_eq!(r.len(), 2);
    let five = r.iter().find(|m| m.aki[0] == 5).unwrap();
    assert_eq!(five.hash, vec![2u8; 32]);
}

#[test]
fn repo_content_from_snapshot_objects() {
    let content = RepoContent::create_from_snapshot(vec![obj("a.cer", b"object a"), obj("a.cer", b"object a")], true);
    assert_eq!(content.elements().len(), 1);
    assert!(content.manifests().is_empty());
    let e = content.elements().get(&digest(b"object a")).unwrap();
    assert_eq!(e.data(), &b"object a".to_vec());
}

#[test]
fn non_manifest_object_gives_no_manifest_ref() {
    let e = obj("a.cer", b"object a");
    assert_eq!(e.try_manifest_ref(true).err(), Some(bomans::store::ManifestError::NotAManifest));
    let m = obj("a.mft", b"not DER");
    assert_eq!(m.try_manifest_ref(true).err(), Some(bomans::store::ManifestError::Malformed));
}

#[test]
fn store_keeps_first_object_per_digest() {
    let mut store = ObjectStore::new();
    assert!(store.insert_if_absent(obj("a.cer", b"same")));
    assert!(!store.insert_if_absent(obj("b.cer", b"same")));
    assert_eq!(store.len(), 1);
    assert_eq!(store.get(&digest(b"same")).unwrap().uri, b"rsync://example.net/repo/a.cer".to_vec());
}
