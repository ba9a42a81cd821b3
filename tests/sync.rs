use base64::Engine;
use bomans::retrieval::FetchResponse;
use bomans::rrdp::{notification_response, NotificationFileResponse, RrdpState, SyncError, UpdatePlan};

const SESSION: &str = "9df4b597-af9e-4dca-bdda-719cce2c4e28";
const NS: &str = "http://www.ripe.net/rpki/rrdp";
const HASH: &str = "0000000000000000000000000000000000000000000000000000000000000000";

fn b64(data: &[u8]) -> String {
    base64::engine::general_purpose::STANDARD.encode(data)
}

fn hex(data: &[u8]) -> String {
    data.iter().map(|b| format!("{b:02x}")).collect()
}

fn digest(data: &[u8]) -> Vec<u8> {
    rpki::rrdp::Hash::from_data(data).as_slice().to_vec()
}

fn notification_xml(serial: u64, deltas: &[u64]) -> Vec<u8> {
    let mut x = format!(
        r#"<notification xmlns="{NS}" version="1" session_id="{SESSION}" serial="{serial}"><snapshot uri="https://example.net/rrdp/snapshot.xml" hash="{HASH}"/>"#
    );
    for d in deltas {
        x.push_str(&format!(r#"<delta serial="{d}" uri="https://example.net/rrdp/{d}.xml" hash="{HASH}"/>"#));
    }
    x.push_str("</notification>");
    x.into_bytes()
}

fn snapshot_xml(serial: u64, objects: &[(&str, &[u8])]) -> Vec<u8> {
    let mut x = format!(r#"<snapshot xmlns="{NS}" version="1" session_id="{SESSION}" serial="{serial}">"#);
    for (name, data) in objects {
        x.push_str(&format!(r#"<publish uri="rsync://example.net/repo/{name}">{}</publish>"#, b64(data)));
    }
    x.push_str("</snapshot>");
    x.into_bytes()
}

fn initial() -> RrdpState {
    let response = notification_response(FetchResponse::Data {
        bytes: notification_xml(3, &[]),
        etag: Some(b"\"1\"".to_vec()),
    })
    .unwrap();
    RrdpState::create_from_xml(
        b"https://example.net/rrdp/notification.xml".to_vec(),
        response,
        &snapshot_xml(3, &[("a.cer", b"object a"), ("b.cer", b"object b")]),
    )
    .unwrap()
}

#[test]
fn snapshot_xml_builds_state() {
    let s = initial();
    assert_eq!(s.serial, 3);
    assert_eq!(s.etag, Some(b"\"1\"".to_vec()));
    assert_eq!(s.elements.len(), 2);
    assert!(s.elements.contains_digest(&digest(b"object a")));
}

#[test]
fn unparsable_notification_is_an_error() {
    let r = notification_response(FetchResponse::Data { bytes: b"<nonsense/>".to_vec(), etag: None });
    assert_eq!(r.err(), Some(SyncError::Notification));
    assert!(matches!(notification_response(FetchResponse::UnModified), Ok(NotificationFileResponse::UnModified)));
}

#[test]
fn delta_xml_applies() {
    let mut s = initial();
    let response = notification_response(FetchResponse::Data { bytes: notification_xml(4, &[4]), etag: None }).unwrap();
    let serial = match s.update(response) {
        UpdatePlan::Deltas { uris, serial, .. } => {
            assert_eq!(uris, vec![b"https://example.net/rrdp/4.xml".to_vec()]);
            serial
        }
        other => panic!("unexpected plan {other:?}"),
    };
    let delta = format!(
        r#"<delta xmlns="{NS}" version="1" session_id="{SESSION}" serial="4"><publish uri="rsync://example.net/repo/c.cer">{}</publish><withdraw uri="rsync://example.net/repo/a.cer" hash="{}"/></delta>"#,
        b64(b"object c"),
        hex(&digest(b"object a"))
    );
    assert_eq!(s.apply_deltas_xml(serial, &vec![delta.into_bytes()]), Ok(()));
    assert_eq!(s.serial, 4);
    assert!(s.elements.contains_digest(&digest(b"object c")));
}

#[test]
fn bad_delta_xml_changes_nothing() {
    let mut s = initial();
    let bad = format!(
        r#"<delta xmlns="{NS}" version="1" session_id="{SESSION}" serial="4"><withdraw uri="rsync://example.net/repo/x.cer" hash="{}"/></delta>"#,
        hex(&digest(b"unknown"))
    );
    assert!(matches!(s.apply_deltas_xml(4, &vec![bad.into_bytes()]), Err(SyncError::Inconsistent(_))));
    assert_eq!(s.apply_deltas_xml(4, &vec![b"not xml".to_vec()]), Err(SyncError::Delta));
    assert_eq!(s.serial, 3);
    assert_eq!(s.elements.len(), 2);
    assert_eq!(s.apply_snapshot_xml(&snapshot_xml(5, &[("a.cer", b"object a")])), Ok(()));
    assert_eq!(s.serial, 5);
    assert_eq!(s.elements.len(), 1);
}

#[test]
fn view_without_manifests_has_no_index() {
    let s = initial();
    let view = bomans::rrdp::build_view(&s, b"example.net");
    assert!(view.index.is_none());
    assert_eq!(view.store.len(), 2);
    assert!(view.store.contains_digest(&digest(b"object b")));
}
