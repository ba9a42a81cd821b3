use base64::Engine;
use bomans::ni::{der_content_type, index_response, named_information, NiResponse};
use bomans::store::{ObjectStore, RepoContentElement};

fn encode(d: &[u8]) -> Vec<u8> {
    base64::engine::general_purpose::URL_SAFE_NO_PAD.encode(d).into_bytes()
}

fn store() -> ObjectStore {
    let mut s = ObjectStore::new();
    s.insert_if_absent(RepoContentElement::new(b"rsync://example.net/repo/a.cer".to_vec(), b"object a".to_vec()));
    s
}

#[test]
fn object_is_served_by_digest() {
    let s = store();
    let d = rpki::rrdp::Hash::from_data(b"object a").as_slice().to_vec();
    match named_information(&s, b"sha-256", &encode(&d)) {
        NiResponse::Found(body) => assert_eq!(body, b"object a".to_vec()),
        other => panic!("unexpected {other:?}"),
    }
    assert_eq!(der_content_type(), b"application/octet-stream+der".to_vec());
}

#[test]
fn unknown_digest_is_not_found() {
    let s = store();
    assert!(matches!(named_information(&s, b"sha-256", &encode(&[7u8; 32])), NiResponse::NotFound));
}

#[test]
fn wrong_length_or_encoding_is_bad_request() {
    let s = store();
    assert!(matches!(named_information(&s, b"sha-256", &encode(&[7u8; 31])), NiResponse::BadHash));
    assert!(matches!(named_information(&s, b"sha-256", b"not base64!"), NiResponse::BadHash));
    assert!(matches!(named_information(&s, b"md5", &encode(&[7u8; 32])), NiResponse::UnsupportedAlgorithm));
}

#[test]
fn index_is_served_for_its_scope_only() {
    assert_eq!(index_response(b"example.net", b"DER", b"example.net"), Some(b"DER".to_vec()));
    assert_eq!(index_response(b"example.net", b"DER", b"other.net"), None);
}
