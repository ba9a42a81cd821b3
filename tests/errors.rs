use bomans::der::{push_tlv, uint_bytes};
use bomans::erik::{DecodeError, ErikPartition, ManifestRef};
use bomans::index::{ErikIndex, ErikPartitionRef};
use bomans::retrieval::{FetchError, FetchResponse};
use bomans::rrdp::{NotificationFileResponse, RrdpState, SyncError};
use bomans::store::{manifest_ref_from_fields, ManifestError, ManifestFields, RepoContentElement};
use bomans::time::Time;

fn t0() -> Time {
    Time::utc(2024, 1, 1, 0, 0, 0).unwrap()
}

fn good() -> ManifestRef {
    ManifestRef::new(vec![1u8; 32], 10, vec![2u8; 20], vec![5], t0(), b"rsync://example.net/repo/m.mft".to_vec())
}

fn decode_ref(m: &ManifestRef) -> Result<Option<(ManifestRef, usize)>, DecodeError> {
    let bytes = m.encode();
    ManifestRef::take_opt_from(&bytes, 0, bytes.len())
}

#[test]
fn short_key_identifier_is_refused() {
    let mut m = good();
    m.aki = vec![2u8; 19];
    assert_eq!(decode_ref(&m).err(), Some(DecodeError::InvalidKeyIdentifier));
}

#[test]
fn long_manifest_number_is_refused() {
    let mut m = good();
    m.manifest_number = vec![1u8; 21];
    assert_eq!(decode_ref(&m).err(), Some(DecodeError::InvalidNumber));
}

#[test]
fn invalid_time_is_refused() {
    let mut m = good();
    m.this_update = Time { year: 2024, month: 13, day: 1, hour: 0, minute: 0, second: 0 };
    assert_eq!(decode_ref(&m).err(), Some(DecodeError::InvalidTime));
}

#[test]
fn oversized_size_is_refused() {
    let mut c = Vec::new();
    push_tlv(&mut c, 0x04, &[1u8; 32]);
    push_tlv(&mut c, 0x02, &[1u8, 0, 0, 0, 0]);
    let mut bytes = Vec::new();
    push_tlv(&mut bytes, 0x30, &c);
    assert_eq!(ManifestRef::take_opt_from(&bytes, 0, bytes.len()).err(), Some(DecodeError::InvalidSize));
    assert_eq!(uint_bytes(u32::MAX).len(), 5);
}

#[test]
fn non_sequence_ends_the_references() {
    let bytes = vec![0x04u8, 0];
    assert!(matches!(ManifestRef::take_opt_from(&bytes, 0, bytes.len()), Ok(None)));
    assert!(matches!(ManifestRef::take_opt_from(&bytes, 2, 2), Ok(None)));
}

#[test]
fn non_ascii_scope_is_refused() {
    let index = ErikIndex { index_scope: vec![0xc3, 0xa9], index_time: t0(), partitions: vec![ErikPartitionRef::new(b"p")] };
    assert_eq!(ErikIndex::decode(&index.encode()).err(), Some(DecodeError::InvalidScope));
}

#[test]
fn truncated_partition_is_refused() {
    let p = ErikPartition::create_from_manifest_ref(good());
    let bytes = p.encode();
    assert_eq!(ErikPartition::decode(&bytes[..bytes.len() - 1]).err(), Some(DecodeError::Malformed));
}

fn fields() -> ManifestFields {
    let mut number = vec![0u8; 20];
    number[19] = 7;
    ManifestFields {
        aki: Some(vec![3u8; 20]),
        number,
        this_update: {
            let mut t = Vec::new();
            push_tlv(&mut t, 0x18, b"20240101000000Z");
            t
        },
        location: Some(b"rsync://example.net/repo/m.mft".to_vec()),
    }
}

#[test]
fn manifest_fields_give_a_reference() {
    let m = manifest_ref_from_fields(b"manifest octets", fields(), false, false).unwrap();
    assert_eq!(m.manifest_number, vec![7u8]);
    assert_eq!(m.this_update, t0());
    assert_eq!(m.size, 15);
    assert_eq!(m.hash, rpki::rrdp::Hash::from_data(b"manifest octets").as_slice().to_vec());
}

#[test]
fn manifest_field_errors() {
    assert_eq!(manifest_ref_from_fields(b"x", fields(), true, false).err(), Some(ManifestError::Stale));
    assert!(manifest_ref_from_fields(b"x", fields(), true, true).is_ok());
    let mut f = fields();
    f.aki = None;
    assert_eq!(manifest_ref_from_fields(b"x", f, false, false).err(), Some(ManifestError::NoKeyIdentifier));
    let mut f = fields();
    f.location = None;
    assert_eq!(manifest_ref_from_fields(b"x", f, false, false).err(), Some(ManifestError::NoLocation));
    let mut f = fields();
    f.location = Some(b"https://example.net/m.mft".to_vec());
    assert_eq!(manifest_ref_from_fields(b"x", f, false, false).err(), Some(ManifestError::Malformed));
    let mut f = fields();
    f.number[0] = 0x80;
    assert_eq!(manifest_ref_from_fields(b"x", f, false, false).err(), Some(ManifestError::Malformed));
}

#[test]
fn sync_errors() {
    let r = RrdpState::create_from_xml(b"https://example.net/n.xml".to_vec(), NotificationFileResponse::UnModified, b"");
    assert_eq!(r.err(), Some(SyncError::NoData));
    let mut s = RrdpState::create(b"https://example.net/n.xml".to_vec(), None, 1, 1, vec![RepoContentElement::new(
        b"rsync://example.net/repo/a.cer".to_vec(),
        b"a".to_vec(),
    )]);
    assert_eq!(s.apply_snapshot_xml(b"not xml"), Err(SyncError::Snapshot));
    assert_eq!(s.elements.len(), 1);
}

#[test]
fn fetch_without_data_is_an_error() {
    assert_eq!(FetchResponse::UnModified.try_into_data(), Err(FetchError::NoData));
    assert_eq!(FetchResponse::Data { bytes: b"x".to_vec(), etag: None }.try_into_data(), Ok(b"x".to_vec()));
}

#[test]
fn unsorted_references_are_refused() {
    let mut low = good();
    low.hash = vec![1u8; 32];
    let mut high = good();
    high.hash = vec![9u8; 32];
    let p = ErikPartition { partition_time: t0(), manifest_refs: vec![high, low] };
    let bytes = bomans::erik::ErikPartitionEncoder::from_partition(&p).to_captured();
    assert_eq!(ErikPartition::decode(&bytes).err(), Some(DecodeError::Malformed));
}
