use bomans::der::{push_tlv, read_uint, uint_bytes};
use bomans::erik::{DecodeError, ErikPartition, ErikPartitionEncoder, ManifestRef};
use bomans::index::{ErikIndex, ErikPartitionRef};
use bomans::time::Time;

fn time(y: u16, mo: u8, d: u8) -> Time {
    Time::utc(y, mo, d, 0, 0, 0).unwrap()
}

fn mft(hash_byte: u8, aki0: u8, number: u8, t: Time) -> ManifestRef {
    let mut aki = vec![0u8; 20];
    aki[0] = aki0;
    ManifestRef::new(
        vec![hash_byte; 32],
        1234,
        aki,
        vec![number],
        t,
        b"rsync://example.net/repo/ca/manifest.mft".to_vec(),
    )
}

fn partition_bytes(p: &ErikPartition) -> Vec<u8> {
    ErikPartitionEncoder::from_partition(p).to_captured()
}

#[test]
fn generalized_time_is_fifteen_digits() {
    let t = Time::utc(2024, 1, 1, 0, 0, 0).unwrap();
    assert_eq!(t.generalized(), b"20240101000000Z".to_vec());
    let t = Time::utc(1999, 12, 31, 23, 59, 58).unwrap();
    assert_eq!(t.generalized(), b"19991231235958Z".to_vec());
    assert_eq!(Time::parse_generalized(b"19991231235958Z"), Some(t));
}

#[test]
fn invalid_times_are_refused() {
    assert!(Time::utc(2023, 2, 29, 0, 0, 0).is_none());
    assert!(Time::utc(2024, 2, 29, 0, 0, 0).is_some());
    assert!(Time::utc(1900, 2, 29, 0, 0, 0).is_none());
    assert!(Time::utc(2000, 2, 29, 0, 0, 0).is_some());
    assert!(Time::utc(2024, 4, 31, 0, 0, 0).is_none());
    assert!(Time::utc(2024, 1, 1, 24, 0, 0).is_none());
    assert_eq!(Time::parse_generalized(b"20240101000000"), None);
    assert_eq!(Time::parse_generalized(b"2024010100000aZ"), None);
    assert_eq!(Time::parse_generalized(b"20241301000000Z"), None);
}

#[test]
fn time_keys_order_chronologically() {
    assert!(time(2023, 12, 1).key() < time(2024, 1, 1).key());
    assert!(Time::utc(2024, 1, 1, 0, 0, 1).unwrap().key() > time(2024, 1, 1).key());
}

#[test]
fn der_lengths_are_minimal() {
    let mut out = Vec::new();
    push_tlv(&mut out, 4, &[7u8; 5]);
    assert_eq!(out[..2].to_vec(), vec![4u8, 5]);
    let mut out = Vec::new();
    push_tlv(&mut out, 4, &vec![0u8; 200]);
    assert_eq!(out[..3].to_vec(), vec![4u8, 0x81, 200]);
    assert_eq!(out.len(), 203);
    let mut out = Vec::new();
    push_tlv(&mut out, 4, &vec![0u8; 300]);
    assert_eq!(out[..4].to_vec(), vec![4u8, 0x82, 1, 44]);
}

#[test]
fn integers_are_minimal_and_unsigned() {
    assert_eq!(uint_bytes(0), vec![0u8]);
    assert_eq!(uint_bytes(127), vec![127u8]);
    assert_eq!(uint_bytes(128), vec![0u8, 128]);
    assert_eq!(uint_bytes(256), vec![1u8, 0]);
    assert_eq!(uint_bytes(u32::MAX), vec![0u8, 255, 255, 255, 255]);
    assert_eq!(read_uint(&[0u8, 128]), Some(128));
    assert_eq!(read_uint(&[0u8, 1]), None);
    assert_eq!(read_uint(&[0x80u8]), None);
    assert_eq!(read_uint(&[1u8, 0, 0, 0, 0]), None);
    assert_eq!(read_uint(&[]), None);
}

#[test]
fn manifest_ref_round_trip() {
    let m = mft(9, 0x7a, 3, time(2024, 1, 1));
    let bytes = m.encode();
    assert_eq!(bytes[0], 0x30);
    let (d, end) = ManifestRef::take_opt_from(&bytes, 0, bytes.len()).unwrap().unwrap();
    assert_eq!(end, bytes.len());
    assert_eq!(d.hash, m.hash);
    assert_eq!(d.size, 1234);
    assert_eq!(d.aki, m.aki);
    assert_eq!(d.manifest_number, vec![3u8]);
    assert_eq!(d.this_update, m.this_update);
    assert_eq!(d.location, m.location);
}

#[test]
fn manifest_number_with_high_bit_round_trips() {
    let mut m = mft(9, 0x7a, 3, time(2024, 1, 1));
    m.manifest_number = vec![0x80, 0x01];
    let bytes = m.encode();
    let (d, _) = ManifestRef::take_opt_from(&bytes, 0, bytes.len()).unwrap().unwrap();
    assert_eq!(d.manifest_number, vec![0x80u8, 0x01]);
}

#[test]
fn manifest_ref_with_bad_location_is_refused() {
    let mut m = mft(9, 0x7a, 3, time(2024, 1, 1));
    m.location = b"https://example.net/x.mft".to_vec();
    let bytes = m.encode();
    assert_eq!(
        ManifestRef::take_opt_from(&bytes, 0, bytes.len()).err(),
        Some(DecodeError::InvalidLocation)
    );
}

#[test]
fn erik_partition_encode_and_decode() {
    let mut p = ErikPartition::create_from_manifest_ref(mft(0x20, 0x7a, 1, time(2024, 1, 1)));
    p.add_manifest_ref(mft(0x10, 0x7a, 2, time(2023, 12, 1)));
    let encoded = partition_bytes(&p);
    assert_eq!(encoded, p.encode());
    let decoded = ErikPartition::decode(&encoded).unwrap();
    assert_eq!(decoded.partition_time, time(2023, 12, 1));
    assert_eq!(decoded.manifest_refs.len(), 2);
    assert_eq!(decoded.manifest_refs[0].hash, vec![0x10u8; 32]);
    assert_eq!(decoded.manifest_refs[1].hash, vec![0x20u8; 32]);
    let first = encoded.windows(32).position(|w| w == [0x10u8; 32]).unwrap();
    let second = encoded.windows(32).position(|w| w == [0x20u8; 32]).unwrap();
    assert!(first < second);
    assert_eq!(partition_bytes(&decoded), encoded);
}

#[test]
fn partition_with_duplicate_digest_keeps_one() {
    let mut p = ErikPartition::create_from_manifest_ref(mft(0x20, 0x7a, 1, time(2024, 1, 1)));
    p.add_manifest_ref(mft(0x20, 0x7a, 1, time(2020, 1, 1)));
    assert_eq!(p.manifest_refs.len(), 1);
    assert_eq!(p.partition_time, time(2024, 1, 1));
}

#[test]
fn partition_with_wrong_algorithm_is_refused() {
    let p = ErikPartition::create_from_manifest_ref(mft(0x20, 0x7a, 1, time(2024, 1, 1)));
    let mut encoded = p.encode();
    let at = encoded.windows(3).position(|w| w == [0x60u8, 0x86, 0x48]).unwrap();
    encoded[at + 8] = 0x02;
    assert_eq!(ErikPartition::decode(&encoded).err(), Some(DecodeError::WrongHashAlgorithm));
}

#[test]
fn partition_with_trailing_octets_is_refused() {
    let p = ErikPartition::create_from_manifest_ref(mft(0x20, 0x7a, 1, time(2024, 1, 1)));
    let mut encoded = p.encode();
    encoded.push(0);
    assert_eq!(ErikPartition::decode(&encoded).err(), Some(DecodeError::Malformed));
}

#[test]
fn partition_with_short_digest_is_refused() {
    let mut m = mft(0x20, 0x7a, 1, time(2024, 1, 1));
    m.hash = vec![1u8; 31];
    let p = ErikPartition { partition_time: time(2024, 1, 1), manifest_refs: vec![m] };
    let encoded = partition_bytes(&p);
    assert_eq!(ErikPartition::decode(&encoded).err(), Some(DecodeError::InvalidHash));
}

#[test]
fn partition_ref_digest_is_sha256() {
    let r = ErikPartitionRef::new(b"abc");
    assert_eq!(r.size, 3);
    assert_eq!(r.hash.len(), 32);
    assert_eq!(r.hash[..4].to_vec(), vec![0xbau8, 0x78, 0x16, 0xbf]);
    assert_eq!(r.hash, rpki::rrdp::Hash::from_data(b"abc").as_slice().to_vec());
}

fn index_with_identifiers(count: usize) -> Vec<u8> {
    let mut refs = Vec::new();
    for i in 0..count {
        let mut content = Vec::new();
        push_tlv(&mut content, 0x02, &uint_bytes(i as u32));
        push_tlv(&mut content, 0x04, &[i as u8; 32]);
        push_tlv(&mut content, 0x02, &uint_bytes(1000 + i as u32));
        push_tlv(&mut refs, 0x30, &content);
    }
    let mut inner = Vec::new();
    push_tlv(&mut inner, 0x16, b"krill-ui-dev.do.nlnetlabs.nl");
    push_tlv(&mut inner, 0x18, b"20240101000000Z");
    push_tlv(&mut inner, 0x06, &[0x60, 0x86, 0x48, 0x01, 0x65, 0x03, 0x04, 0x02, 0x01]);
    push_tlv(&mut inner, 0x30, &refs);
    let mut seq = Vec::new();
    push_tlv(&mut seq, 0x30, &inner);
    let mut os = Vec::new();
    push_tlv(&mut os, 0x04, &seq);
    let mut outer = Vec::new();
    push_tlv(&mut outer, 0x06, &[43, 6, 1, 4, 1, 130, 199, 92, 134, 58]);
    push_tlv(&mut outer, 0xa0, &os);
    let mut out = Vec::new();
    push_tlv(&mut out, 0x30, &outer);
    out
}

#[test]
fn erik_index_decode_rfc_example() {
    let input = index_with_identifiers(256);
    let index = ErikIndex::decode(&input).unwrap();
    assert_eq!(256, index.partitions.len());
    assert_eq!(index.partitions[5].hash, vec![5u8; 32]);
    assert_eq!(index.partitions[5].size, 1005);
    let encoded = index.encode();
    assert!(encoded.len() < input.len());
    assert_eq!(ErikIndex::decode(&encoded).unwrap().partitions.len(), 256);
}

#[test]
fn index_with_wrong_oid_is_refused() {
    let mut input = index_with_identifiers(1);
    let at = input.windows(3).position(|w| w == [130u8, 199, 92]).unwrap();
    input[at + 3] = 135;
    assert_eq!(ErikIndex::decode(&input).err(), Some(DecodeError::WrongOid));
}

#[test]
fn index_round_trip() {
    let index = ErikIndex {
        index_scope: b"example.net".to_vec(),
        index_time: time(2024, 1, 1),
        partitions: vec![ErikPartitionRef::new(b"one"), ErikPartitionRef::new(b"two")],
    };
    let encoded = index.encode();
    let decoded = ErikIndex::decode(&encoded).unwrap();
    assert_eq!(decoded.index_scope, b"example.net".to_vec());
    assert_eq!(decoded.index_time, time(2024, 1, 1));
    assert_eq!(decoded.partitions.len(), 2);
    assert_eq!(decoded.partitions[1].hash, index.partitions[1].hash);
    assert_eq!(decoded.encode(), encoded);
}
