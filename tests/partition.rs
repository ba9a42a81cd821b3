use bomans::erik::{ErikPartitionEncoder, ManifestRef};
use bomans::index::ErikIndex;
use bomans::state::{ErikPartitionKey, ResolvedErikIndex};
use bomans::time::Time;

fn time(y: u16, mo: u8, d: u8) -> Time {
    Time::utc(y, mo, d, 0, 0, 0).unwrap()
}

fn mft(hash_byte: u8, aki0: u8, number: u8, t: Time) -> ManifestRef {
    let mut aki = vec![hash_byte; 20];
    aki[0] = aki0;
    ManifestRef::new(
        vec![hash_byte; 32],
        100 + hash_byte as u32,
        aki,
        vec![number],
        t,
        b"rsync://example.net/repo/ca/manifest.mft".to_vec(),
    )
}

const SCOPE: &[u8] = b"krill-ui-dev.do.nlnetlabs.nl";

#[test]
fn erik_index_from_content() {
    let refs = vec![mft(1, 0x7a, 1, time(2024, 1, 1))];
    let index = ResolvedErikIndex::from_manifests(SCOPE.to_vec(), &refs).unwrap();
    assert_eq!(index.partitions.len(), 256);
    let used: Vec<usize> = (0..256).filter(|k| index.partitions[*k].is_some()).collect();
    assert_eq!(used, vec![0x7a]);
    let p = index.partitions[0x7a].as_ref().unwrap();
    assert_eq!(p.partition_time, time(2024, 1, 1));
    assert_eq!(index.index_time, time(2024, 1, 1));
}

#[test]
fn earlier_manifest_moves_partition_time() {
    let refs = vec![mft(1, 0x7a, 1, time(2024, 1, 1)), mft(2, 0x7a, 2, time(2023, 12, 1))];
    let index = ResolvedErikIndex::from_manifests(SCOPE.to_vec(), &refs).unwrap();
    let p = index.partitions[0x7a].as_ref().unwrap();
    assert_eq!(p.manifest_refs.len(), 2);
    assert_eq!(p.partition_time, time(2023, 12, 1));
    assert_eq!(index.index_time, time(2023, 12, 1));
}

#[test]
fn index_time_is_latest_partition_time() {
    let refs = vec![
        mft(1, 0x01, 1, time(2024, 3, 1)),
        mft(2, 0x01, 1, time(2024, 2, 1)),
        mft(3, 0x02, 1, time(2024, 5, 1)),
        mft(4, 0xff, 1, time(2023, 1, 1)),
    ];
    let index = ResolvedErikIndex::from_manifests(SCOPE.to_vec(), &refs).unwrap();
    assert_eq!(index.partitions[0x01].as_ref().unwrap().partition_time, time(2024, 2, 1));
    assert_eq!(index.partitions[0x02].as_ref().unwrap().partition_time, time(2024, 5, 1));
    assert_eq!(index.partitions[0xff].as_ref().unwrap().partition_time, time(2023, 1, 1));
    assert_eq!(index.index_time, time(2024, 5, 1));
    for k in 0..256usize {
        if let Some(p) = &index.partitions[k] {
            for r in &p.manifest_refs {
                assert_eq!(r.aki[0] as usize, k);
            }
        }
    }
}

#[test]
fn no_manifests_no_index() {
    assert!(ResolvedErikIndex::from_manifests(SCOPE.to_vec(), &vec![]).is_none());
}

#[test]
fn partition_key_is_first_aki_octet() {
    assert_eq!(ErikPartitionKey::from_manifest_ref(&mft(1, 0x7a, 1, time(2024, 1, 1))), ErikPartitionKey(0x7a));
}

#[test]
fn erik_index_encode() {
    let refs = vec![
        mft(1, 0x01, 1, time(2024, 3, 1)),
        mft(2, 0x02, 1, time(2024, 2, 1)),
        mft(3, 0x03, 1, time(2024, 5, 1)),
    ];
    let resolved = ResolvedErikIndex::from_manifests(SCOPE.to_vec(), &refs).unwrap();
    let index = ErikIndex::from_resolved(&resolved).unwrap();
    assert_eq!(index.partitions.len(), 3);
    for w in index.partitions.windows(2) {
        assert!(w[0].hash < w[1].hash);
    }
    for k in [1usize, 2, 3] {
        let bytes = ErikPartitionEncoder::from_partition(resolved.partitions[k].as_ref().unwrap()).to_captured();
        let digest = rpki::rrdp::Hash::from_data(&bytes).as_slice().to_vec();
        let r = index.partitions.iter().find(|r| r.hash == digest).unwrap();
        assert_eq!(r.size as usize, bytes.len());
    }
    let encoded = index.encode();
    let decoded = ErikIndex::decode(&encoded).unwrap();
    assert_eq!(decoded.index_time, time(2024, 5, 1));
    assert_eq!(decoded.index_scope, SCOPE.to_vec());
    assert_eq!(decoded.partitions.len(), 3);
}

#[test]
fn non_ascii_scope_gives_no_index() {
    let refs = vec![mft(1, 0x01, 1, time(2024, 3, 1))];
    let resolved = ResolvedErikIndex::from_manifests(vec![0xc3, 0xa9], &refs).unwrap();
    assert!(ErikIndex::from_resolved(&resolved).is_none());
}

#[test]
fn served_view_holds_every_partition_of_the_index() {
    let mut state = bomans::rrdp::RrdpState::create(b"https://example.net/n.xml".to_vec(), None, 1, 1, vec![]);
    state.manifests = vec![mft(1, 0x01, 1, time(2024, 3, 1)), mft(2, 0x02, 1, time(2024, 2, 1))];
    let view = bomans::rrdp::build_view(&state, SCOPE);
    let (scope, bytes) = view.index.unwrap();
    assert_eq!(scope, SCOPE.to_vec());
    let index = ErikIndex::decode(&bytes).unwrap();
    assert_eq!(index.partitions.len(), 2);
    for r in &index.partitions {
        let obj = view.store.get(&r.hash).unwrap();
        assert_eq!(obj.data.len(), r.size as usize);
    }
}
