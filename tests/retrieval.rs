use bomans::retrieval::{FetchMapper, Fqdn, ResolvedSource};

#[test]
fn fetch_mapper_maps_host_to_disk() {
    let uri = b"https://krill-ui-dev.do.nlnetlabs.nl/rrdp/notification.xml";
    let mut mapper = FetchMapper::new();
    mapper.add_disk_mapper(Fqdn::from_uri(uri), b"test-resources/rrdp-rev2656/".to_vec());
    match mapper.resolve(uri) {
        ResolvedSource::File(p) => assert_eq!(p, b"test-resources/rrdp-rev2656/rrdp/notification.xml".to_vec()),
        other => panic!("unexpected {other:?}"),
    }
    match mapper.resolve(b"https://KRILL-UI-DEV.do.nlnetlabs.nl/x") {
        ResolvedSource::File(p) => assert_eq!(p, b"test-resources/rrdp-rev2656/x".to_vec()),
        other => panic!("unexpected {other:?}"),
    }
}

#[test]
fn fetch_mapper_leaves_other_hosts_remote() {
    let mut mapper = FetchMapper::new();
    mapper.add_disk_mapper(Fqdn::from_uri(b"https://a.example/"), b"/srv/a".to_vec());
    match mapper.resolve(b"https://b.example/rrdp/notification.xml") {
        ResolvedSource::Uri(u) => assert_eq!(u, b"https://b.example/rrdp/notification.xml".to_vec()),
        other => panic!("unexpected {other:?}"),
    }
    match mapper.resolve(b"https://a.example/rrdp") {
        ResolvedSource::File(p) => assert_eq!(p, b"/srv/a/rrdp".to_vec()),
        other => panic!("unexpected {other:?}"),
    }
}

#[test]
fn later_mapping_replaces_earlier() {
    let mut mapper = FetchMapper::new();
    mapper.add_disk_mapper(Fqdn::from_uri(b"https://a.example/"), b"/one/".to_vec());
    mapper.add_disk_mapper(Fqdn::from_uri(b"https://A.example/"), b"/two/".to_vec());
    match mapper.resolve(b"https://a.example/f") {
        ResolvedSource::File(p) => assert_eq!(p, b"/two/f".to_vec()),
        other => panic!("unexpected {other:?}"),
    }
}

#[test]
fn fqdn_is_lowercased_authority() {
    assert_eq!(Fqdn::from_uri(b"https://Krill.Example:8443/a/b").as_bytes(), b"krill.example:8443");
    assert_eq!(Fqdn::from_uri(b"https://host").as_bytes(), b"host");
}
