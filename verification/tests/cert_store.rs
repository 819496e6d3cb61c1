use agate::certs::{CertEntry, CertLoadError, CertStore};

fn entry(host: &str) -> CertEntry {
    CertEntry {
        hostname: host.to_string(),
        chain: vec![vec![0x30, 0x82]],
        key_der: vec![0x30, 0x81],
    }
}

#[test]
fn empty_root_is_distinguished() {
    match CertStore::build(Vec::new()) {
        Err(CertLoadError::Empty) => {},
        _ => panic!("expected the empty condition"),
    }
}

#[test]
fn domains_match_case_insensitively() {
    let store = CertStore::build(vec![entry("example.org")]).ok().unwrap();
    assert!(store.has_domain("example.org"));
    assert!(store.has_domain("Example.ORG"));
    assert!(!store.has_domain("other.org"));
}

#[test]
fn sni_selects_the_matching_entry() {
    let store = CertStore::build(vec![entry("a.example"), entry("b.example")]).ok().unwrap();
    let sni = "b.example".to_string();
    let e = store.resolve(Some(&sni), false).expect("must match");
    assert_eq!(e.hostname, "b.example");
}

#[test]
fn single_site_falls_back_to_first_entry() {
    let store = CertStore::build(vec![entry("a.example"), entry("b.example")]).ok().unwrap();
    let sni = "stranger.example".to_string();
    let e = store.resolve(Some(&sni), true).expect("single-site fallback");
    assert_eq!(e.hostname, "a.example");
    let e = store.resolve(None, true).expect("single-site fallback");
    assert_eq!(e.hostname, "a.example");
}

#[test]
fn multi_site_aborts_without_match() {
    let store = CertStore::build(vec![entry("a.example")]).ok().unwrap();
    let sni = "stranger.example".to_string();
    assert!(store.resolve(Some(&sni), false).is_none());
    assert!(store.resolve(None, false).is_none());
}
