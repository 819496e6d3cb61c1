use agate::paths::{resolve_path, Resolution};
use agate::rules::{config_location, parse_rules, FileOptions, PresetMeta};
use agate::respond::hidden_verdict;
use agate::urlinfo::validate_request_line;

#[test]
fn rules_parse_and_classify() {
    let rs = parse_rules("a.txt:text/plain\n# comment\n\nb.gmi:;lang=en\nc.txt:20 text/x\nno colon line\n");
    match rs.lookup(&"a.txt".to_string()) {
        Some(PresetMeta::FullMime(m)) => assert_eq!(m, "text/plain"),
        _ => panic!("expected a full MIME override"),
    }
    match rs.lookup(&"b.gmi".to_string()) {
        Some(PresetMeta::Parameters(p)) => assert_eq!(p, ";lang=en"),
        _ => panic!("expected extra parameters"),
    }
    match rs.lookup(&"c.txt".to_string()) {
        Some(PresetMeta::FullHeader(status, meta)) => {
            assert_eq!(*status, 20);
            assert_eq!(meta, "text/x");
        },
        _ => panic!("expected a full header override"),
    }
    assert!(rs.lookup(&"missing".to_string()).is_none());
    assert!(rs.lookup(&"no colon line".to_string()).is_none());
}

#[test]
fn last_matching_rule_wins() {
    let rs = parse_rules("f:text/plain\nf:text/html\n");
    match rs.lookup(&"f".to_string()) {
        Some(PresetMeta::FullMime(m)) => assert_eq!(m, "text/html"),
        _ => panic!("expected a full MIME override"),
    }
}

#[test]
fn first_population_is_kept() {
    let mut fo = FileOptions::new(PresetMeta::Parameters(String::new()), false);
    let key = "content/docs".to_string();
    assert!(!fo.is_loaded(&key));
    let first = "x:text/plain\n".to_string();
    fo.load(&key, Some(&first));
    assert!(fo.is_loaded(&key));
    let second = "x:text/html\n".to_string();
    fo.load(&key, Some(&second));
    match fo.lookup(&key, &"x".to_string()) {
        PresetMeta::FullMime(m) => assert_eq!(m, "text/plain"),
        _ => panic!("expected the first parse to stand"),
    }
}

#[test]
fn missing_source_means_default() {
    let mut fo = FileOptions::new(PresetMeta::Parameters(";lang=de".to_string()), false);
    let key = "content".to_string();
    fo.load(&key, None);
    match fo.lookup(&key, &"anything".to_string()) {
        PresetMeta::Parameters(p) => assert_eq!(p, ";lang=de"),
        _ => panic!("expected the default override"),
    }
    assert!(!fo.has_rule(&key, &"anything".to_string()));
}

#[test]
fn rule_presence_is_exact() {
    let mut fo = FileOptions::new(PresetMeta::Parameters(String::new()), false);
    let key = "content".to_string();
    let text = ".secret:text/plain\n".to_string();
    fo.load(&key, Some(&text));
    assert!(fo.has_rule(&key, &".secret".to_string()));
    assert!(!fo.has_rule(&key, &"secret".to_string()));
}

fn resolved(line: &[u8]) -> agate::paths::PathModel {
    let url = validate_request_line(line, &Vec::new(), 1965).ok().unwrap();
    match resolve_path(&"content".to_string(), false, &url) {
        Resolution::Resolved(p, _) => p,
        _ => panic!("expected a resolved path"),
    }
}

#[test]
fn decentral_location_is_the_directory() {
    let p = resolved(b"gemini://example.org/docs/file.txt");
    let (key, name) = config_location(&p, false);
    assert_eq!(key, "content/docs");
    assert_eq!(name, "file.txt");
}

#[test]
fn central_location_is_the_root() {
    let p = resolved(b"gemini://example.org/docs/file.txt");
    let (key, name) = config_location(&p, true);
    assert_eq!(key, "content");
    assert_eq!(name, "docs/file.txt");
}

#[test]
fn leading_zero_status_is_not_a_header() {
    let rs = parse_rules("f:05 odd
");
    match rs.lookup(&"f".to_string()) {
        Some(PresetMeta::FullMime(m)) => assert_eq!(m, "05 odd"),
        _ => panic!("expected a full MIME override"),
    }
}

#[test]
fn dotted_name_with_override_is_served() {
    let url = validate_request_line(b"gemini://example.org/.hidden", &Vec::new(), 1965)
        .ok()
        .unwrap();
    let (path, dotted) = match resolve_path(&"content".to_string(), false, &url) {
        Resolution::Resolved(p, d) => (p, d),
        _ => panic!("expected a resolved path"),
    };
    assert!(dotted);
    let mut fo = FileOptions::new(PresetMeta::Parameters(String::new()), false);
    let (key, name) = config_location(&path, false);
    let text = ".hidden:text/plain\n".to_string();
    fo.load(&key, Some(&text));
    let has_rule = fo.has_rule(&key, &name);
    assert!(has_rule);
    assert!(!hidden_verdict(false, has_rule, dotted));
    assert!(hidden_verdict(false, false, dotted));
}
