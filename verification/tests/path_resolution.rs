use agate::paths::{classify_segment, extension_of, resolve_path, Resolution, SegOutcome};
use agate::respond::reply_not_found;
use agate::urlinfo::validate_request_line;

fn hosts(names: &[&str]) -> Vec<String> {
    names.iter().map(|s| s.to_string()).collect()
}

#[test]
fn encoded_separator_segment_refused() {
    assert!(matches!(classify_segment("a%2Fb"), SegOutcome::Refuse));
    assert!(matches!(classify_segment("a%2fb"), SegOutcome::Refuse));
    assert!(matches!(classify_segment("%2F"), SegOutcome::Refuse));
}

#[test]
fn special_segments_refused() {
    assert!(matches!(classify_segment("."), SegOutcome::Refuse));
    assert!(matches!(classify_segment(".."), SegOutcome::Refuse));
    assert!(matches!(classify_segment("%2E%2E"), SegOutcome::Refuse));
    assert!(matches!(classify_segment("%2e"), SegOutcome::Refuse));
}

#[test]
fn ordinary_segments_pass() {
    match classify_segment("caf%C3%A9.txt") {
        SegOutcome::Component(s) => assert_eq!(s, "caf\u{e9}.txt"),
        _ => panic!("expected a component"),
    }
    assert!(matches!(classify_segment(""), SegOutcome::Skip));
    assert!(matches!(classify_segment("..."), SegOutcome::Component(_)));
}

#[test]
fn bad_text_segment_detected() {
    assert!(matches!(classify_segment("%FF"), SegOutcome::BadText));
}

#[test]
fn embedded_separator_request_gets_not_found() {
    let url = validate_request_line(b"gemini://example.org/a%2Fb.txt", &hosts(&["example.org"]), 1965)
        .ok()
        .expect("request is well-formed");
    let root = String::from("content");
    assert!(matches!(resolve_path(&root, false, &url), Resolution::NotFound));
    let rep = reply_not_found();
    assert_eq!(rep.status, 51);
    assert_eq!(rep.meta, "Not found, sorry.");
}

#[test]
fn parser_collapses_dot_segments() {
    let url = validate_request_line(b"gemini://example.org/%2E%2E/secret", &hosts(&[]), 1965)
        .ok()
        .expect("request is well-formed");
    assert_eq!(url.path, "/secret");
    let root = String::from("content");
    match resolve_path(&root, false, &url) {
        Resolution::Resolved(p, _) => assert_eq!(p.render(), "content/secret"),
        _ => panic!("expected a resolved path"),
    }
}

#[test]
fn resolved_path_stays_under_root() {
    let url = validate_request_line(b"gemini://example.org/docs/file.txt", &hosts(&["example.org"]), 1965)
        .ok()
        .expect("request is well-formed");
    let root = String::from("content");
    match resolve_path(&root, true, &url) {
        Resolution::Resolved(p, dotted) => {
            assert!(!dotted);
            assert_eq!(p.render(), "content/example.org/docs/file.txt");
            assert_eq!(p.render_parent(), "content/example.org/docs");
            assert_eq!(p.file_name().map(|s| s.as_str()), Some("file.txt"));
        },
        _ => panic!("expected a resolved path"),
    }
}

#[test]
fn empty_segments_contribute_nothing() {
    let url = validate_request_line(b"gemini://example.org//a//", &hosts(&[]), 1965)
        .ok()
        .expect("request is well-formed");
    let root = String::from("content");
    match resolve_path(&root, false, &url) {
        Resolution::Resolved(p, _) => assert_eq!(p.render(), "content/a"),
        _ => panic!("expected a resolved path"),
    }
}

#[test]
fn dotted_segment_sets_flag() {
    let url = validate_request_line(b"gemini://example.org/.hidden", &hosts(&[]), 1965)
        .ok()
        .expect("request is well-formed");
    let root = String::from("content");
    match resolve_path(&root, false, &url) {
        Resolution::Resolved(p, dotted) => {
            assert!(dotted);
            assert_eq!(p.render(), "content/.hidden");
        },
        _ => panic!("expected a resolved path"),
    }
}

#[test]
fn extension_follows_the_last_dot() {
    assert_eq!(extension_of(&"a.gmi".to_string()).as_deref(), Some("gmi"));
    assert_eq!(extension_of(&".gmi".to_string()), None);
    assert_eq!(extension_of(&"plain".to_string()), None);
    assert_eq!(extension_of(&"a.".to_string()).as_deref(), Some(""));
    assert_eq!(extension_of(&"a.b.c".to_string()).as_deref(), Some("c"));
}
