use agate::urlinfo::{request_text, validate_request_line};

fn hosts(names: &[&str]) -> Vec<String> {
    names.iter().map(|s| s.to_string()).collect()
}

#[test]
fn wrong_scheme_refused() {
    let r = validate_request_line(b"http://example.org/", &hosts(&[]), 1965);
    let rep = r.err().expect("must be refused");
    assert_eq!(rep.status, 53);
    assert_eq!(rep.meta, "Unsupported URL scheme");
}

#[test]
fn userinfo_refused() {
    let r = validate_request_line(b"gemini://user@example.org/", &hosts(&[]), 1965);
    let rep = r.err().expect("must be refused");
    assert_eq!(rep.status, 59);
    assert_eq!(rep.meta, "URL contains fragment or userinfo");
}

#[test]
fn fragment_refused() {
    let r = validate_request_line(b"gemini://example.org/#top", &hosts(&[]), 1965);
    let rep = r.err().expect("must be refused");
    assert_eq!(rep.status, 59);
    assert_eq!(rep.meta, "URL contains fragment or userinfo");
}

#[test]
fn missing_host_refused() {
    let r = validate_request_line(b"gemini:over-here", &hosts(&[]), 1965);
    let rep = r.err().expect("must be refused");
    assert_eq!(rep.status, 59);
    assert_eq!(rep.meta, "URL does not contain a host");
}

#[test]
fn foreign_host_refused() {
    let r = validate_request_line(b"gemini://other.org/", &hosts(&["example.org"]), 1965);
    let rep = r.err().expect("must be refused");
    assert_eq!(rep.status, 53);
    assert_eq!(rep.meta, "Proxy request refused");
}

#[test]
fn wrong_port_refused() {
    let r = validate_request_line(b"gemini://example.org:1966/x", &hosts(&["example.org"]), 1965);
    let rep = r.err().expect("must be refused");
    assert_eq!(rep.status, 53);
    assert_eq!(rep.meta, "proxy request refused");
}

#[test]
fn matching_port_accepted() {
    let r = validate_request_line(b"gemini://example.org:1965/x", &hosts(&["example.org"]), 1965);
    let url = r.ok().expect("must be accepted");
    assert_eq!(url.port, Some(1965));
    assert_eq!(url.path, "/x");
}

#[test]
fn invalid_utf8_refused() {
    let r = validate_request_line(&[0xFF, 0xFE], &hosts(&[]), 1965);
    let rep = r.err().expect("must be refused");
    assert_eq!(rep.status, 59);
    assert_eq!(rep.meta, "Non-UTF-8 request");
}

#[test]
fn unparsable_url_refused() {
    let r = validate_request_line(b"not a url", &hosts(&[]), 1965);
    let rep = r.err().expect("must be refused");
    assert_eq!(rep.status, 59);
    assert_eq!(rep.meta, "Invalid URL");
}

#[test]
fn empty_allowlist_accepts_any_host() {
    let r = validate_request_line(b"gemini://whoever.example/", &hosts(&[]), 1965);
    let url = r.ok().expect("must be accepted");
    assert_eq!(url.host.as_deref(), Some("whoever.example"));
    assert_eq!(url.scheme, "gemini");
}

#[test]
fn request_text_decodes_utf8() {
    let t = request_text("gemini://caf\u{e9}/".as_bytes()).expect("valid text");
    assert_eq!(t, "gemini://caf\u{e9}/");
    assert!(request_text(&[0x80]).is_none());
}
