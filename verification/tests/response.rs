use agate::respond::{
    classify_directory, file_serve_plan, header_bytes, hidden_verdict, index_fallback,
    index_file_name, log_record, reply_directory_refused, reply_secret, DirStep, FileServe,
    IndexStep,
};
use agate::rules::PresetMeta;
use agate::urlinfo::validate_request_line;
use agate::check_path;

fn url_for(line: &[u8]) -> agate::urlinfo::UrlModel {
    validate_request_line(line, &Vec::new(), 1965).ok().expect("well-formed request")
}

#[test]
fn success_header_for_native_format() {
    let h = header_bytes(20, "text/gemini");
    assert_eq!(h, b"20 text/gemini\r\n".to_vec());
}

#[test]
fn directory_without_slash_redirects() {
    let url = url_for(b"gemini://example.org/docs");
    match classify_directory(&url, true) {
        DirStep::Redirect(t) => {
            assert_eq!(t, "gemini://example.org/docs/");
            assert_eq!(header_bytes(31, &t), b"31 gemini://example.org/docs/\r\n".to_vec());
        },
        _ => panic!("expected a redirect"),
    }
}

#[test]
fn redirect_keeps_query_and_port() {
    let url = url_for(b"gemini://example.org:1965/docs?a=b");
    match classify_directory(&url, true) {
        DirStep::Redirect(t) => assert_eq!(t, "gemini://example.org:1965/docs/?a=b"),
        _ => panic!("expected a redirect"),
    }
}

#[test]
fn directory_with_slash_tries_index() {
    let url = url_for(b"gemini://example.org/docs/");
    assert!(matches!(classify_directory(&url, true), DirStep::TryIndex));
    assert!(matches!(classify_directory(&url, false), DirStep::NotDirectory));
}

#[test]
fn directory_without_index_or_marker_is_refused() {
    assert!(matches!(index_fallback(true, false), IndexStep::ServeIndex));
    assert!(matches!(index_fallback(false, true), IndexStep::List));
    assert!(matches!(index_fallback(false, false), IndexStep::Refuse));
    let rep = reply_directory_refused();
    assert_eq!(
        header_bytes(rep.status, &rep.meta),
        b"51 Directory index disabled.\r\n".to_vec()
    );
}

#[test]
fn hidden_names_refused_unless_opted_in() {
    assert!(hidden_verdict(false, false, true));
    assert!(!hidden_verdict(true, false, true));
    assert!(!hidden_verdict(false, true, true));
    assert!(!hidden_verdict(false, false, false));
    let rep = reply_secret();
    assert_eq!(rep.status, 52);
    assert_eq!(rep.meta, "If I told you, it would not be a secret.");
}

#[test]
fn index_document_name() {
    assert_eq!(index_file_name(), "index.gmi");
}

#[test]
fn full_header_short_circuits() {
    let preset = PresetMeta::FullHeader(31, "gemini://elsewhere/".to_string());
    match file_serve_plan(&preset, &"x".to_string()) {
        FileServe::Preset(rep) => {
            assert_eq!(rep.status, 31);
            assert_eq!(rep.meta, "gemini://elsewhere/");
        },
        _ => panic!("expected the preset header"),
    }
}

#[test]
fn native_extension_gets_native_type() {
    let preset = PresetMeta::Parameters(";lang=en".to_string());
    match file_serve_plan(&preset, &"index.gmi".to_string()) {
        FileServe::Open(meta) => assert_eq!(meta, "text/gemini;lang=en"),
        _ => panic!("expected an open plan"),
    }
}

#[test]
fn guessed_type_comes_from_extension() {
    let preset = PresetMeta::Parameters(String::new());
    match file_serve_plan(&preset, &"notes.txt".to_string()) {
        FileServe::Open(meta) => assert_eq!(meta, "text/plain"),
        _ => panic!("expected an open plan"),
    }
    match file_serve_plan(&preset, &"mystery".to_string()) {
        FileServe::Open(meta) => assert_eq!(meta, "application/octet-stream"),
        _ => panic!("expected an open plan"),
    }
}

#[test]
fn full_mime_stands_as_given() {
    let preset = PresetMeta::FullMime("text/html;charset=utf-8".to_string());
    match file_serve_plan(&preset, &"x.bin".to_string()) {
        FileServe::Open(meta) => assert_eq!(meta, "text/html;charset=utf-8"),
        _ => panic!("expected an open plan"),
    }
}

#[test]
fn log_record_keeps_columns() {
    let line = log_record("127.0.0.1:1965", "-", "gemini://x/", 20, "text/gemini", None);
    assert_eq!(line, "127.0.0.1:1965 - \"gemini://x/\" 20 \"text/gemini\"");
    let tag = "handshake failed".to_string();
    let line = log_record("127.0.0.1:1965", "-", "", 0, "TLS error", Some(&tag));
    assert_eq!(line, "127.0.0.1:1965 - \"\" 00 \"TLS error\" error:handshake failed");
}

#[test]
fn existing_path_passes_probe() {
    assert_eq!(check_path("/".to_string()), Ok("/".to_string()));
    assert_eq!(
        check_path("/no/such/path/anywhere".to_string()),
        Err("No such file: \"/no/such/path/anywhere\"".to_string())
    );
    assert_eq!(
        check_path("/no/such/\\quo\"ted".to_string()),
        Err("No such file: \"/no/such/\\\\quo\\\"ted\"".to_string())
    );
}
