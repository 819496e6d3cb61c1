use agate::percent::{percent_decode, percent_encode};

#[test]
fn escapes_decode_to_bytes() {
    assert_eq!(percent_decode(b"a%2Fb"), b"a/b".to_vec());
    assert_eq!(percent_decode(b"a%2fb"), b"a/b".to_vec());
    assert_eq!(percent_decode(b"caf%C3%A9"), "caf\u{e9}".as_bytes().to_vec());
}

#[test]
fn bad_escapes_stand_for_themselves() {
    assert_eq!(percent_decode(b"%"), b"%".to_vec());
    assert_eq!(percent_decode(b"%zz"), b"%zz".to_vec());
    assert_eq!(percent_decode(b"100%"), b"100%".to_vec());
    assert_eq!(percent_decode(b"%2"), b"%2".to_vec());
}

#[test]
fn plain_bytes_pass_through() {
    assert_eq!(percent_decode(b"plain-name.txt"), b"plain-name.txt".to_vec());
}

#[test]
fn link_breaking_bytes_are_escaped() {
    assert_eq!(percent_encode(b"a b"), b"a%20b".to_vec());
    assert_eq!(percent_encode(b"q?x"), b"q%3Fx".to_vec());
    assert_eq!(percent_encode(b"{x}"), b"%7Bx%7D".to_vec());
    assert_eq!(percent_encode(b"\x1F"), b"%1F".to_vec());
    assert_eq!(percent_encode("caf\u{e9}".as_bytes()), b"caf%C3%A9".to_vec());
}

#[test]
fn ordinary_bytes_are_kept() {
    assert_eq!(percent_encode(b"safe-name.gmi"), b"safe-name.gmi".to_vec());
    assert_eq!(percent_encode(b"/already/slashed"), b"/already/slashed".to_vec());
}
