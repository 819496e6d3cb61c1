use agate::reqline::{FeedOutcome, RequestBuffer};

#[test]
fn overlong_line_is_refused() {
    let mut rb = RequestBuffer::new();
    let chunk = vec![b'a'; 1024];
    assert!(matches!(rb.feed(&chunk), FeedOutcome::Again));
    assert_eq!(rb.space_left(), 2);
    assert!(matches!(rb.feed(&[b'b', b'c']), FeedOutcome::Again));
    assert_eq!(rb.space_left(), 0);
    assert!(matches!(rb.feed(&[]), FeedOutcome::Malformed));
}

#[test]
fn line_within_cap_is_returned() {
    let mut rb = RequestBuffer::new();
    match rb.feed(b"gemini://example.org/\r\n") {
        FeedOutcome::Line(l) => assert_eq!(l, b"gemini://example.org/"),
        _ => panic!("expected a complete line"),
    }
}

#[test]
fn terminator_must_end_the_buffer() {
    let mut rb = RequestBuffer::new();
    assert!(matches!(rb.feed(b"a\r\nb"), FeedOutcome::Again));
}

#[test]
fn eof_without_terminator_fails() {
    let mut rb = RequestBuffer::new();
    assert!(matches!(rb.feed(b"gemini://example.org/"), FeedOutcome::Again));
    assert!(matches!(rb.feed(&[]), FeedOutcome::Malformed));
}

#[test]
fn split_read_completes() {
    let mut rb = RequestBuffer::new();
    assert!(matches!(rb.feed(b"gemini://x/\r"), FeedOutcome::Again));
    match rb.feed(b"\n") {
        FeedOutcome::Line(l) => assert_eq!(l, b"gemini://x/"),
        _ => panic!("expected a complete line"),
    }
}

#[test]
fn longest_legal_line_fits_exactly() {
    let mut rb = RequestBuffer::new();
    let chunk = vec![b'a'; 1024];
    assert!(matches!(rb.feed(&chunk), FeedOutcome::Again));
    match rb.feed(b"\r\n") {
        FeedOutcome::Line(l) => assert_eq!(l.len(), 1024),
        _ => panic!("expected a complete line"),
    }
}

#[test]
fn one_byte_over_the_limit_cannot_complete() {
    let mut rb = RequestBuffer::new();
    let chunk = vec![b'a'; 1025];
    assert!(matches!(rb.feed(&chunk), FeedOutcome::Again));
    assert_eq!(rb.space_left(), 1);
    assert!(matches!(rb.feed(b"\r"), FeedOutcome::Again));
    assert_eq!(rb.space_left(), 0);
    assert!(matches!(rb.feed(&[]), FeedOutcome::Malformed));
}
