use journal_front::decode::parse_utf8;
use journal_front::error::{Error, ErrorKind};
use journal_front::files::Span;

fn decode(bytes: &[u8]) -> (String, Vec<Error>) {
    let mut errors: Vec<Error> = Vec::new();
    let text = parse_utf8(bytes.to_vec(), 0, &mut errors);
    (text, errors)
}

fn invalid_bytes(error: &Error) -> &[u8] {
    match &error.kind {
        ErrorKind::InvalidUtf8 { bytes } => bytes,
        other => panic!("expected an InvalidUtf8 diagnostic, got {:?}", other),
    }
}

#[test]
fn valid_ascii_decodes_cleanly() {
    let (text, errors) = decode(b"journal 2024\n");
    assert_eq!(text, "journal 2024\n");
    assert!(errors.is_empty());
}

#[test]
fn valid_multibyte_decodes_cleanly() {
    let (text, errors) = decode("żółw\u{2028}💖".as_bytes());
    assert_eq!(text, "żółw\u{2028}💖");
    assert!(errors.is_empty());
}

#[test]
fn empty_input_decodes_to_empty_text() {
    let (text, errors) = decode(b"");
    assert_eq!(text, "");
    assert!(errors.is_empty());
}

#[test]
fn stray_byte_yields_one_replacement() {
    let (text, errors) = decode(&[0x61, 0xff, 0x62]);
    assert_eq!(text, "a\u{FFFD}b");
    assert_eq!(errors.len(), 1);
    assert_eq!(invalid_bytes(&errors[0]), &[0xff]);
    let location = errors[0].location.expect("the diagnostic has a span");
    assert_eq!(location.file_index, 0);
    // The span covers the replacement character's bytes in the output text.
    assert_eq!(location.span, Span { start: 1, end: 4 });
}

#[test]
fn truncated_tail_is_one_run() {
    let (text, errors) = decode(&[0xe2, 0x82]);
    assert_eq!(text, "\u{FFFD}");
    assert_eq!(errors.len(), 1);
    assert_eq!(invalid_bytes(&errors[0]), &[0xe2, 0x82]);
}

#[test]
fn lead_byte_with_bad_continuation() {
    let (text, errors) = decode(&[0xc3, 0x28]);
    assert_eq!(text, "\u{FFFD}(");
    assert_eq!(errors.len(), 1);
    assert_eq!(invalid_bytes(&errors[0]), &[0xc3]);
}

#[test]
fn overlong_encoding_is_rejected_byte_by_byte() {
    let (text, errors) = decode(&[0xe0, 0x80, 0x41]);
    assert_eq!(text, "\u{FFFD}\u{FFFD}A");
    assert_eq!(errors.len(), 2);
    assert_eq!(invalid_bytes(&errors[0]), &[0xe0]);
    assert_eq!(invalid_bytes(&errors[1]), &[0x80]);
    assert_eq!(errors[0].location.unwrap().span, Span { start: 0, end: 3 });
    assert_eq!(errors[1].location.unwrap().span, Span { start: 3, end: 6 });
}

#[test]
fn surrogate_encoding_is_rejected() {
    let (text, errors) = decode(&[0xed, 0xa0, 0x80]);
    assert_eq!(text, "\u{FFFD}\u{FFFD}\u{FFFD}");
    assert_eq!(errors.len(), 3);
}

#[test]
fn no_bytes_are_dropped_across_mixed_input() {
    // Valid runs keep their order around the replacement characters.
    let (text, errors) = decode(&[b'x', 0xf0, 0x9f, b'y', 0xc2, 0xa9, 0xfe]);
    assert_eq!(text, "x\u{FFFD}y©\u{FFFD}");
    assert_eq!(errors.len(), 2);
    assert_eq!(invalid_bytes(&errors[0]), &[0xf0, 0x9f]);
    assert_eq!(invalid_bytes(&errors[1]), &[0xfe]);
}
