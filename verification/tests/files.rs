use journal_front::error::{Error, ErrorKind};
use journal_front::files::{FileLocation, FileSpan, Files, IncludeFileLocation, Span};

#[test]
fn read_registers_file_with_line_index() {
    let mut files = Files::new();
    let mut errors: Vec<Error> = Vec::new();
    let index = files.read(
        "ledger.journal",
        IncludeFileLocation::CommandLine,
        Ok(b"x\nyz\n".to_vec()),
        &mut errors,
    );
    assert_eq!(index, Ok(0));
    assert_eq!(files.file_count(), 1);
    assert!(errors.is_empty());
    assert_eq!(files.files[0].name, "ledger.journal");
    assert_eq!(files.files[0].text, "x\nyz\n");
    assert_eq!(files.files[0].line_starts, vec![0, 2]);
    assert!(matches!(
        files.files[0].include_location,
        IncludeFileLocation::CommandLine
    ));
}

#[test]
fn read_twice_fails_and_keeps_one_entry() {
    let mut files = Files::new();
    let mut errors: Vec<Error> = Vec::new();
    let first = files.read(
        "a.journal",
        IncludeFileLocation::CommandLine,
        Ok(b"one\n".to_vec()),
        &mut errors,
    );
    assert_eq!(first, Ok(0));
    let second = files.read(
        "a.journal",
        IncludeFileLocation::CommandLine,
        Ok(b"two\n".to_vec()),
        &mut errors,
    );
    assert_eq!(second, Err(()));
    // The file list holds one entry, not two, and the first text stands.
    assert_eq!(files.file_count(), 1);
    assert_eq!(files.files[0].text, "one\n");
    assert_eq!(errors.len(), 1);
    match &errors[0].kind {
        ErrorKind::FileReadTwice { file_name, previous_location } => {
            assert_eq!(file_name, "a.journal");
            assert!(matches!(previous_location, IncludeFileLocation::CommandLine));
        }
        other => panic!("expected FileReadTwice, got {:?}", other),
    }
    assert!(errors[0].location.is_none());
}

#[test]
fn missing_file_reports_read_error_without_registration() {
    let mut files = Files::new();
    let mut errors: Vec<Error> = Vec::new();
    let result = files.read(
        "missing.journal",
        IncludeFileLocation::CommandLine,
        Err("no such file".to_string()),
        &mut errors,
    );
    assert_eq!(result, Err(()));
    assert_eq!(files.file_count(), 0);
    assert_eq!(errors.len(), 1);
    match &errors[0].kind {
        ErrorKind::FileReadError { file_name, message } => {
            assert_eq!(file_name, "missing.journal");
            assert_eq!(message, "no such file");
        }
        other => panic!("expected FileReadError, got {:?}", other),
    }
}

#[test]
fn file_importing_itself_reports_read_twice_once() {
    let mut files = Files::new();
    let mut errors: Vec<Error> = Vec::new();
    let root = files.read(
        "self.journal",
        IncludeFileLocation::CommandLine,
        Ok(b"import self.journal\n".to_vec()),
        &mut errors,
    );
    assert_eq!(root, Ok(0));
    // The import statement sits inside the root file itself.
    let provenance = IncludeFileLocation::Include(FileSpan {
        file_index: 0,
        span: Span { start: 0, end: 19 },
    });
    let again = files.read(
        "self.journal",
        provenance,
        Ok(b"import self.journal\n".to_vec()),
        &mut errors,
    );
    assert_eq!(again, Err(()));
    assert_eq!(errors.len(), 1);
    match &errors[0].kind {
        ErrorKind::FileReadTwice { file_name, previous_location } => {
            assert_eq!(file_name, "self.journal");
            // The diagnostic references the provenance of the first read.
            assert!(matches!(previous_location, IncludeFileLocation::CommandLine));
        }
        other => panic!("expected FileReadTwice, got {:?}", other),
    }
    // The new provenance locates the diagnostic at the import statement.
    assert_eq!(
        errors[0].location,
        Some(FileSpan { file_index: 0, span: Span { start: 0, end: 19 } })
    );
    // The file table still holds exactly one entry for the name.
    assert_eq!(files.file_count(), 1);
    assert_eq!(files.find_name(&"self.journal".to_string()), Some(0));
}

#[test]
fn locations_are_recomputed_from_the_line_index() {
    let mut files = Files::new();
    let mut errors: Vec<Error> = Vec::new();
    let index = files.read(
        "lines.journal",
        IncludeFileLocation::CommandLine,
        Ok(b"ab\ncd\n".to_vec()),
        &mut errors,
    );
    assert_eq!(index, Ok(0));
    let file = &files.files[0];
    assert_eq!(file.line_starts, vec![0, 3]);
    assert_eq!(
        file.location_of(0),
        FileLocation { byte_index: 0, line: 1, column: 1 }
    );
    assert_eq!(
        file.location_of(2),
        FileLocation { byte_index: 2, line: 1, column: 3 }
    );
    assert_eq!(
        file.location_of(4),
        FileLocation { byte_index: 4, line: 2, column: 2 }
    );
}

#[test]
fn locations_before_the_first_line_start() {
    let mut files = Files::new();
    let mut errors: Vec<Error> = Vec::new();
    files
        .read(
            "bom.journal",
            IncludeFileLocation::CommandLine,
            Ok("\u{FEFF}x\n".as_bytes().to_vec()),
            &mut errors,
        )
        .expect("the file registers");
    let file = &files.files[0];
    // The byte-order mark starts no line; bytes inside it sit on line 1.
    assert_eq!(file.line_starts, vec![3]);
    assert_eq!(
        file.location_of(1),
        FileLocation { byte_index: 1, line: 1, column: 2 }
    );
    assert_eq!(
        file.location_of(3),
        FileLocation { byte_index: 3, line: 1, column: 1 }
    );
}

#[test]
fn decoding_diagnostics_do_not_block_registration() {
    let mut files = Files::new();
    let mut errors: Vec<Error> = Vec::new();
    let index = files.read(
        "dirty.journal",
        IncludeFileLocation::CommandLine,
        Ok(vec![b'a', 0xff, b'\n']),
        &mut errors,
    );
    assert_eq!(index, Ok(0));
    assert_eq!(files.file_count(), 1);
    assert_eq!(files.files[0].text, "a\u{FFFD}\n");
    assert_eq!(errors.len(), 1);
    match &errors[0].kind {
        ErrorKind::InvalidUtf8 { bytes } => assert_eq!(bytes, &vec![0xff]),
        other => panic!("expected InvalidUtf8, got {:?}", other),
    }
    // The invalid-byte diagnostic belongs to the newly registered file.
    assert_eq!(errors[0].location.unwrap().file_index, 0);
}
