use journal_front::error::{Error, ErrorKind};
use journal_front::files::Span;
use journal_front::lexer::{compute_line_starts, is_newline, Lexer, LexerMode, TokenKind};

#[test]
fn test_line_starts() {
    let test_data: &[(&str, &[usize])] = &[
        // Trivial.
        ("", &[]),
        // Regular.
        ("abc\n e\nghij\n", &[0, 4, 7]),
        // Empty lines.
        ("\n\n\n", &[0, 1, 2]),
        // Unfinished last line.
        ("abc\ndef", &[0, 4]),
        // CR LF endings.
        ("abc\r\ndef\r\n", &[0, 5]),
        // CR endings.
        ("abc\rdef\r", &[0, 4]),
        // Unicode.
        ("żółw\nż", &[0, 8]),
        // BOM
        ("\u{FEFF}abc\n", &[3]),
        // Second FEFF isn't BOM.
        ("\u{FEFF}\u{FEFF}abc\n", &[3]),
        // All kinds of endings.
        (
            "abc\nabc\rabc\r\nabc\u{B}abc\u{C}abc\u{85}abc\u{2028}abc\u{2029}abc",
            &[0, 4, 8, 13, 17, 21, 26, 32, 38],
        ),
    ];

    for &(text, expected_line_starts) in test_data {
        let line_starts = compute_line_starts(text);
        assert_eq!(line_starts, expected_line_starts);
    }
}

#[test]
fn newline_characters() {
    for c in ['\n', '\u{B}', '\u{C}', '\r', '\u{85}', '\u{2028}', '\u{2029}'] {
        assert!(is_newline(c));
    }
    for c in [' ', '\t', 'a', '\u{FEFF}', '\u{FFFD}'] {
        assert!(!is_newline(c));
    }
}

fn lex_all(text: &str) -> (Vec<TokenKind>, Vec<Error>) {
    let mut errors: Vec<Error> = Vec::new();
    let mut lexer = Lexer::new(0, text, LexerMode::Normal, &mut errors);
    let mut kinds: Vec<TokenKind> = Vec::new();
    loop {
        let token = lexer.current_token();
        kinds.push(token.token);
        if token.token == TokenKind::EndOfFile {
            break;
        }
        lexer.advance(LexerMode::Normal, &mut errors);
    }
    (kinds, errors)
}

fn count(kinds: &[TokenKind], kind: TokenKind) -> usize {
    kinds.iter().filter(|k| **k == kind).count()
}

#[test]
fn empty_file_is_just_end_of_file() {
    let (kinds, errors) = lex_all("");
    assert_eq!(kinds, vec![TokenKind::EndOfFile]);
    assert!(errors.is_empty());
}

#[test]
fn one_indented_block() {
    let (kinds, errors) = lex_all("a\n b\nc\n");
    assert_eq!(
        kinds,
        vec![
            TokenKind::EndOfLine,
            TokenKind::Indent,
            TokenKind::EndOfLine,
            TokenKind::Dedent,
            TokenKind::EndOfLine,
            TokenKind::EndOfFile,
        ]
    );
    assert!(errors.is_empty());
}

#[test]
fn indented_first_line_opens_from_base() {
    let (kinds, errors) = lex_all("  a\nb\n");
    assert_eq!(
        kinds,
        vec![
            TokenKind::Indent,
            TokenKind::EndOfLine,
            TokenKind::Dedent,
            TokenKind::EndOfLine,
            TokenKind::EndOfFile,
        ]
    );
    assert!(errors.is_empty());
}

#[test]
fn open_levels_close_at_end_of_file() {
    let (kinds, errors) = lex_all("a\n  b\n    c");
    assert_eq!(
        kinds,
        vec![
            TokenKind::EndOfLine,
            TokenKind::Indent,
            TokenKind::EndOfLine,
            TokenKind::Indent,
            TokenKind::Dedent,
            TokenKind::Dedent,
            TokenKind::EndOfFile,
        ]
    );
    assert!(errors.is_empty());
}

#[test]
fn blank_lines_do_not_participate() {
    let (kinds, errors) = lex_all("a\n\n  b\n");
    assert_eq!(
        kinds,
        vec![
            TokenKind::EndOfLine,
            TokenKind::EndOfLine,
            TokenKind::Indent,
            TokenKind::EndOfLine,
            TokenKind::Dedent,
            TokenKind::EndOfFile,
        ]
    );
    assert!(errors.is_empty());
}

#[test]
fn inconsistent_dedent_reports_and_resynchronizes() {
    let (kinds, errors) = lex_all("a\n    b\n  c\n");
    assert_eq!(
        kinds,
        vec![
            TokenKind::EndOfLine,
            TokenKind::Indent,
            TokenKind::EndOfLine,
            TokenKind::Dedent,
            TokenKind::Indent,
            TokenKind::EndOfLine,
            TokenKind::Dedent,
            TokenKind::EndOfFile,
        ]
    );
    assert_eq!(errors.len(), 1);
    assert!(matches!(errors[0].kind, ErrorKind::InconsistentIndentation));
    let location = errors[0].location.expect("the diagnostic names its line");
    assert_eq!(location.file_index, 0);
    // The measured leading whitespace of the third line.
    assert_eq!(location.span, Span { start: 8, end: 10 });
}

#[test]
fn indents_always_balance_dedents() {
    let cases = [
        "",
        "a",
        "a\n",
        "  a",
        "a\n  b\n      c\n d\n",
        "a\r\n\tb\r\nc",
        "\u{FEFF}x\n  y\n",
        "a\n    b\n  c\nd\n",
    ];
    for text in cases {
        let (kinds, _) = lex_all(text);
        assert_eq!(
            count(&kinds, TokenKind::Indent),
            count(&kinds, TokenKind::Dedent),
            "unbalanced for {:?}",
            text
        );
        assert_eq!(count(&kinds, TokenKind::EndOfFile), 1);
    }
}

#[test]
fn crlf_is_one_end_of_line_token() {
    let mut errors: Vec<Error> = Vec::new();
    let mut lexer = Lexer::new(7, "a\r\nb", LexerMode::Normal, &mut errors);
    let token = lexer.current_token();
    assert_eq!(token.token, TokenKind::EndOfLine);
    assert_eq!(token.file_span.file_index, 7);
    assert_eq!(token.file_span.span, Span { start: 1, end: 3 });
    lexer.advance(LexerMode::Normal, &mut errors);
    assert_eq!(lexer.current_token().token, TokenKind::EndOfFile);
    assert!(errors.is_empty());
}

#[test]
fn tab_advances_column_to_next_stop() {
    let mut errors: Vec<Error> = Vec::new();
    let lexer = Lexer::new(0, "\tx\n", LexerMode::Normal, &mut errors);
    // The first token is the opening Indent from the base level; the pushed
    // level measured one byte of whitespace reaching display column 9.
    assert_eq!(lexer.current_token().token, TokenKind::Indent);
    let top = lexer.indentation_levels.last().expect("stack never empty");
    assert_eq!(top.bytes, 1);
    assert_eq!(top.column, 9);
    assert!(errors.is_empty());
}

#[test]
fn end_of_file_token_repeats() {
    let mut errors: Vec<Error> = Vec::new();
    let mut lexer = Lexer::new(0, "", LexerMode::Normal, &mut errors);
    assert_eq!(lexer.current_token().token, TokenKind::EndOfFile);
    lexer.advance(LexerMode::Normal, &mut errors);
    assert_eq!(lexer.current_token().token, TokenKind::EndOfFile);
}
