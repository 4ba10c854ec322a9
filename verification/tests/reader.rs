use sexpfmt::FormReader;
use sexpfmt::SExpBookendStyle;
use sexpfmt::SexpfmtError;

fn forms_of(input: &str) -> Vec<String> {
    let mut r = FormReader::new(input.as_bytes().to_vec());
    let mut out: Vec<String> = Vec::new();
    while let Some((s, _)) = r.get().unwrap() {
        out.push(s);
    }
    out
}

#[test]
fn test_form_reader_1() {
    assert_eq!(forms_of("()"), vec!["()".to_string()]);
}

#[test]
fn test_form_reader_2() {
    assert_eq!(forms_of("[]"), vec!["[]".to_string()]);
}

#[test]
fn test_form_reader_3() {
    assert_eq!(forms_of("{}"), vec!["{}".to_string()]);
}

#[test]
fn test_form_reader_4() {
    assert_eq!(forms_of("(a b c ())"), vec!["(a b c ())".to_string()]);
}

#[test]
fn test_form_reader_5() {
    assert_eq!(
        forms_of("(a b c ()) (1 2 3)"),
        vec!["(a b c ())".to_string(), "(1 2 3)".to_string()]
    );
}

#[test]
fn test_form_reader_6() {
    assert_eq!(
        forms_of("1 2 3"),
        vec!["1".to_string(), "2".to_string(), "3".to_string()]
    );
}

#[test]
fn test_form_reader_position_tracking() {
    let input = "hello\n(world\n  foo)\nbar";
    let mut r = FormReader::new(input.as_bytes().to_vec());

    // First form: "hello" at line 1, column 1
    let result = r.get().unwrap().unwrap();
    assert_eq!(result.0, "hello");
    assert_eq!(result.1.line(), 1);
    assert_eq!(result.1.column(), 1);
    assert_eq!(result.1.offset(), 0);

    // Second form: "(world\n  foo)" at line 2, column 1
    let result = r.get().unwrap().unwrap();
    assert_eq!(result.0, "(world\n  foo)");
    assert_eq!(result.1.line(), 2);
    assert_eq!(result.1.column(), 1);
    assert_eq!(result.1.offset(), 6);

    // Third form: "bar" at line 4, column 1
    let result = r.get().unwrap().unwrap();
    assert_eq!(result.0, "bar");
    assert_eq!(result.1.line(), 4);
    assert_eq!(result.1.column(), 1);
    assert_eq!(result.1.offset(), 20);

    // EOF
    assert_eq!(r.get().unwrap(), None);
}

#[test]
fn test_form_reader_atom_ending_position() {
    // Test atom ending with whitespace vs EOF
    let input = "atom1 atom2";
    let mut r = FormReader::new(input.as_bytes().to_vec());

    // First atom: "atom1" at line 1, column 1
    let result = r.get().unwrap().unwrap();
    assert_eq!(result.0, "atom1");
    assert_eq!(result.1.line(), 1);
    assert_eq!(result.1.column(), 1);
    assert_eq!(result.1.offset(), 0);

    // Second atom: "atom2" at line 1, column 7 (after "atom1 ")
    let result = r.get().unwrap().unwrap();
    assert_eq!(result.0, "atom2");
    assert_eq!(result.1.line(), 1);
    assert_eq!(result.1.column(), 7);
    assert_eq!(result.1.offset(), 6);

    // EOF
    assert_eq!(r.get().unwrap(), None);
}

#[test]
fn test_mismatched_bookends_position() {
    let mut r = FormReader::new("(a]".as_bytes().to_vec());
    match r.get() {
        Err(SexpfmtError::MismatchedBookends { position, got, expected }) => {
            assert_eq!(position.offset(), 2);
            assert_eq!(got, SExpBookendStyle::SquareBrackets);
            assert_eq!(expected, SExpBookendStyle::Parentheses);
        }
        other => panic!("Expected MismatchedBookends, got: {:?}", other),
    }
}

#[test]
fn test_unexpected_eof_count() {
    let mut r = FormReader::new("(a (b".as_bytes().to_vec());
    match r.get() {
        Err(SexpfmtError::UnexpectedEof { position, unclosed_count }) => {
            assert_eq!(unclosed_count, 2);
            assert_eq!(position.offset(), 0);
        }
        other => panic!("Expected UnexpectedEof, got: {:?}", other),
    }
}

#[test]
fn test_bare_closing_bookend() {
    let mut r = FormReader::new("] x".as_bytes().to_vec());
    match r.get() {
        Err(SexpfmtError::InvalidInput { message, position }) => {
            assert_eq!(message, "Unexpected closing bookend SquareBrackets");
            assert_eq!(position.offset(), 0);
        }
        other => panic!("Expected InvalidInput, got: {:?}", other),
    }
}

#[test]
fn test_invalid_utf8_atom() {
    let mut r = FormReader::new(vec![0xff, 0xfe]);
    match r.get() {
        Err(SexpfmtError::FormReader { message, position }) => {
            assert_eq!(message, "Invalid UTF-8 in atom");
            assert_eq!(position.unwrap().offset(), 0);
        }
        other => panic!("Expected FormReader error, got: {:?}", other),
    }
}

#[test]
fn test_invalid_utf8_list() {
    let mut r = FormReader::new(vec![b'(', 0xff, b')']);
    match r.get() {
        Err(SexpfmtError::FormReader { message, position }) => {
            assert_eq!(message, "Invalid UTF-8 in list");
            assert_eq!(position.unwrap().offset(), 0);
        }
        other => panic!("Expected FormReader error, got: {:?}", other),
    }
}

#[test]
fn test_non_ascii_atom_decoded() {
    let mut r = FormReader::new("h\u{e9}llo suit\u{e9}".as_bytes().to_vec());
    let first = r.get().unwrap().unwrap();
    assert_eq!(first.0, "h\u{e9}llo");
    let second = r.get().unwrap().unwrap();
    assert_eq!(second.0, "suit\u{e9}");
    // Positions count bytes: the two-byte character shifts the second atom.
    assert_eq!(second.1.offset(), 7);
    assert_eq!(r.get().unwrap(), None);
}
