use sexpfmt::parse_document;
use sexpfmt::parse_form;
use sexpfmt::Loc;
use sexpfmt::SExp;
use sexpfmt::SExpBookendStyle;
use sexpfmt::SexpfmtError;

#[test]
fn test_parse_atom_1() {
    let position = Loc::new(0, 1, 1);
    assert_eq!(
        parse_form("; a simple message\nhello world".to_string(), position).unwrap(),
        vec![
            SExp::Atom("hello".to_string()),
            SExp::Atom("world".to_string()),
        ]
    );
}

#[test]
fn test_parse_atom_2() {
    let position = Loc::new(0, 1, 1);
    assert_eq!(
        parse_form("1234 .567 123.9870".to_string(), position).unwrap(),
        vec![
            SExp::Atom("1234".to_string()),
            SExp::Atom(".567".to_string()),
            SExp::Atom("123.9870".to_string()),
        ]
    );
}

#[test]
fn test_parse_atom_3() {
    let s = r#""this is a string literal\ncomplete with \"escape sequences\"!""#;
    let position = Loc::new(0, 1, 1);
    assert_eq!(
        parse_form(s.to_string(), position).unwrap(),
        vec![SExp::Atom(s.to_string())]
    );
}

#[test]
fn test_parse_atom_4() {
    let s = r#"#\space"#;
    let position = Loc::new(0, 1, 1);
    assert_eq!(
        parse_form(s.to_string(), position).unwrap(),
        vec![SExp::Atom(s.to_string())]
    );
}

#[test]
fn test_parse_atom_5() {
    let position = Loc::new(0, 1, 1);
    assert_eq!(
        parse_form("()".into(), position.clone()).unwrap(),
        vec![SExp::Null(SExpBookendStyle::Parentheses)]
    );
    assert_eq!(
        parse_form("[]".into(), position.clone()).unwrap(),
        vec![SExp::Null(SExpBookendStyle::SquareBrackets)]
    );
    assert_eq!(
        parse_form("{}".into(), position.clone()).unwrap(),
        vec![SExp::Null(SExpBookendStyle::CurlyBraces)]
    );
}

#[test]
fn test_parse_list_1() {
    let s = r#"(hello world) [hello world] {hello world}"#;
    let e = vec![SExp::Atom("hello".into()), SExp::Atom("world".into())];
    let position = Loc::new(0, 1, 1);
    assert_eq!(
        parse_form(s.to_string(), position).unwrap(),
        vec![
            SExp::List(e.clone(), SExpBookendStyle::Parentheses),
            SExp::List(e.clone(), SExpBookendStyle::SquareBrackets),
            SExp::List(e.clone(), SExpBookendStyle::CurlyBraces),
        ]
    );
}

#[test]
fn test_parse_error_with_location() {
    let position = Loc::new(10, 2, 5);

    // Test invalid syntax that should produce a parse error
    let result = parse_form("(hello &invalid".to_string(), position);
    assert!(result.is_err());

    if let Err(SexpfmtError::Parse {
        message: _,
        position: error_pos,
    }) = result
    {
        // Error should be at or near the original position
        assert!(error_pos.line() >= 2);
        assert!(error_pos.offset() >= 10);
    } else {
        panic!("Expected Parse error, got: {:?}", result);
    }
}

#[test]
fn test_parse_leftover_message() {
    let result = parse_document("(a".to_string());
    match result {
        Err(SexpfmtError::Parse { message, position }) => {
            assert_eq!(message, "Unexpected input: '(a'");
            assert_eq!(position.offset(), 0);
            assert_eq!(position.line(), 1);
            assert_eq!(position.column(), 1);
        }
        other => panic!("Expected Parse error, got: {:?}", other),
    }
}

#[test]
fn test_bracket_kinds_distinct() {
    let round = parse_document("(a b)".to_string()).unwrap();
    let square = parse_document("[a b]".to_string()).unwrap();
    assert_ne!(round, square);
    match &round[0] {
        SExp::List(_, style) => assert_eq!(*style, SExpBookendStyle::Parentheses),
        other => panic!("Expected a list, got: {:?}", other),
    }
    match &square[0] {
        SExp::List(_, style) => assert_eq!(*style, SExpBookendStyle::SquareBrackets),
        other => panic!("Expected a list, got: {:?}", other),
    }
}

#[test]
fn test_comments_transparent() {
    let with_comment = parse_document("; note\nhello".to_string()).unwrap();
    let without = parse_document("hello".to_string()).unwrap();
    assert_eq!(with_comment, without);
    assert_eq!(with_comment, vec![SExp::Atom("hello".to_string())]);
}

#[test]
fn test_escaped_quote_atom() {
    let s = r#""he said \"hi\"""#;
    let trees = parse_document(s.to_string()).unwrap();
    assert_eq!(trees, vec![SExp::Atom(s.to_string())]);
}

#[test]
fn test_nonempty_skip() {
    assert_eq!(sexpfmt::nonempty_skip("  ; c\nx", 0), Some(6));
    assert_eq!(sexpfmt::nonempty_skip("x y", 1), Some(2));
    assert_eq!(sexpfmt::nonempty_skip("x", 0), None);
    assert_eq!(sexpfmt::nonempty_skip("; to the end", 0), Some(12));
}

#[test]
fn test_empty_and_trailing_input() {
    let no_trees: Vec<SExp> = Vec::new();
    assert_eq!(parse_document("".to_string()).unwrap(), no_trees);
    assert_eq!(parse_document("; only a comment".to_string()).unwrap(), no_trees);
    assert_eq!(parse_document("  \t\n".to_string()).unwrap(), no_trees);
    assert_eq!(
        parse_document("a \n".to_string()).unwrap(),
        vec![SExp::Atom("a".to_string())]
    );
    assert_eq!(sexpfmt::render(&no_trees, 80), "");
}

#[test]
fn test_clone_deep() {
    let tree = parse_document("(a (b c) [] \"d\")".to_string()).unwrap();
    let copy = tree.clone();
    assert_eq!(tree, copy);
}
