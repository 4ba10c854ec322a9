use sexpfmt::format_form;
use sexpfmt::parse_document;
use sexpfmt::print_sexp;
use sexpfmt::render;
use sexpfmt::Loc;
use sexpfmt::SExp;

#[test]
fn test_render_monoline_fits() {
    // A list narrower than the margin stays on one line.
    let trees = parse_document("(a b c)".to_string()).unwrap();
    assert_eq!(render(&trees, 80), "(a b c)");
    let trees = parse_document("(a (b c) [])".to_string()).unwrap();
    assert_eq!(render(&trees, 80), "(a (b c) [])");
}

#[test]
fn test_render_normalizes_whitespace() {
    let trees = parse_document("( a   b\n\tc )".to_string()).unwrap();
    assert_eq!(render(&trees, 80), "(a b c)");
}

#[test]
fn test_render_breaks_wide_list() {
    // Single-line width 26 > margin 20: every element on its own line,
    // indented two columns past the enclosing list.
    let trees = parse_document("(aaaa bbbb cccc dddd eeee)".to_string()).unwrap();
    assert_eq!(render(&trees, 20), "(aaaa\n  bbbb\n  cccc\n  dddd\n  eeee)");
}

#[test]
fn test_render_padding_for_multiline_first_element() {
    // The first element itself breaks: one space of padding inside each
    // bookend of the enclosing list.
    let trees = parse_document("((this is a long list) arg1 arg2)".to_string()).unwrap();
    assert_eq!(
        render(&trees, 20),
        "( (this\n    is\n    a\n    long\n    list)\n  arg1\n  arg2 )"
    );
}

#[test]
fn test_render_no_padding_for_multiline_later_element() {
    // Only the first element decides the padding; a later multiline element
    // adds none.
    let trees = parse_document("(arg1 arg2 (this is a long list))".to_string()).unwrap();
    assert_eq!(
        render(&trees, 20),
        "(arg1\n  arg2\n  (this\n    is\n    a\n    long\n    list))"
    );
}

#[test]
fn test_render_bookend_styles_kept() {
    let trees = parse_document("(a b) [a b] {a b} () [] {}".to_string()).unwrap();
    assert_eq!(render(&trees, 80), "(a b)\n[a b]\n{a b}\n()\n[]\n{}");
}

#[test]
fn test_render_string_atom_verbatim() {
    let s = r#""he said \"hi\"""#;
    let trees = parse_document(s.to_string()).unwrap();
    assert_eq!(render(&trees, 80), s);
}

#[test]
fn test_print_sexp_default_margin() {
    let trees = parse_document("hello world".to_string()).unwrap();
    assert_eq!(print_sexp(trees), "hello\nworld");
}

#[test]
fn test_round_trip_monoline() {
    // Rendering and reparsing gives the very same trees.
    for input in [
        "(a b)",
        "[a b]",
        "{a b}",
        "()",
        "hello",
        r#"(alpha "be ta" [c {d}] ())"#,
        "; comment\n(  spaced   out )",
    ] {
        let trees: Vec<SExp> = parse_document(input.to_string()).unwrap();
        let rendered = render(&trees, 80);
        let reparsed = parse_document(rendered.clone()).unwrap();
        assert_eq!(trees, reparsed, "round trip failed for {:?} via {:?}", input, rendered);
    }
}

#[test]
fn test_round_trip_multiline() {
    // Even a broken-out rendering parses back to the same trees.
    let trees = parse_document("((this is a long list) arg1 arg2)".to_string()).unwrap();
    let rendered = render(&trees, 20);
    let reparsed = parse_document(rendered).unwrap();
    assert_eq!(trees, reparsed);
}

#[test]
fn test_render_overlong_atom_overflows() {
    // Atoms are never broken, whatever the margin.
    let trees = parse_document("averyveryverylongatom".to_string()).unwrap();
    assert_eq!(render(&trees, 5), "averyveryverylongatom");
}

#[test]
fn test_render_nested_budget_narrowing() {
    // The inner list fits the margin but not the reduced budget at its
    // depth, so only the inner list breaks.
    let trees = parse_document("(aa (bb cc))".to_string()).unwrap();
    assert_eq!(render(&trees, 11), "(aa\n  (bb cc))");
    assert_eq!(render(&trees, 12), "(aa (bb cc))");
}

#[test]
fn test_format_form_pipeline() {
    let out = format_form("( a   b )".to_string(), Loc::new(0, 1, 1)).unwrap();
    assert_eq!(out, "(a b)");
    let err = format_form("(a".to_string(), Loc::new(0, 1, 1));
    assert!(err.is_err());
}
