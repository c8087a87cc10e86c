use felix_flow::parser::parse_error::{ParseError, TextRange};
use felix_flow::syntax::SyntaxKind;

fn check(expected: Vec<SyntaxKind>, found: Option<SyntaxKind>, start: usize, end: usize, output: &str) {
    let error = ParseError { expected, found, range: TextRange { start, end } };
    assert_eq!(error.render(), output);
}

#[test]
fn one_expected_did_find() {
    check(
        vec![SyntaxKind::Equals],
        Some(SyntaxKind::Ident),
        10,
        20,
        "error at 10..20: expected '=', but found identifier",
    );
}

#[test]
fn one_expected_did_not_find() {
    check(vec![SyntaxKind::RParen], None, 5, 6, "error at 5..6: expected ')'");
}
