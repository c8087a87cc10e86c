use felix_flow::parser::parse;

fn check(input: &str, expected_tree: &str) {
    let p = parse(input);
    assert_eq!(p.debug_tree(), expected_tree);
}

#[test]
fn parser_parse_nothing() {
    check("", "Root@0..0");
    assert_eq!(parse("").errors.len(), 0);
}

#[test]
fn parse_whitespace() {
    check(
        "   ",
        "Root@0..3\n  Whitespace@0..3 \"   \"",
    );
}

#[test]
fn parse_comment() {
    check(
        "# hello!",
        "Root@0..8\n  Comment@0..8 \"# hello!\"",
    );
}

#[test]
fn parse_number_literal() {
    check(
        "123",
        "Root@0..3\n  Literal@0..3\n    Number@0..3 \"123\"",
    );
}

#[test]
fn parse_variable_reference() {
    check(
        "abc",
        "Root@0..3\n  VariableRef@0..3\n    Ident@0..3 \"abc\"",
    );
}

#[test]
fn parse_simple_infix_expression() {
    check(
        "1+2",
        "Root@0..3\n  InfixExpr@0..3\n    Literal@0..1\n      Number@0..1 \"1\"\n    Plus@1..2 \"+\"\n    Literal@2..3\n      Number@2..3 \"2\"",
    );
}

#[test]
fn left_associative_infix_expressions() {
    check(
        "1+2+3+4",
        "Root@0..7\n  InfixExpr@0..7\n    InfixExpr@0..5\n      InfixExpr@0..3\n        Literal@0..1\n          Number@0..1 \"1\"\n        Plus@1..2 \"+\"\n        Literal@2..3\n          Number@2..3 \"2\"\n      Plus@3..4 \"+\"\n      Literal@4..5\n        Number@4..5 \"3\"\n    Plus@5..6 \"+\"\n    Literal@6..7\n      Number@6..7 \"4\"",
    );
}

#[test]
fn infix_expression_with_mixed_binding_power() {
    check(
        "1+2*3-4",
        "Root@0..7\n  InfixExpr@0..7\n    InfixExpr@0..5\n      Literal@0..1\n        Number@0..1 \"1\"\n      Plus@1..2 \"+\"\n      InfixExpr@2..5\n        Literal@2..3\n          Number@2..3 \"2\"\n        Star@3..4 \"*\"\n        Literal@4..5\n          Number@4..5 \"3\"\n    Minus@5..6 \"-\"\n    Literal@6..7\n      Number@6..7 \"4\"",
    );
}

#[test]
fn parse_negated_number() {
    check(
        "-10",
        "Root@0..3\n  PrefixExpr@0..3\n    Minus@0..1 \"-\"\n    Literal@1..3\n      Number@1..3 \"10\"",
    );
}

#[test]
fn negation_binds_tighter_than_infix_operators() {
    check(
        "-20+20",
        "Root@0..6\n  InfixExpr@0..6\n    PrefixExpr@0..3\n      Minus@0..1 \"-\"\n      Literal@1..3\n        Number@1..3 \"20\"\n    Plus@3..4 \"+\"\n    Literal@4..6\n      Number@4..6 \"20\"",
    );
}

#[test]
fn parenthesized_expression_overrides_precedence() {
    check(
        "5*(2+1)",
        "Root@0..7\n  InfixExpr@0..7\n    Literal@0..1\n      Number@0..1 \"5\"\n    Star@1..2 \"*\"\n    ParenExpr@2..7\n      LParen@2..3 \"(\"\n      InfixExpr@3..6\n        Literal@3..4\n          Number@3..4 \"2\"\n        Plus@4..5 \"+\"\n        Literal@5..6\n          Number@5..6 \"1\"\n      RParen@6..7 \")\"",
    );
}

#[test]
fn trivia_is_preserved_in_place() {
    check(
        "1 + 2",
        "Root@0..5\n  InfixExpr@0..5\n    Literal@0..2\n      Number@0..1 \"1\"\n      Whitespace@1..2 \" \"\n    Plus@2..3 \"+\"\n    Whitespace@3..4 \" \"\n    Literal@4..5\n      Number@4..5 \"2\"",
    );
}

#[test]
fn parse_variable_definition() {
    check(
        "let a = 10",
        "Root@0..10\n  VariableDef@0..10\n    LetKw@0..3 \"let\"\n    Whitespace@3..4 \" \"\n    Ident@4..5 \"a\"\n    Whitespace@5..6 \" \"\n    Equals@6..7 \"=\"\n    Whitespace@7..8 \" \"\n    Literal@8..10\n      Number@8..10 \"10\"",
    );
}

#[test]
fn recovery_consumes_offending_token_and_resumes() {
    let p = parse("*5");
    assert_eq!(
        p.debug_tree(),
        "Root@0..2\n  Error@0..1\n    Star@0..1 \"*\"\n  Literal@1..2\n    Number@1..2 \"5\"",
    );
    assert!(p.errors.len() >= 1);
    assert_eq!(
        p.errors[0].render(),
        "error at 0..1: expected 'let', but found '*'",
    );
}

#[test]
fn leaf_text_is_escaped_in_the_rendering() {
    let p = parse("\"");
    assert_eq!(
        p.debug_tree(),
        "Root@0..1\n  Error@0..1\n    Error@0..1 \"\\\"\"",
    );
}

#[test]
fn recovery_stops_at_statement_boundary() {
    let p = parse("let a = let b = 5");
    assert!(p.errors.len() >= 1);
    let tree = p.debug_tree();
    assert!(tree.contains("VariableDef"));
}

#[test]
fn dangling_operator_reports_an_error() {
    let p = parse("1+");
    assert!(p.errors.len() >= 1);
    let tree = p.debug_tree();
    assert!(tree.contains("InfixExpr"));
}
