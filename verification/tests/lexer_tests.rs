use felix_flow::lexer::lex;
use felix_flow::syntax::FelixFlowLanguage;
use felix_flow::lexer::token_kind::TokenKind;
use felix_flow::syntax::SyntaxKind;

fn check(input: &str, kind: TokenKind) {
    let tokens = lex(input);
    assert_eq!(tokens.len(), 1);
    assert_eq!(tokens[0].kind, kind);
    assert_eq!(tokens[0].text, input);
    assert_eq!(tokens[0].start, 0);
}

#[test]
fn lexer_lex_spaces() {
    check("  ", TokenKind::Whitespace);
}

#[test]
fn lexer_lex_space_and_newlines() {
    check("  \n", TokenKind::Whitespace);
}

#[test]
fn lexer_lex_fn_keyword() {
    check("fn", TokenKind::FnKw);
}

#[test]
fn lexer_lex_let_keyword() {
    check("let", TokenKind::LetKw);
}

#[test]
fn lexer_lex_alphabetic_ident() {
    check("abcd", TokenKind::Ident);
}

#[test]
fn lexer_lex_alphanumeric_ident() {
    check("abcd123abc456", TokenKind::Ident);
}

#[test]
fn lexer_lex_mixed_case_identifier() {
    check("ABCdef", TokenKind::Ident);
}

#[test]
fn lexer_lex_number() {
    check("123456", TokenKind::Number);
}

#[test]
fn lexer_lex_plus() {
    check("+", TokenKind::Plus);
}

#[test]
fn lexer_lex_minus() {
    check("-", TokenKind::Minus);
}

#[test]
fn lexer_lex_star() {
    check("*", TokenKind::Star);
}

#[test]
fn lexer_lex_slash() {
    check("/", TokenKind::Slash);
}

#[test]
fn lexer_lex_equals() {
    check("=", TokenKind::Equals);
}

#[test]
fn lexer_lex_left_brace() {
    check("{", TokenKind::LBrace);
}

#[test]
fn lexer_lex_right_brace() {
    check("}", TokenKind::RBrace);
}

#[test]
fn lexer_lex_left_parenteses() {
    check("(", TokenKind::LParen);
}

#[test]
fn lexer_lex_right_parenteses() {
    check(")", TokenKind::RParen);
}

#[test]
fn lexer_lex_comment() {
    check("# foo", TokenKind::Comment);
}

#[test]
fn token_kind_lex_spaces() {
    check("  ", TokenKind::Whitespace);
}

#[test]
fn token_kind_lex_space_and_newlines() {
    check("  \n", TokenKind::Whitespace);
}

#[test]
fn token_kind_lex_fn_keyword() {
    check("fn", TokenKind::FnKw);
}

#[test]
fn token_kind_lex_let_keyword() {
    check("let", TokenKind::LetKw);
}

#[test]
fn token_kind_lex_alphabetic_ident() {
    check("abcd", TokenKind::Ident);
}

#[test]
fn token_kind_lex_alphanumeric_ident() {
    check("abcd123abc456", TokenKind::Ident);
}

#[test]
fn token_kind_lex_mixed_case_identifier() {
    check("ABCdef", TokenKind::Ident);
}

#[test]
fn token_kind_lex_number() {
    check("123456", TokenKind::Number);
}

#[test]
fn token_kind_lex_plus() {
    check("+", TokenKind::Plus);
}

#[test]
fn token_kind_lex_minus() {
    check("-", TokenKind::Minus);
}

#[test]
fn token_kind_lex_star() {
    check("*", TokenKind::Star);
}

#[test]
fn token_kind_lex_slash() {
    check("/", TokenKind::Slash);
}

#[test]
fn token_kind_lex_equals() {
    check("=", TokenKind::Equals);
}

#[test]
fn token_kind_lex_left_brace() {
    check("{", TokenKind::LBrace);
}

#[test]
fn token_kind_lex_right_brace() {
    check("}", TokenKind::RBrace);
}

#[test]
fn token_kind_lex_left_parenteses() {
    check("(", TokenKind::LParen);
}

#[test]
fn token_kind_lex_right_parenteses() {
    check(")", TokenKind::RParen);
}

#[test]
fn token_kind_lex_comment() {
    check("# foo", TokenKind::Comment);
}

#[test]
fn trivia_classification_matches_between_kinds() {
    assert!(TokenKind::Whitespace.is_trivia());
    assert!(TokenKind::Comment.is_trivia());
    assert!(!TokenKind::Number.is_trivia());
    assert!(SyntaxKind::Whitespace.is_trivia());
    assert!(SyntaxKind::Comment.is_trivia());
    assert!(!SyntaxKind::Ident.is_trivia());
}

#[test]
fn unrecognized_input_still_becomes_a_token() {
    let tokens = lex("1?&2");
    assert_eq!(tokens.len(), 3);
    assert_eq!(tokens[0].kind, TokenKind::Number);
    assert_eq!(tokens[1].kind, TokenKind::Unrecognized);
    assert_eq!(tokens[1].text, "?&");
    assert_eq!(tokens[2].kind, TokenKind::Number);
}

#[test]
fn keyword_prefix_of_identifier_stays_identifier() {
    let tokens = lex("letter");
    assert_eq!(tokens.len(), 1);
    assert_eq!(tokens[0].kind, TokenKind::Ident);
}

#[test]
fn kind_codes_round_trip() {
    let kinds = [
        SyntaxKind::Whitespace,
        SyntaxKind::LetKw,
        SyntaxKind::Number,
        SyntaxKind::Root,
        SyntaxKind::InfixExpr,
        SyntaxKind::Error,
    ];
    let mut i = 0;
    while i < kinds.len() {
        let raw = FelixFlowLanguage::kind_to_raw(kinds[i]);
        assert_eq!(FelixFlowLanguage::kind_from_raw(raw), kinds[i]);
        i += 1;
    }
}
