use vstd::prelude::*;

verus! {

/// The lexical classification of a token: one variant per rule of the
/// tokenizer, plus `Unrecognized` for input that matches no rule (such input
/// still becomes a token, so that every character of the source is accounted
/// for).
#[derive(Clone, Copy, Debug, PartialEq, Eq, Structural, PartialOrd, Ord, Hash)]
pub enum TokenKind {
    Whitespace,
    FnKw,
    LetKw,
    Ident,
    Number,
    Plus,
    Minus,
    Star,
    Slash,
    Equals,
    LBrace,
    RBrace,
    LParen,
    RParen,
    Comment,
    Unrecognized,
}

impl TokenKind {
    /// Trivia is kept in the tree but skipped by grammar decisions.
    pub open spec fn spec_is_trivia(self) -> bool {
        self == TokenKind::Whitespace || self == TokenKind::Comment
    }

    #[verifier::when_used_as_spec(spec_is_trivia)]
    pub fn is_trivia(self) -> (r: bool)
        ensures
            r == self.spec_is_trivia(),
    {
        matches!(self, TokenKind::Whitespace | TokenKind::Comment)
    }
}

} // verus!
