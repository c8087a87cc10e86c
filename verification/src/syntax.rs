use crate::lexer::token_kind::TokenKind;
use vstd::prelude::*;

verus! {

/// The closed set of syntax kinds: every lexical kind, and the kinds of the
/// tree nodes the parser can produce. A finished tree carries nothing but
/// these kinds, token text and offsets.
#[derive(Clone, Copy, Debug, PartialEq, Eq, Structural, PartialOrd, Ord, Hash)]
pub enum SyntaxKind {
    Whitespace,
    FnKw,
    LetKw,
    Ident,
    Number,
    Plus,
    Minus,
    Star,
    Slash,
    Equals,
    LBrace,
    RBrace,
    LParen,
    RParen,
    Comment,
    Root,
    InfixExpr,
    Literal,
    ParenExpr,
    PrefixExpr,
    VariableDef,
    VariableRef,
    Error,
}

impl SyntaxKind {
    /// Trivia is kept in the tree but skipped by grammar decisions.
    pub open spec fn spec_is_trivia(self) -> bool {
        self == SyntaxKind::Whitespace || self == SyntaxKind::Comment
    }

    #[verifier::when_used_as_spec(spec_is_trivia)]
    pub fn is_trivia(self) -> (r: bool)
        ensures
            r == self.spec_is_trivia(),
    {
        matches!(self, SyntaxKind::Whitespace | SyntaxKind::Comment)
    }

    /// The image of a lexical kind under `SyntaxKind::from`.
    pub open spec fn spec_from(token_kind: TokenKind) -> SyntaxKind {
        match token_kind {
            TokenKind::Whitespace => SyntaxKind::Whitespace,
            TokenKind::FnKw => SyntaxKind::FnKw,
            TokenKind::LetKw => SyntaxKind::LetKw,
            TokenKind::Ident => SyntaxKind::Ident,
            TokenKind::Number => SyntaxKind::Number,
            TokenKind::Plus => SyntaxKind::Plus,
            TokenKind::Minus => SyntaxKind::Minus,
            TokenKind::Star => SyntaxKind::Star,
            TokenKind::Slash => SyntaxKind::Slash,
            TokenKind::Equals => SyntaxKind::Equals,
            TokenKind::LParen => SyntaxKind::LParen,
            TokenKind::RParen => SyntaxKind::RParen,
            TokenKind::LBrace => SyntaxKind::LBrace,
            TokenKind::RBrace => SyntaxKind::RBrace,
            TokenKind::Comment => SyntaxKind::Comment,
            TokenKind::Unrecognized => SyntaxKind::Error,
        }
    }

    /// A kind a token can have, as opposed to a kind only a tree node can
    /// have. Only terminal kinds appear in parse errors.
    pub open spec fn is_terminal(self) -> bool {
        !(self == SyntaxKind::Root || self == SyntaxKind::InfixExpr || self == SyntaxKind::Literal
            || self == SyntaxKind::ParenExpr || self == SyntaxKind::PrefixExpr || self
            == SyntaxKind::VariableDef || self == SyntaxKind::VariableRef)
    }

    /// The name of the kind, as it appears in the tree rendering.
    pub open spec fn spec_name(self) -> Seq<char> {
        match self {
            SyntaxKind::Whitespace => "Whitespace"@,
            SyntaxKind::FnKw => "FnKw"@,
            SyntaxKind::LetKw => "LetKw"@,
            SyntaxKind::Ident => "Ident"@,
            SyntaxKind::Number => "Number"@,
            SyntaxKind::Plus => "Plus"@,
            SyntaxKind::Minus => "Minus"@,
            SyntaxKind::Star => "Star"@,
            SyntaxKind::Slash => "Slash"@,
            SyntaxKind::Equals => "Equals"@,
            SyntaxKind::LBrace => "LBrace"@,
            SyntaxKind::RBrace => "RBrace"@,
            SyntaxKind::LParen => "LParen"@,
            SyntaxKind::RParen => "RParen"@,
            SyntaxKind::Comment => "Comment"@,
            SyntaxKind::Root => "Root"@,
            SyntaxKind::InfixExpr => "InfixExpr"@,
            SyntaxKind::Literal => "Literal"@,
            SyntaxKind::ParenExpr => "ParenExpr"@,
            SyntaxKind::PrefixExpr => "PrefixExpr"@,
            SyntaxKind::VariableDef => "VariableDef"@,
            SyntaxKind::VariableRef => "VariableRef"@,
            SyntaxKind::Error => "Error"@,
        }
    }

    pub fn name(self) -> (r: &'static str)
        ensures
            r@ == self.spec_name(),
    {
        match self {
            SyntaxKind::Whitespace => "Whitespace",
            SyntaxKind::FnKw => "FnKw",
            SyntaxKind::LetKw => "LetKw",
            SyntaxKind::Ident => "Ident",
            SyntaxKind::Number => "Number",
            SyntaxKind::Plus => "Plus",
            SyntaxKind::Minus => "Minus",
            SyntaxKind::Star => "Star",
            SyntaxKind::Slash => "Slash",
            SyntaxKind::Equals => "Equals",
            SyntaxKind::LBrace => "LBrace",
            SyntaxKind::RBrace => "RBrace",
            SyntaxKind::LParen => "LParen",
            SyntaxKind::RParen => "RParen",
            SyntaxKind::Comment => "Comment",
            SyntaxKind::Root => "Root",
            SyntaxKind::InfixExpr => "InfixExpr",
            SyntaxKind::Literal => "Literal",
            SyntaxKind::ParenExpr => "ParenExpr",
            SyntaxKind::PrefixExpr => "PrefixExpr",
            SyntaxKind::VariableDef => "VariableDef",
            SyntaxKind::VariableRef => "VariableRef",
            SyntaxKind::Error => "Error",
        }
    }

    /// How a terminal kind is described in an error message.
    pub open spec fn spec_description(self) -> Seq<char>
        recommends
            self.is_terminal(),
    {
        match self {
            SyntaxKind::Whitespace => "whitespace"@,
            SyntaxKind::FnKw => "'fn'"@,
            SyntaxKind::LetKw => "'let'"@,
            SyntaxKind::Ident => "identifier"@,
            SyntaxKind::Number => "number"@,
            SyntaxKind::Plus => "'+'"@,
            SyntaxKind::Minus => "'-'"@,
            SyntaxKind::Star => "'*'"@,
            SyntaxKind::Slash => "'/'"@,
            SyntaxKind::Equals => "'='"@,
            SyntaxKind::LBrace => "'{'"@,
            SyntaxKind::RBrace => "'}'"@,
            SyntaxKind::LParen => "'('"@,
            SyntaxKind::RParen => "')'"@,
            SyntaxKind::Comment => "comment"@,
            _ => "an unrecognized token"@,
        }
    }

    pub fn description(self) -> (r: &'static str)
        ensures
            r@ == self.spec_description(),
    {
        match self {
            SyntaxKind::Whitespace => "whitespace",
            SyntaxKind::FnKw => "'fn'",
            SyntaxKind::LetKw => "'let'",
            SyntaxKind::Ident => "identifier",
            SyntaxKind::Number => "number",
            SyntaxKind::Plus => "'+'",
            SyntaxKind::Minus => "'-'",
            SyntaxKind::Star => "'*'",
            SyntaxKind::Slash => "'/'",
            SyntaxKind::Equals => "'='",
            SyntaxKind::LBrace => "'{'",
            SyntaxKind::RBrace => "'}'",
            SyntaxKind::LParen => "'('",
            SyntaxKind::RParen => "')'",
            SyntaxKind::Comment => "comment",
            _ => "an unrecognized token",
        }
    }
}

impl From<TokenKind> for SyntaxKind {
    fn from(token_kind: TokenKind) -> (r: SyntaxKind) {
        match token_kind {
            TokenKind::Whitespace => SyntaxKind::Whitespace,
            TokenKind::FnKw => SyntaxKind::FnKw,
            TokenKind::LetKw => SyntaxKind::LetKw,
            TokenKind::Ident => SyntaxKind::Ident,
            TokenKind::Number => SyntaxKind::Number,
            TokenKind::Plus => SyntaxKind::Plus,
            TokenKind::Minus => SyntaxKind::Minus,
            TokenKind::Star => SyntaxKind::Star,
            TokenKind::Slash => SyntaxKind::Slash,
            TokenKind::Equals => SyntaxKind::Equals,
            TokenKind::LParen => SyntaxKind::LParen,
            TokenKind::RParen => SyntaxKind::RParen,
            TokenKind::LBrace => SyntaxKind::LBrace,
            TokenKind::RBrace => SyntaxKind::RBrace,
            TokenKind::Comment => SyntaxKind::Comment,
            TokenKind::Unrecognized => SyntaxKind::Error,
        }
    }
}

impl vstd::std_specs::convert::FromSpecImpl<TokenKind> for SyntaxKind {
    open spec fn obeys_from_spec() -> bool {
        true
    }

    open spec fn from_spec(token_kind: TokenKind) -> SyntaxKind {
        SyntaxKind::spec_from(token_kind)
    }
}

/// The bridge between this language's kinds and the raw numeric kinds of a
/// generic tree store: each syntax kind is assigned a small number, and the
/// two directions invert one another.
#[derive(Clone, Copy, Debug, PartialEq, Eq, Structural, PartialOrd, Ord, Hash)]
pub struct FelixFlowLanguage {}

impl FelixFlowLanguage {
    /// The numeric code of a syntax kind.
    pub open spec fn spec_kind_to_raw(kind: SyntaxKind) -> u16 {
        match kind {
            SyntaxKind::Whitespace => 0,
            SyntaxKind::FnKw => 1,
            SyntaxKind::LetKw => 2,
            SyntaxKind::Ident => 3,
            SyntaxKind::Number => 4,
            SyntaxKind::Plus => 5,
            SyntaxKind::Minus => 6,
            SyntaxKind::Star => 7,
            SyntaxKind::Slash => 8,
            SyntaxKind::Equals => 9,
            SyntaxKind::LBrace => 10,
            SyntaxKind::RBrace => 11,
            SyntaxKind::LParen => 12,
            SyntaxKind::RParen => 13,
            SyntaxKind::Comment => 14,
            SyntaxKind::Root => 15,
            SyntaxKind::InfixExpr => 16,
            SyntaxKind::Literal => 17,
            SyntaxKind::ParenExpr => 18,
            SyntaxKind::PrefixExpr => 19,
            SyntaxKind::VariableDef => 20,
            SyntaxKind::VariableRef => 21,
            SyntaxKind::Error => 22,
        }
    }

    #[verifier::when_used_as_spec(spec_kind_to_raw)]
    pub fn kind_to_raw(kind: SyntaxKind) -> (r: u16)
        ensures
            r == FelixFlowLanguage::spec_kind_to_raw(kind),
            r < 23,
    {
        match kind {
            SyntaxKind::Whitespace => 0,
            SyntaxKind::FnKw => 1,
            SyntaxKind::LetKw => 2,
            SyntaxKind::Ident => 3,
            SyntaxKind::Number => 4,
            SyntaxKind::Plus => 5,
            SyntaxKind::Minus => 6,
            SyntaxKind::Star => 7,
            SyntaxKind::Slash => 8,
            SyntaxKind::Equals => 9,
            SyntaxKind::LBrace => 10,
            SyntaxKind::RBrace => 11,
            SyntaxKind::LParen => 12,
            SyntaxKind::RParen => 13,
            SyntaxKind::Comment => 14,
            SyntaxKind::Root => 15,
            SyntaxKind::InfixExpr => 16,
            SyntaxKind::Literal => 17,
            SyntaxKind::ParenExpr => 18,
            SyntaxKind::PrefixExpr => 19,
            SyntaxKind::VariableDef => 20,
            SyntaxKind::VariableRef => 21,
            SyntaxKind::Error => 22,
        }
    }

    /// Recovers the syntax kind with a given numeric code. Codes at or above
    /// 23 stand for no kind at all, so they are ruled out.
    pub fn kind_from_raw(raw: u16) -> (r: SyntaxKind)
        requires
            raw < 23,
        ensures
            FelixFlowLanguage::spec_kind_to_raw(r) == raw,
    {
        if raw == 0 {
            SyntaxKind::Whitespace
        } else if raw == 1 {
            SyntaxKind::FnKw
        } else if raw == 2 {
            SyntaxKind::LetKw
        } else if raw == 3 {
            SyntaxKind::Ident
        } else if raw == 4 {
            SyntaxKind::Number
        } else if raw == 5 {
            SyntaxKind::Plus
        } else if raw == 6 {
            SyntaxKind::Minus
        } else if raw == 7 {
            SyntaxKind::Star
        } else if raw == 8 {
            SyntaxKind::Slash
        } else if raw == 9 {
            SyntaxKind::Equals
        } else if raw == 10 {
            SyntaxKind::LBrace
        } else if raw == 11 {
            SyntaxKind::RBrace
        } else if raw == 12 {
            SyntaxKind::LParen
        } else if raw == 13 {
            SyntaxKind::RParen
        } else if raw == 14 {
            SyntaxKind::Comment
        } else if raw == 15 {
            SyntaxKind::Root
        } else if raw == 16 {
            SyntaxKind::InfixExpr
        } else if raw == 17 {
            SyntaxKind::Literal
        } else if raw == 18 {
            SyntaxKind::ParenExpr
        } else if raw == 19 {
            SyntaxKind::PrefixExpr
        } else if raw == 20 {
            SyntaxKind::VariableDef
        } else if raw == 21 {
            SyntaxKind::VariableRef
        } else {
            SyntaxKind::Error
        }
    }
}

/// Raw kind codes are distinct, so they can stand for the kinds in an
/// untyped store without losing information.
pub proof fn lemma_kind_to_raw_injective(a: SyntaxKind, b: SyntaxKind)
    ensures
        FelixFlowLanguage::spec_kind_to_raw(a) == FelixFlowLanguage::spec_kind_to_raw(b) ==> a
            == b,
{
}

} // verus!
