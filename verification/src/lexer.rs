pub mod token_kind;

use crate::lexer::token_kind::TokenKind;
use vstd::prelude::*;
use vstd::string::*;

verus! {

/// One token of the source: its classification, its exact text, and the
/// offset (in characters) at which that text begins.
#[derive(Debug)]
pub struct Token {
    pub kind: TokenKind,
    pub text: String,
    pub start: usize,
}

/// The mathematical shadow of a `Token`.
pub ghost struct TokenModel {
    pub kind: TokenKind,
    pub text: Seq<char>,
    pub start: int,
}

impl View for Token {
    type V = TokenModel;

    open spec fn view(&self) -> TokenModel {
        TokenModel { kind: self.kind, text: self.text@, start: self.start as int }
    }
}

// ---------------------------------------------------------------------------
// Character classes. The tokenizer's rules are fixed by these predicates:
// each rule claims the longest run it can, and rules are told apart by the
// first character alone.
// ---------------------------------------------------------------------------

pub open spec fn is_whitespace_char(c: char) -> bool {
    c == ' ' || c == '\n'
}

pub open spec fn is_digit_char(c: char) -> bool {
    48 <= c as u32 && c as u32 <= 57
}

pub open spec fn is_alpha_char(c: char) -> bool {
    (65 <= c as u32 && c as u32 <= 90) || (97 <= c as u32 && c as u32 <= 122)
}

pub open spec fn is_alnum_char(c: char) -> bool {
    is_alpha_char(c) || is_digit_char(c)
}

pub open spec fn is_operator_char(c: char) -> bool {
    c == '+' || c == '-' || c == '*' || c == '/' || c == '=' || c == '{' || c == '}' || c == '('
        || c == ')'
}

/// Whether some rule of the tokenizer can begin at this character.
pub open spec fn starts_rule(c: char) -> bool {
    is_whitespace_char(c) || is_alpha_char(c) || is_digit_char(c) || is_operator_char(c) || c
        == '#'
}

/// The length of the longest prefix of `s` whose characters all satisfy
/// `pred`.
pub open spec fn run_len(s: Seq<char>, pred: spec_fn(char) -> bool) -> nat
    decreases s.len(),
{
    if s.len() > 0 && pred(s[0]) {
        1 + run_len(s.skip(1), pred)
    } else {
        0
    }
}

pub proof fn lemma_run_len_bounds(s: Seq<char>, pred: spec_fn(char) -> bool)
    ensures
        run_len(s, pred) <= s.len(),
        forall|k: int| 0 <= k < run_len(s, pred) ==> pred(s[k]),
        run_len(s, pred) < s.len() ==> !pred(s[run_len(s, pred) as int]),
    decreases s.len(),
{
    if s.len() > 0 && pred(s[0]) {
        lemma_run_len_bounds(s.skip(1), pred);
        assert forall|k: int| 0 <= k < run_len(s, pred) implies pred(s[k]) by {
            if k > 0 {
                assert(s.skip(1)[k - 1] == s[k]);
            }
        }
        if run_len(s, pred) < s.len() {
            assert(s.skip(1)[run_len(s, pred) - 1] == s[run_len(s, pred) as int]);
        }
    }
}

/// The run length is the unique split point `j` with `pred` holding before
/// it and failing at it.
pub proof fn lemma_run_len_is(s: Seq<char>, pred: spec_fn(char) -> bool, j: int)
    requires
        0 <= j <= s.len(),
        forall|k: int| 0 <= k < j ==> pred(s[k]),
        j < s.len() ==> !pred(s[j]),
    ensures
        run_len(s, pred) == j,
    decreases s.len(),
{
    if s.len() > 0 && pred(s[0]) {
        assert(j != 0);
        assert forall|k: int| 0 <= k < j - 1 implies pred(s.skip(1)[k]) by {
            assert(s.skip(1)[k] == s[k + 1]);
        }
        if j - 1 < s.skip(1).len() {
            assert(s.skip(1)[j - 1] == s[j]);
        }
        lemma_run_len_is(s.skip(1), pred, j - 1);
    } else {
        assert(j == 0);
    }
}

// ---------------------------------------------------------------------------
// The tokenization itself, as a mathematical function: the length and kind
// of the first token of a non-empty input, and the resulting token sequence.
// ---------------------------------------------------------------------------

/// How many characters the first token of `s` takes.
pub open spec fn first_len(s: Seq<char>) -> nat
    recommends
        s.len() > 0,
{
    let c = s[0];
    if is_whitespace_char(c) {
        run_len(s, |x: char| is_whitespace_char(x))
    } else if is_alpha_char(c) {
        run_len(s, |x: char| is_alnum_char(x))
    } else if is_digit_char(c) {
        run_len(s, |x: char| is_digit_char(x))
    } else if is_operator_char(c) {
        1
    } else if c == '#' {
        1 + run_len(s.skip(1), |x: char| x != '\n')
    } else {
        run_len(s, |x: char| !starts_rule(x))
    }
}

/// Keywords win over the identifier rule on the same text.
pub open spec fn keyword_kind(text: Seq<char>) -> TokenKind {
    if text == seq!['l', 'e', 't'] {
        TokenKind::LetKw
    } else if text == seq!['f', 'n'] {
        TokenKind::FnKw
    } else {
        TokenKind::Ident
    }
}

/// The kind of the first token of a non-empty input.
pub open spec fn first_kind(s: Seq<char>) -> TokenKind
    recommends
        s.len() > 0,
{
    let c = s[0];
    if is_whitespace_char(c) {
        TokenKind::Whitespace
    } else if is_alpha_char(c) {
        keyword_kind(s.take(first_len(s) as int))
    } else if is_digit_char(c) {
        TokenKind::Number
    } else if c == '+' {
        TokenKind::Plus
    } else if c == '-' {
        TokenKind::Minus
    } else if c == '*' {
        TokenKind::Star
    } else if c == '/' {
        TokenKind::Slash
    } else if c == '=' {
        TokenKind::Equals
    } else if c == '{' {
        TokenKind::LBrace
    } else if c == '}' {
        TokenKind::RBrace
    } else if c == '(' {
        TokenKind::LParen
    } else if c == ')' {
        TokenKind::RParen
    } else if c == '#' {
        TokenKind::Comment
    } else {
        TokenKind::Unrecognized
    }
}

/// Every token takes at least one character, so tokenization makes progress,
/// and never more characters than are left.
pub proof fn lemma_first_len_pos(s: Seq<char>)
    requires
        s.len() > 0,
    ensures
        1 <= first_len(s) <= s.len(),
{
    let c = s[0];
    if is_whitespace_char(c) {
        lemma_run_len_bounds(s, |x: char| is_whitespace_char(x));
    } else if is_alpha_char(c) {
        lemma_run_len_bounds(s, |x: char| is_alnum_char(x));
    } else if is_digit_char(c) {
        lemma_run_len_bounds(s, |x: char| is_digit_char(x));
    } else if is_operator_char(c) {
    } else if c == '#' {
        lemma_run_len_bounds(s.skip(1), |x: char| x != '\n');
    } else {
        lemma_run_len_bounds(s, |x: char| !starts_rule(x));
    }
}

#[via_fn]
proof fn lex_spec_decreases(s: Seq<char>, off: int) {
    if s.len() > 0 {
        lemma_first_len_pos(s);
    }
}

/// The token sequence of `s`, with the first token starting at offset
/// `off`: the first token as classified above, then the tokens of the rest.
pub open spec fn lex_spec(s: Seq<char>, off: int) -> Seq<TokenModel>
    decreases s.len(),
    via lex_spec_decreases
{
    if s.len() == 0 {
        Seq::empty()
    } else {
        let n = first_len(s) as int;
        seq![TokenModel { kind: first_kind(s), text: s.take(n), start: off }] + lex_spec(
            s.skip(n),
            off + n,
        )
    }
}

/// The concatenation of a token sequence's texts.
pub open spec fn tokens_text(ts: Seq<TokenModel>) -> Seq<char>
    decreases ts.len(),
{
    if ts.len() == 0 {
        Seq::empty()
    } else {
        ts[0].text + tokens_text(ts.skip(1))
    }
}

/// Tokenization covers its input with no gaps: putting the token texts back
/// together gives the input, character for character.
pub proof fn lemma_lex_covers(s: Seq<char>, off: int)
    ensures
        tokens_text(lex_spec(s, off)) == s,
    decreases s.len(),
{
    if s.len() == 0 {
        assert(tokens_text(lex_spec(s, off)) =~= s);
    } else {
        lemma_first_len_pos(s);
        let n = first_len(s) as int;
        lemma_lex_covers(s.skip(n), off + n);
        let ts = lex_spec(s, off);
        let head = TokenModel { kind: first_kind(s), text: s.take(n), start: off };
        assert(ts.skip(1) =~= lex_spec(s.skip(n), off + n));
        assert(tokens_text(ts) == s.take(n) + s.skip(n));
        assert(s.take(n) + s.skip(n) =~= s);
    }
}

// ---------------------------------------------------------------------------
// The executable tokenizer, proved to compute exactly `lex_spec`.
// ---------------------------------------------------------------------------

fn is_ws_exec(c: char) -> (r: bool)
    ensures
        r == is_whitespace_char(c),
{
    c == ' ' || c == '\n'
}

fn is_digit_exec(c: char) -> (r: bool)
    ensures
        r == is_digit_char(c),
{
    let u = c as u32;
    48 <= u && u <= 57
}

fn is_alpha_exec(c: char) -> (r: bool)
    ensures
        r == is_alpha_char(c),
{
    let u = c as u32;
    (65 <= u && u <= 90) || (97 <= u && u <= 122)
}

fn is_alnum_exec(c: char) -> (r: bool)
    ensures
        r == is_alnum_char(c),
{
    is_alpha_exec(c) || is_digit_exec(c)
}

fn starts_rule_exec(c: char) -> (r: bool)
    ensures
        r == starts_rule(c),
{
    is_ws_exec(c) || is_alnum_exec(c) || c == '+' || c == '-' || c == '*' || c == '/' || c == '='
        || c == '{' || c == '}' || c == '(' || c == ')' || c == '#'
}

fn scan_whitespace(s: &str, i: usize) -> (j: usize)
    requires
        i <= s@.len(),
    ensures
        i <= j <= s@.len(),
        j - i == run_len(s@.skip(i as int), |c: char| is_whitespace_char(c)),
{
    let n = s.unicode_len();
    let mut j = i;
    while j < n && is_ws_exec(s.get_char(j))
        invariant
            i <= j <= n,
            n == s@.len(),
            forall|k: int| i <= k < j ==> is_whitespace_char(s@[k]),
        decreases n - j,
    {
        j = j + 1;
    }
    proof {
        let rest = s@.skip(i as int);
        assert forall|k: int| 0 <= k < j - i implies is_whitespace_char(rest[k]) by {
            assert(rest[k] == s@[i + k]);
        }
        if j - i < rest.len() {
            assert(rest[j - i] == s@[j as int]);
        }
        lemma_run_len_is(rest, |c: char| is_whitespace_char(c), j - i);
    }
    j
}

fn scan_alnum(s: &str, i: usize) -> (j: usize)
    requires
        i <= s@.len(),
    ensures
        i <= j <= s@.len(),
        j - i == run_len(s@.skip(i as int), |c: char| is_alnum_char(c)),
{
    let n = s.unicode_len();
    let mut j = i;
    while j < n && is_alnum_exec(s.get_char(j))
        invariant
            i <= j <= n,
            n == s@.len(),
            forall|k: int| i <= k < j ==> is_alnum_char(s@[k]),
        decreases n - j,
    {
        j = j + 1;
    }
    proof {
        let rest = s@.skip(i as int);
        assert forall|k: int| 0 <= k < j - i implies is_alnum_char(rest[k]) by {
            assert(rest[k] == s@[i + k]);
        }
        if j - i < rest.len() {
            assert(rest[j - i] == s@[j as int]);
        }
        lemma_run_len_is(rest, |c: char| is_alnum_char(c), j - i);
    }
    j
}

fn scan_digits(s: &str, i: usize) -> (j: usize)
    requires
        i <= s@.len(),
    ensures
        i <= j <= s@.len(),
        j - i == run_len(s@.skip(i as int), |c: char| is_digit_char(c)),
{
    let n = s.unicode_len();
    let mut j = i;
    while j < n && is_digit_exec(s.get_char(j))
        invariant
            i <= j <= n,
            n == s@.len(),
            forall|k: int| i <= k < j ==> is_digit_char(s@[k]),
        decreases n - j,
    {
        j = j + 1;
    }
    proof {
        let rest = s@.skip(i as int);
        assert forall|k: int| 0 <= k < j - i implies is_digit_char(rest[k]) by {
            assert(rest[k] == s@[i + k]);
        }
        if j - i < rest.len() {
            assert(rest[j - i] == s@[j as int]);
        }
        lemma_run_len_is(rest, |c: char| is_digit_char(c), j - i);
    }
    j
}

/// Scans the body of a comment: everything up to, but not including, the
/// next line break.
fn scan_comment_rest(s: &str, i: usize) -> (j: usize)
    requires
        i <= s@.len(),
    ensures
        i <= j <= s@.len(),
        j - i == run_len(s@.skip(i as int), |c: char| c != '\n'),
{
    let n = s.unicode_len();
    let mut j = i;
    while j < n && s.get_char(j) != '\n'
        invariant
            i <= j <= n,
            n == s@.len(),
            forall|k: int| i <= k < j ==> s@[k] != '\n',
        decreases n - j,
    {
        j = j + 1;
    }
    proof {
        let rest = s@.skip(i as int);
        assert forall|k: int| 0 <= k < j - i implies rest[k] != '\n' by {
            assert(rest[k] == s@[i + k]);
        }
        if j - i < rest.len() {
            assert(rest[j - i] == s@[j as int]);
        }
        lemma_run_len_is(rest, |c: char| c != '\n', j - i);
    }
    j
}

fn scan_unrecognized(s: &str, i: usize) -> (j: usize)
    requires
        i <= s@.len(),
    ensures
        i <= j <= s@.len(),
        j - i == run_len(s@.skip(i as int), |c: char| !starts_rule(c)),
{
    let n = s.unicode_len();
    let mut j = i;
    while j < n && !starts_rule_exec(s.get_char(j))
        invariant
            i <= j <= n,
            n == s@.len(),
            forall|k: int| i <= k < j ==> !starts_rule(s@[k]),
        decreases n - j,
    {
        j = j + 1;
    }
    proof {
        let rest = s@.skip(i as int);
        assert forall|k: int| 0 <= k < j - i implies !starts_rule(rest[k]) by {
            assert(rest[k] == s@[i + k]);
        }
        if j - i < rest.len() {
            assert(rest[j - i] == s@[j as int]);
        }
        lemma_run_len_is(rest, |c: char| !starts_rule(c), j - i);
    }
    j
}

/// Decides whether the identifier text `s[i..j]` is a keyword.
fn ident_kind_exec(s: &str, i: usize, j: usize) -> (k: TokenKind)
    requires
        i < j <= s@.len(),
    ensures
        k == keyword_kind(s@.subrange(i as int, j as int)),
{
    let ghost text = s@.subrange(i as int, j as int);
    if j - i == 3 && s.get_char(i) == 'l' && s.get_char(i + 1) == 'e' && s.get_char(i + 2) == 't' {
        proof {
            assert(text =~= seq!['l', 'e', 't']);
        }
        TokenKind::LetKw
    } else if j - i == 2 && s.get_char(i) == 'f' && s.get_char(i + 1) == 'n' {
        proof {
            assert(text =~= seq!['f', 'n']);
        }
        TokenKind::FnKw
    } else {
        proof {
            assert(text.len() == j - i);
            if text == seq!['l', 'e', 't'] {
                assert(text[0] == 'l' && text[1] == 'e' && text[2] == 't');
                assert(s@[i as int] == 'l' && s@[i + 1] == 'e' && s@[i + 2] == 't');
                assert(false);
            }
            if text == seq!['f', 'n'] {
                assert(text[0] == 'f' && text[1] == 'n');
                assert(s@[i as int] == 'f' && s@[i + 1] == 'n');
                assert(false);
            }
        }
        TokenKind::Ident
    }
}

/// Splits the whole input into tokens: longest match first, keywords over
/// identifiers, and unrecognized stretches preserved as tokens of their own,
/// so that the texts of the result, in order, are exactly the input.
pub fn lex(input: &str) -> (r: Vec<Token>)
    ensures
        r@.map_values(|t: Token| t@) == lex_spec(input@, 0),
{
    let n = input.unicode_len();
    let mut out: Vec<Token> = Vec::new();
    let mut i: usize = 0;
    proof {
        assert(input@.skip(0) =~= input@);
        assert(out@.map_values(|t: Token| t@) + lex_spec(input@, 0) =~= lex_spec(input@, 0));
    }
    while i < n
        invariant
            0 <= i <= n,
            n == input@.len(),
            lex_spec(input@, 0) == out@.map_values(|t: Token| t@) + lex_spec(
                input@.skip(i as int),
                i as int,
            ),
        decreases n - i,
    {
        let ghost rest = input@.skip(i as int);
        assert(rest[0] == input@[i as int]);
        let c = input.get_char(i);
        let (kind, j): (TokenKind, usize) = if is_ws_exec(c) {
            (TokenKind::Whitespace, scan_whitespace(input, i))
        } else if is_alpha_exec(c) {
            let j = scan_alnum(input, i);
            proof {
                lemma_run_len_bounds(rest, |x: char| is_alnum_char(x));
                assert(first_len(rest) == j - i);
                assert(rest.take(j - i) =~= input@.subrange(i as int, j as int));
            }
            (ident_kind_exec(input, i, j), j)
        } else if is_digit_exec(c) {
            (TokenKind::Number, scan_digits(input, i))
        } else if c == '+' {
            (TokenKind::Plus, i + 1)
        } else if c == '-' {
            (TokenKind::Minus, i + 1)
        } else if c == '*' {
            (TokenKind::Star, i + 1)
        } else if c == '/' {
            (TokenKind::Slash, i + 1)
        } else if c == '=' {
            (TokenKind::Equals, i + 1)
        } else if c == '{' {
            (TokenKind::LBrace, i + 1)
        } else if c == '}' {
            (TokenKind::RBrace, i + 1)
        } else if c == '(' {
            (TokenKind::LParen, i + 1)
        } else if c == ')' {
            (TokenKind::RParen, i + 1)
        } else if c == '#' {
            let j = scan_comment_rest(input, i + 1);
            proof {
                assert(rest.skip(1) =~= input@.skip(i + 1));
            }
            (TokenKind::Comment, j)
        } else {
            (TokenKind::Unrecognized, scan_unrecognized(input, i))
        };
        proof {
            assert(j - i == first_len(rest));
            assert(kind == first_kind(rest));
            lemma_first_len_pos(rest);
        }
        let text = String::from_str(input.substring_char(i, j));
        let tok = Token { kind, text, start: i };
        proof {
            assert(rest.take(j - i) =~= input@.subrange(i as int, j as int));
            assert(tok@ == lex_spec(rest, i as int)[0]);
            assert(rest.skip(j - i) =~= input@.skip(j as int));
            assert(lex_spec(rest, i as int).skip(1) =~= lex_spec(input@.skip(j as int), j as int));
        }
        let ghost old_out = out@;
        out.push(tok);
        proof {
            assert(out@.map_values(|t: Token| t@) =~= old_out.map_values(|t: Token| t@) + seq![
                tok@,
            ]);
            assert(out@.map_values(|t: Token| t@) + lex_spec(input@.skip(j as int), j as int)
                =~= old_out.map_values(|t: Token| t@) + lex_spec(rest, i as int));
        }
        i = j;
    }
    proof {
        assert(input@.skip(i as int) =~= Seq::<char>::empty());
        assert(out@.map_values(|t: Token| t@) + lex_spec(input@.skip(i as int), i as int)
            =~= out@.map_values(|t: Token| t@));
    }
    out
}

} // verus!
