use crate::lexer::{Token, TokenModel};
use crate::syntax::SyntaxKind;
use vstd::prelude::*;

verus! {

/// How many of these tokens matter to the grammar (are not trivia).
pub open spec fn sig_count(ts: Seq<TokenModel>) -> int
    decreases ts.len(),
{
    if ts.len() == 0 {
        0
    } else {
        sig_count(ts.drop_last()) + (if ts.last().kind.spec_is_trivia() {
            0int
        } else {
            1
        })
    }
}

pub proof fn lemma_sig_count_concat(a: Seq<TokenModel>, b: Seq<TokenModel>)
    ensures
        sig_count(a + b) == sig_count(a) + sig_count(b),
    decreases b.len(),
{
    if b.len() == 0 {
        assert(a + b =~= a);
    } else {
        lemma_sig_count_concat(a, b.drop_last());
        assert((a + b).drop_last() =~= a + b.drop_last());
    }
}

pub proof fn lemma_sig_count_nonneg(ts: Seq<TokenModel>)
    ensures
        sig_count(ts) >= 0,
    decreases ts.len(),
{
    if ts.len() > 0 {
        lemma_sig_count_nonneg(ts.drop_last());
    }
}

/// The grammar-relevant tokens left from position `c` on.
pub open spec fn sig_from(ts: Seq<TokenModel>, c: int) -> int {
    sig_count(ts.skip(c))
}

/// The position of the next non-trivia token at or after `c`, or the end.
pub open spec fn next_sig(ts: Seq<TokenModel>, c: int) -> int
    recommends
        0 <= c <= ts.len(),
    decreases ts.len() - c,
{
    if c < 0 || c >= ts.len() {
        ts.len() as int
    } else if ts[c].kind.spec_is_trivia() {
        next_sig(ts, c + 1)
    } else {
        c
    }
}

pub proof fn lemma_next_sig_bounds(ts: Seq<TokenModel>, c: int)
    requires
        0 <= c <= ts.len(),
    ensures
        c <= next_sig(ts, c) <= ts.len(),
        next_sig(ts, c) < ts.len() ==> !ts[next_sig(ts, c)].kind.spec_is_trivia(),
        forall|k: int| c <= k < next_sig(ts, c) ==> ts[k].kind.spec_is_trivia(),
    decreases ts.len() - c,
{
    if c < ts.len() && ts[c].kind.spec_is_trivia() {
        lemma_next_sig_bounds(ts, c + 1);
    }
}

/// Skipping trivia twice is skipping it once.
pub proof fn lemma_next_sig_idem(ts: Seq<TokenModel>, c: int)
    requires
        0 <= c <= ts.len(),
    ensures
        next_sig(ts, next_sig(ts, c)) == next_sig(ts, c),
{
    lemma_next_sig_bounds(ts, c);
}

/// Skipping trivia loses none of the tokens the grammar can see.
pub proof fn lemma_sig_from_next(ts: Seq<TokenModel>, c: int)
    requires
        0 <= c <= ts.len(),
    ensures
        sig_from(ts, next_sig(ts, c)) == sig_from(ts, c),
    decreases ts.len() - c,
{
    if c < ts.len() && ts[c].kind.spec_is_trivia() {
        lemma_sig_from_next(ts, c + 1);
        assert(ts.skip(c) =~= seq![ts[c]] + ts.skip(c + 1));
        lemma_sig_count_concat(seq![ts[c]], ts.skip(c + 1));
        assert(sig_count(seq![ts[c]]) == 0) by {
            let one = seq![ts[c]];
            assert(one.len() == 1);
            assert(one.last() == ts[c]);
            assert(one.drop_last() =~= Seq::<TokenModel>::empty());
            assert(sig_count(Seq::<TokenModel>::empty()) == 0);
        }
    }
}

/// Consuming the significant token at `c` leaves one significant token
/// fewer.
pub proof fn lemma_sig_from_consume(ts: Seq<TokenModel>, c: int)
    requires
        0 <= c < ts.len(),
        !ts[c].kind.spec_is_trivia(),
    ensures
        sig_from(ts, c + 1) == sig_from(ts, c) - 1,
{
    assert(ts.skip(c) =~= seq![ts[c]] + ts.skip(c + 1));
    lemma_sig_count_concat(seq![ts[c]], ts.skip(c + 1));
    assert(sig_count(seq![ts[c]]) == 1) by {
        let one = seq![ts[c]];
        assert(one.len() == 1);
        assert(one.last() == ts[c]);
        assert(one.drop_last() =~= Seq::<TokenModel>::empty());
        assert(sig_count(Seq::<TokenModel>::empty()) == 0);
    }
}

/// The character span of one token, its end capped at the machine limit.
pub open spec fn token_span(t: TokenModel) -> (int, int) {
    (
        t.start,
        if t.start + t.text.len() <= usize::MAX {
            t.start + t.text.len() as int
        } else {
            usize::MAX as int
        },
    )
}

/// Where a diagnostic recorded at cursor position `c` points: the next
/// significant token's span; at the end of input, the last token's span, or
/// the empty span at the start when there is no input at all.
pub open spec fn error_span(toks: Seq<TokenModel>, c: int) -> (int, int) {
    let sp = next_sig(toks, c);
    if sp < toks.len() {
        token_span(toks[sp])
    } else if toks.len() > 0 {
        token_span(toks.last())
    } else {
        (0, 0)
    }
}

/// A trivia-skipping cursor over the token sequence. Grammar decisions see
/// only significant tokens; the trivia stays in the buffer for the sink.
pub(crate) struct Source<'t> {
    pub(crate) tokens: &'t Vec<Token>,
    pub(crate) cursor: usize,
}

impl<'t> Source<'t> {
    pub(crate) open spec fn toks(&self) -> Seq<TokenModel> {
        self.tokens@.map_values(|t: Token| t@)
    }

    pub(crate) open spec fn wf(&self) -> bool {
        self.cursor <= self.tokens@.len()
    }

    /// The significant tokens not yet consumed: the measure every consuming
    /// step decreases.
    pub(crate) open spec fn remaining(&self) -> int {
        sig_from(self.toks(), self.cursor as int)
    }

    /// The index of the next significant token, or the end.
    pub(crate) open spec fn sig_pos(&self) -> int {
        next_sig(self.toks(), self.cursor as int)
    }

    /// The kind the grammar sees next, if any.
    pub(crate) open spec fn spec_peek(&self) -> Option<SyntaxKind> {
        if self.sig_pos() < self.toks().len() {
            Some(SyntaxKind::spec_from(self.toks()[self.sig_pos()].kind))
        } else {
            None
        }
    }

    pub(crate) fn new(tokens: &'t Vec<Token>) -> (r: Source<'t>)
        ensures
            r.wf(),
            r.tokens == tokens,
            r.cursor == 0,
    {
        Source { tokens, cursor: 0 }
    }

    fn at_trivia(&self) -> (r: bool)
        requires
            self.wf(),
        ensures
            r == (self.cursor < self.toks().len() && self.toks()[self.cursor as int].kind.spec_is_trivia()),
    {
        if self.cursor < self.tokens.len() {
            self.tokens[self.cursor].kind.is_trivia()
        } else {
            false
        }
    }

    fn eat_trivia(&mut self)
        requires
            old(self).wf(),
        ensures
            final (self).wf(),
            final (self).tokens == old(self).tokens,
            final (self).cursor == next_sig(old(self).toks(), old(self).cursor as int),
    {
        let n = self.tokens.len();
        while self.at_trivia()
            invariant
                self.wf(),
                self.tokens == old(self).tokens,
                n == self.toks().len(),
                next_sig(self.toks(), self.cursor as int) == next_sig(
                    old(self).toks(),
                    old(self).cursor as int,
                ),
            decreases self.toks().len() - self.cursor,
        {
            self.cursor = self.cursor + 1;
        }
    }

    /// The syntax kind of the token under the cursor, trivia included.
    fn peek_raw(&self) -> (r: Option<SyntaxKind>)
        requires
            self.wf(),
        ensures
            r == (if self.cursor < self.toks().len() {
                Some(SyntaxKind::spec_from(self.toks()[self.cursor as int].kind))
            } else {
                None
            }),
    {
        if self.cursor < self.tokens.len() {
            Some(SyntaxKind::from(self.tokens[self.cursor].kind))
        } else {
            None
        }
    }

    /// The syntax kind of the next significant token, without consuming it.
    pub(crate) fn peek_kind(&mut self) -> (r: Option<SyntaxKind>)
        requires
            old(self).wf(),
        ensures
            final (self).wf(),
            final (self).tokens == old(self).tokens,
            final (self).cursor == next_sig(old(self).toks(), old(self).cursor as int),
            final (self).remaining() == old(self).remaining(),
            r == old(self).spec_peek(),
    {
        proof {
            lemma_sig_from_next(self.toks(), self.cursor as int);
            lemma_next_sig_bounds(self.toks(), self.cursor as int);
        }
        self.eat_trivia();
        self.peek_raw()
    }

    /// The next significant token itself, without consuming it.
    pub(crate) fn peek_token(&mut self) -> (r: Option<&'t Token>)
        requires
            old(self).wf(),
        ensures
            final (self).wf(),
            final (self).tokens == old(self).tokens,
            final (self).cursor == next_sig(old(self).toks(), old(self).cursor as int),
            final (self).remaining() == old(self).remaining(),
            match r {
                Some(t) => {
                    &&& final (self).cursor < final (self).toks().len()
                    &&& t@ == final (self).toks()[final (self).cursor as int]
                },
                None => final (self).cursor == final (self).toks().len(),
            },
    {
        proof {
            lemma_sig_from_next(self.toks(), self.cursor as int);
            lemma_next_sig_bounds(self.toks(), self.cursor as int);
        }
        self.eat_trivia();
        if self.cursor < self.tokens.len() {
            Some(&self.tokens[self.cursor])
        } else {
            None
        }
    }

    /// Consumes the next significant token (and, silently, the trivia before
    /// it). Returns nothing at the end of input.
    pub(crate) fn next_token(&mut self) -> (r: Option<&'t Token>)
        requires
            old(self).wf(),
        ensures
            final (self).wf(),
            final (self).tokens == old(self).tokens,
            match r {
                Some(t) => {
                    &&& old(self).spec_peek() is Some
                    &&& final (self).cursor == next_sig(old(self).toks(), old(self).cursor as int)
                        + 1
                    &&& t@ == old(self).toks()[next_sig(old(self).toks(), old(self).cursor as int)]
                    &&& !t@.kind.spec_is_trivia()
                    &&& final (self).remaining() == old(self).remaining() - 1
                },
                None => {
                    &&& old(self).spec_peek() is None
                    &&& final (self).cursor == old(self).toks().len()
                    &&& final (self).remaining() == old(self).remaining()
                },
            },
    {
        proof {
            lemma_sig_from_next(self.toks(), self.cursor as int);
            lemma_next_sig_bounds(self.toks(), self.cursor as int);
        }
        self.eat_trivia();
        if self.cursor < self.tokens.len() {
            let t = &self.tokens[self.cursor];
            proof {
                lemma_sig_from_consume(self.toks(), self.cursor as int);
            }
            self.cursor = self.cursor + 1;
            Some(t)
        } else {
            None
        }
    }

    /// The range of the last token of the input, used for reporting an error
    /// at the end; the empty range at offset zero when there is no input.
    pub(crate) fn last_token_range(&self) -> (r: (usize, usize))
        requires
            self.wf(),
        ensures
            self.toks().len() > 0 ==> (r.0 as int, r.1 as int) == token_span(self.toks().last()),
            self.toks().len() == 0 ==> r == (0usize, 0usize),
    {
        if self.tokens.len() > 0 {
            let t = &self.tokens[self.tokens.len() - 1];
            let w = t.text.as_str().unicode_len();
            if t.start <= usize::MAX - w {
                (t.start, t.start + w)
            } else {
                (t.start, usize::MAX)
            }
        } else {
            (0, 0)
        }
    }
}


/// A prefix never holds more significant tokens than the whole.
pub proof fn lemma_sig_count_prefix(ts: Seq<TokenModel>, i: int)
    requires
        0 <= i <= ts.len(),
    ensures
        sig_count(ts.take(i)) + sig_count(ts.skip(i)) == sig_count(ts),
        sig_count(ts.take(i)) <= sig_count(ts),
{
    assert(ts.take(i) + ts.skip(i) =~= ts);
    lemma_sig_count_concat(ts.take(i), ts.skip(i));
    lemma_sig_count_nonneg(ts.skip(i));
}

/// Consuming one more token adds its weight to the prefix count.
pub proof fn lemma_sig_count_take_snoc(ts: Seq<TokenModel>, i: int)
    requires
        0 <= i < ts.len(),
    ensures
        sig_count(ts.take(i + 1)) == sig_count(ts.take(i)) + (if ts[i].kind.spec_is_trivia() {
            0int
        } else {
            1
        }),
{
    assert(ts.take(i + 1).drop_last() =~= ts.take(i));
    assert(ts.take(i + 1).last() == ts[i]);
}

} // verus!
