pub mod event;
pub mod grammar;
pub mod marker;
pub mod parse_error;
pub mod sink;
pub mod source;

use crate::lexer::Token;
use crate::parser::event::{
    bal,
    err_list, errs_wf, fp_wf, is_target, lemma_counts_concat, lemma_err_push, lemma_fp_wf_forward,
    lemma_ops_frame, lemma_ops_push, on_chain, op_at, op_plain, ops_of, ops_upto,
    targets_distinct, tok_count, Event, Op,
};
use crate::parser::parse_error::{ParseError, TextRange};
use crate::parser::source::sig_count;
use crate::parser::marker::{marker_wf, Marker};
use crate::parser::source::Source;
use crate::syntax::SyntaxKind;
use vstd::prelude::*;

verus! {

/// The event producer: reads significant tokens through the source cursor
/// and appends structural events to the log, never building a tree itself.
pub(crate) struct Parser<'t> {
    pub(crate) source: Source<'t>,
    pub(crate) events: Vec<Event>,
    pub(crate) expected_kinds: Vec<SyntaxKind>,
}

impl<'t> Parser<'t> {
    /// The running well-formedness of the log: forward parents point ahead
    /// at starts or open placeholders, no two at the same entry, recorded
    /// errors are sound, and the resolved token operations match exactly the
    /// significant tokens consumed so far.
    pub(crate) open spec fn wf(&self) -> bool {
        &&& self.source.wf()
        &&& fp_wf(self.events@)
        &&& targets_distinct(self.events@)
        &&& errs_wf(self.events@)
        &&& forall|i: int|
            0 <= i < self.expected_kinds@.len() ==> (
            #[trigger] self.expected_kinds@[i]).is_terminal()
        &&& tok_count(ops_of(self.events@)) == sig_count(self.source.toks())
            - self.source.remaining()
    }

    pub(crate) open spec fn toks(&self) -> Seq<crate::lexer::TokenModel> {
        self.source.toks()
    }

    pub(crate) fn new(source: Source<'t>) -> (r: Parser<'t>)
        requires
            source.wf(),
            source.cursor == 0,
        ensures
            r.wf(),
            r.events@.len() == 0,
            r.source == source,
            ops_of(r.events@) == Seq::<Op>::empty(),
            err_list(r.events@) == Seq::<crate::parser::parse_error::ParseError>::empty(),
    {
        let r = Parser { source, events: Vec::new(), expected_kinds: Vec::new() };
        proof {
            assert(r.events@ =~= Seq::<Event>::empty());
            assert(ops_of(r.events@) =~= Seq::<Op>::empty());
            assert(r.source.toks().skip(0) =~= r.source.toks());
        }
        r
    }

    /// The kind of the next significant token, or nothing at the end.
    pub(crate) fn peek(&mut self) -> (r: Option<SyntaxKind>)
        requires
            old(self).wf(),
        ensures
            final (self).wf(),
            final (self).events == old(self).events,
            final (self).expected_kinds == old(self).expected_kinds,
            final (self).source.tokens == old(self).source.tokens,
            final (self).source.remaining() == old(self).source.remaining(),
            final (self).source.spec_peek() == old(self).source.spec_peek(),
            final (self).source.cursor == crate::parser::source::next_sig(
                old(self).source.toks(),
                old(self).source.cursor as int,
            ),
            r == old(self).source.spec_peek(),
    {
        let r = self.source.peek_kind();
        proof {
            crate::parser::source::lemma_next_sig_bounds(
                self.source.toks(),
                old(self).source.cursor as int,
            );
        }
        r
    }

    /// Whether the next significant kind is `kind`; records it as expected.
    pub(crate) fn at(&mut self, kind: SyntaxKind) -> (r: bool)
        requires
            old(self).wf(),
            kind.is_terminal(),
        ensures
            final (self).wf(),
            final (self).events == old(self).events,
            final (self).expected_kinds@ == old(self).expected_kinds@.push(kind),
            final (self).source.tokens == old(self).source.tokens,
            final (self).source.remaining() == old(self).source.remaining(),
            final (self).source.spec_peek() == old(self).source.spec_peek(),
            final (self).source.cursor == crate::parser::source::next_sig(
                old(self).source.toks(),
                old(self).source.cursor as int,
            ),
            r == (old(self).source.spec_peek() == Some(kind)),
    {
        self.expected_kinds.push(kind);
        let p = self.peek();
        match p {
            Some(k) => k == kind,
            None => false,
        }
    }

    pub(crate) fn at_end(&mut self) -> (r: bool)
        requires
            old(self).wf(),
        ensures
            final (self).wf(),
            final (self).events == old(self).events,
            final (self).expected_kinds == old(self).expected_kinds,
            final (self).source.tokens == old(self).source.tokens,
            final (self).source.remaining() == old(self).source.remaining(),
            final (self).source.spec_peek() == old(self).source.spec_peek(),
            r == (old(self).source.spec_peek() is None),
    {
        let p = self.peek();
        p.is_none()
    }

    /// Whether the next kind belongs to the recovery set: the statement
    /// boundary at which error recovery refuses to consume. The set holds
    /// only the `let` keyword.
    pub(crate) fn at_recovery(&mut self) -> (r: bool)
        requires
            old(self).wf(),
        ensures
            final (self).wf(),
            final (self).events == old(self).events,
            final (self).expected_kinds == old(self).expected_kinds,
            final (self).source.tokens == old(self).source.tokens,
            final (self).source.remaining() == old(self).source.remaining(),
            final (self).source.spec_peek() == old(self).source.spec_peek(),
            r == (old(self).source.spec_peek() == Some(SyntaxKind::LetKw)),
    {
        let p = self.peek();
        match p {
            Some(k) => k == SyntaxKind::LetKw,
            None => false,
        }
    }

    /// Consumes the next significant token into the current node.
    pub(crate) fn bump(&mut self)
        requires
            old(self).wf(),
            old(self).source.spec_peek() is Some,
        ensures
            final (self).wf(),
            final (self).events@ == old(self).events@.push(Event::AddToken),
            final (self).expected_kinds@.len() == 0,
            final (self).source.tokens == old(self).source.tokens,
            final (self).source.remaining() == old(self).source.remaining() - 1,
            ops_of(final (self).events@) == ops_of(old(self).events@) + seq![Op::Tok],
            err_list(final (self).events@) == err_list(old(self).events@),
            forall|m: int|
                0 <= m <= old(self).events@.len() ==> ops_upto(final (self).events@, m) == ops_upto(
                    old(self).events@,
                    m,
                ),
            forall|j: int|
                0 <= j < old(self).events@.len() ==> is_target(final (self).events@, j) == is_target(
                    old(self).events@,
                    j,
                ),
            forall|o: int, j: int|
                0 <= o < old(self).events@.len() && 0 <= j < old(self).events@.len()
                    ==> #[trigger] on_chain(final (self).events@, o, j) == on_chain(
                    old(self).events@,
                    o,
                    j,
                ),
    {
        self.expected_kinds.clear();
        let t = self.source.next_token();
        match t {
            Some(_) => {},
            None => {
                proof {
                    assert(false);
                }
            },
        }
        proof {
            lemma_ops_push(self.events@, Event::AddToken);
            lemma_err_push(self.events@, Event::AddToken);
            lemma_fp_wf_forward(self.events@);
            lemma_fp_wf_forward(self.events@.push(Event::AddToken));
            lemma_ops_frame(
                self.events@,
                self.events@.push(Event::AddToken),
                self.events@.len() as int,
            );
        }
        self.events.push(Event::AddToken);
        proof {
            lemma_counts_concat(ops_of(old(self).events@), seq![Op::Tok]);
            assert(tok_count(seq![Op::Tok]) == 1) by {
                assert(seq![Op::Tok].len() == 1);
                assert(seq![Op::Tok].drop_last() =~= Seq::<Op>::empty());
                assert(seq![Op::Tok].last() == Op::Tok);
                assert(tok_count(Seq::<Op>::empty()) == 0);
            }
            assert(err_list(old(self).events@.push(Event::AddToken)) =~= err_list(
                old(self).events@,
            ));
        }
    }

    /// Reserves a slot in the log and hands back its marker.
    pub(crate) fn start(&mut self) -> (m: Marker)
        requires
            old(self).wf(),
        ensures
            final (self).wf(),
            final (self).events@ == old(self).events@.push(Event::Placeholder),
            final (self).expected_kinds == old(self).expected_kinds,
            final (self).source == old(self).source,
            m.pos == old(self).events@.len(),
            m.origin@ == m.pos as int,
            marker_wf(m, final (self).events@),
            ops_of(final (self).events@) == ops_of(old(self).events@),
            ops_upto(final (self).events@, m.pos + 1) == ops_of(old(self).events@),
            err_list(final (self).events@) == err_list(old(self).events@),
            forall|m2: int|
                0 <= m2 <= old(self).events@.len() ==> ops_upto(final (self).events@, m2)
                    == ops_upto(old(self).events@, m2),
            forall|j: int|
                0 <= j < old(self).events@.len() ==> is_target(final (self).events@, j) == is_target(
                    old(self).events@,
                    j,
                ),
            !is_target(final (self).events@, m.pos as int),
            forall|o: int, j: int|
                0 <= o < old(self).events@.len() && 0 <= j < old(self).events@.len()
                    ==> #[trigger] on_chain(final (self).events@, o, j) == on_chain(
                    old(self).events@,
                    o,
                    j,
                ),
    {
        let pos = self.events.len();
        proof {
            lemma_ops_push(self.events@, Event::Placeholder);
            lemma_err_push(self.events@, Event::Placeholder);
            lemma_fp_wf_forward(self.events@);
            lemma_fp_wf_forward(self.events@.push(Event::Placeholder));
            lemma_ops_frame(
                self.events@,
                self.events@.push(Event::Placeholder),
                self.events@.len() as int,
            );
        }
        self.events.push(Event::Placeholder);
        proof {
            lemma_counts_concat(ops_of(old(self).events@), op_plain(Event::Placeholder));
            assert(op_plain(Event::Placeholder) =~= Seq::<Op>::empty());
            assert(ops_of(self.events@) =~= ops_of(old(self).events@));
            assert(ops_upto(self.events@, pos + 1) == ops_upto(self.events@, pos as int) + op_at(
                self.events@,
                pos as int,
            ));
            assert(ops_upto(self.events@, pos + 1) =~= ops_of(old(self).events@));
            assert(err_list(old(self).events@.push(Event::Placeholder)) =~= err_list(
                old(self).events@,
            ));
        }
        Marker::new(pos)
    }

    /// Runs the grammar over the source and hands back the finished log: a
    /// single well-nested tree of events, rooted in a root node, with every
    /// significant token consumed.
    pub(crate) fn parse(self) -> (events: Vec<Event>)
        requires
            self.wf(),
            self.events@.len() == 0,
            self.source.cursor == 0,
        ensures
            crate::parser::sink::sink_input_wf(events@, self.source.toks()),
            event::kind_of(events@[0]) == SyntaxKind::Root,
            self.source.toks().len() == 0 ==> ops_of(events@) == seq![
                Op::Open(SyntaxKind::Root),
                Op::Tok,
            ].update(1, Op::Close) && err_list(events@) == Seq::<
                crate::parser::parse_error::ParseError,
            >::empty(),
    {
        let ghost toks0 = self.source.toks();
        let mut this = self;
        crate::parser::grammar::root(&mut this);
        proof {
            assert(this.source.toks() == toks0);
            assert(tok_count(ops_of(this.events@)) == sig_count(this.source.toks()));
            assert(event::fp_of(this.events@[0]) is None);
        }
        this.events
    }

    /// Records a diagnostic: the kinds expected so far, and what was found
    /// instead. Unless the offending token opens a statement (the recovery
    /// set) or the input has ended, it is consumed into an error node, so
    /// the parse always moves forward.
    pub(crate) fn error(&mut self)
        requires
            old(self).wf(),
            old(self).expected_kinds@.len() >= 1,
        ensures
            final (self).wf(),
            final (self).source.tokens == old(self).source.tokens,
            final (self).expected_kinds@.len() == 0,
            final (self).events@.len() >= old(self).events@.len(),
            forall|i: int|
                0 <= i < old(self).events@.len() ==> final (self).events@[i] == old(
                    self,
                ).events@[i],
            forall|i: int|
                old(self).events@.len() <= i < final (self).events@.len() ==> !(final (
                self).events@[i] is Placeholder),
            err_list(final (self).events@).drop_last() == err_list(old(self).events@),
            err_list(final (self).events@).len() == err_list(old(self).events@).len() + 1,
            err_list(final (self).events@).last().expected@ == old(self).expected_kinds@,
            err_list(final (self).events@).last().found == old(self).source.spec_peek(),
            ({
                let rg = err_list(final (self).events@).last().range;
                (rg.start as int, rg.end as int) == crate::parser::source::error_span(
                    old(self).source.toks(),
                    old(self).source.cursor as int,
                )
            }),
            ({
                let pk = old(self).source.spec_peek();
                if pk is Some && pk != Some(SyntaxKind::LetKw) {
                    &&& ops_of(final (self).events@) == ops_of(old(self).events@) + seq![
                        Op::Open(SyntaxKind::Error),
                        Op::Tok,
                        Op::Close,
                    ]
                    &&& final (self).source.remaining() == old(self).source.remaining() - 1
                } else {
                    &&& ops_of(final (self).events@) == ops_of(old(self).events@)
                    &&& final (self).source.remaining() == old(self).source.remaining()
                }
            }),
    {
        let ghost e_entry = self.events@;
        let ghost pk = self.source.spec_peek();
        let t = self.source.peek_token();
        let (found, range): (Option<SyntaxKind>, TextRange) = match t {
            Some(tok) => {
                let w = tok.text.as_str().unicode_len();
                let end = if tok.start <= usize::MAX - w {
                    tok.start + w
                } else {
                    usize::MAX
                };
                proof {
                    crate::parser::source::lemma_next_sig_bounds(
                        self.source.toks(),
                        old(self).source.cursor as int,
                    );
                }
                (Some(SyntaxKind::from(tok.kind)), TextRange { start: tok.start, end })
            },
            None => {
                let r = self.source.last_token_range();
                (None, TextRange { start: r.0, end: r.1 })
            },
        };
        let mut expected: Vec<SyntaxKind> = Vec::new();
        core::mem::swap(&mut expected, &mut self.expected_kinds);
        let err = ParseError { expected, found, range };
        proof {
            assert(err.wf()) by {
                match found {
                    Some(k) => {
                        assert(k.is_terminal());
                    },
                    None => {},
                }
            }
            lemma_ops_push(self.events@, Event::Error(err));
            lemma_err_push(self.events@, Event::Error(err));
            lemma_fp_wf_forward(self.events@);
            lemma_fp_wf_forward(self.events@.push(Event::Error(err)));
            lemma_ops_frame(
                self.events@,
                self.events@.push(Event::Error(err)),
                self.events@.len() as int,
            );
        }
        let ghost errv = err;
        self.events.push(Event::Error(err));
        proof {
            lemma_counts_concat(ops_of(e_entry), op_plain(Event::Error(errv)));
            assert(op_plain(Event::Error(errv)) =~= Seq::<Op>::empty());
            assert(ops_of(self.events@) =~= ops_of(e_entry));
        }
        let ghost e_err = self.events@;
        let recov = self.at_recovery();
        let at_end = self.at_end();
        if !recov && !at_end {
            let m = self.start();
            let ghost e_started = self.events@;
            self.bump();
            proof {
                assert(marker_wf(m, self.events@)) by {
                    assert(self.events@[m.pos as int] == e_started[m.pos as int]);
                }
            }
            let cm = m.complete(self, SyntaxKind::Error);
            proof {
                let full = ops_of(self.events@);
                let o_err = ops_of(e_err);
                assert(ops_upto(e_started, m.pos + 1) == o_err);
                let e_bumped = e_started.push(Event::AddToken);
                assert(ops_upto(e_bumped, m.pos + 1) == o_err);
                let p_ins = ops_upto(e_bumped, m.origin@ + 1).len() as int;
                assert(p_ins == o_err.len());
                assert(ops_of(e_bumped) == o_err + seq![Op::Tok]);
                assert((o_err + seq![Op::Tok]).take(p_ins) =~= o_err);
                assert((o_err + seq![Op::Tok]).skip(p_ins) =~= seq![Op::Tok]);
                assert(full =~= o_err + seq![
                    Op::Open(SyntaxKind::Error),
                    Op::Tok,
                    Op::Close,
                ]);
                assert(err_list(self.events@) =~= err_list(e_err));
                assert(err_list(self.events@).drop_last() =~= err_list(e_entry));
                assert forall|i: int|
                    e_entry.len() <= i < self.events@.len() implies !(self.events@[i]
                    is Placeholder) by {
                    if i == e_entry.len() {
                        assert(self.events@[i] == e_bumped[i]);
                        assert(e_bumped[i] == Event::Error(errv));
                    } else if i == m.pos {
                        assert(self.events@[i] == (Event::StartNode {
                            kind: SyntaxKind::Error,
                            forward_parent: None,
                        }));
                    } else if i == m.pos + 1 {
                        assert(self.events@[i] == e_bumped[i]);
                        assert(e_bumped[i] == Event::AddToken);
                    } else {
                        assert(i == self.events@.len() - 1);
                        assert(self.events@[i] == Event::FinishNode);
                    }
                }
            }
        } else {
            proof {
                assert(err_list(self.events@).drop_last() =~= err_list(e_entry));
            }
        }
    }

    /// Consumes the next token when it has the expected kind; otherwise
    /// records the error and recovers.
    pub(crate) fn expect(&mut self, kind: SyntaxKind)
        requires
            old(self).wf(),
            kind.is_terminal(),
        ensures
            final (self).wf(),
            final (self).source.tokens == old(self).source.tokens,
            final (self).events@.len() >= old(self).events@.len(),
            forall|i: int|
                0 <= i < old(self).events@.len() ==> final (self).events@[i] == old(
                    self,
                ).events@[i],
            forall|i: int|
                old(self).events@.len() <= i < final (self).events@.len() ==> !(final (
                self).events@[i] is Placeholder),
            ops_of(final (self).events@).len() >= ops_of(old(self).events@).len(),
            ops_of(final (self).events@).take(ops_of(old(self).events@).len() as int) == ops_of(
                old(self).events@,
            ),
            event::is_forest(
                ops_of(final (self).events@).skip(ops_of(old(self).events@).len() as int),
            ),
            tok_count(ops_of(final (self).events@)) >= tok_count(ops_of(old(self).events@)),
            err_list(final (self).events@).take(err_list(old(self).events@).len() as int)
                == err_list(old(self).events@),
            err_list(final (self).events@).len() >= err_list(old(self).events@).len(),
            old(self).source.spec_peek() == Some(kind) ==> {
                &&& final (self).events@ == old(self).events@.push(Event::AddToken)
                &&& ops_of(final (self).events@) == ops_of(old(self).events@) + seq![Op::Tok]
                &&& err_list(final (self).events@) == err_list(old(self).events@)
                &&& final (self).source.remaining() == old(self).source.remaining() - 1
            },
            old(self).source.spec_peek() != Some(kind) ==> {
                &&& err_list(final (self).events@).len() == err_list(old(self).events@).len() + 1
                &&& err_list(final (self).events@).drop_last() == err_list(old(self).events@)
                &&& err_list(final (self).events@).last().expected@ == old(
                    self,
                ).expected_kinds@.push(kind)
                &&& err_list(final (self).events@).last().found == old(self).source.spec_peek()
                &&& ({
                    let rg = err_list(final (self).events@).last().range;
                    (rg.start as int, rg.end as int) == crate::parser::source::error_span(
                        old(self).source.toks(),
                        old(self).source.cursor as int,
                    )
                })
                &&& ({
                    let pk = old(self).source.spec_peek();
                    if pk is Some && pk != Some(SyntaxKind::LetKw) {
                        &&& ops_of(final (self).events@) == ops_of(old(self).events@) + seq![
                            Op::Open(SyntaxKind::Error),
                            Op::Tok,
                            Op::Close,
                        ]
                        &&& final (self).source.remaining() == old(self).source.remaining() - 1
                    } else {
                        &&& ops_of(final (self).events@) == ops_of(old(self).events@)
                        &&& final (self).source.remaining() == old(self).source.remaining()
                    }
                })
            },
            final (self).source.remaining() <= old(self).source.remaining(),
            final (self).source.remaining() >= old(self).source.remaining() - 1,
    {
        let ghost e_entry = self.events@;
        if self.at(kind) {
            self.bump();
            proof {
                assert(ops_of(self.events@).take(ops_of(e_entry).len() as int) =~= ops_of(e_entry));
                assert(ops_of(self.events@).skip(ops_of(e_entry).len() as int) =~= seq![Op::Tok]);
                event::lemma_tok_forest();
                lemma_counts_concat(ops_of(e_entry), seq![Op::Tok]);
                assert(err_list(self.events@).take(err_list(e_entry).len() as int) =~= err_list(
                    e_entry,
                ));
            }
        } else {
            proof {
                crate::parser::source::lemma_next_sig_idem(
                    old(self).source.toks(),
                    old(self).source.cursor as int,
                );
            }
            self.error();
            proof {
                let o0 = ops_of(e_entry);
                let full = ops_of(self.events@);
                let pk = old(self).source.spec_peek();
                if pk is Some && pk != Some(SyntaxKind::LetKw) {
                    assert(full.take(o0.len() as int) =~= o0);
                    let c = seq![Op::Open(SyntaxKind::Error), Op::Tok, Op::Close];
                    assert(full.skip(o0.len() as int) =~= c);
                    assert(event::is_forest(c)) by {
                        event::lemma_leaf_tree_ops_general(SyntaxKind::Error);
                        event::lemma_tree_is_forest(c);
                    }
                    lemma_counts_concat(o0, c);
                } else {
                    assert(full.take(o0.len() as int) =~= o0);
                    assert(full.skip(o0.len() as int) =~= Seq::<Op>::empty());
                    event::lemma_empty_forest();
                }
                assert(err_list(self.events@).take(err_list(e_entry).len() as int) =~= err_list(
                    e_entry,
                ));
            }
        }
    }
}



/// Parses the source text: the lexer splits it into tokens, the parser
/// records the grammar's decisions as a flat event log, and the sink replays
/// the log into a lossless tree. The tree's leaves, trivia included, are
/// exactly the tokens of the input in order, so their concatenated text is
/// the input itself; parsing never fails, it reports what it could not
/// understand in the error list.
pub fn parse(input: &str) -> (r: Parse)
    ensures
        r.wf(),
        crate::tree::node_text(r.root) == input@,
        crate::tree::node_leaves(r.root) == crate::parser::sink::tokens_leaves(
            crate::lexer::lex_spec(input@, 0),
        ),
        r.root.kind == SyntaxKind::Root,
        input@.len() == 0 ==> r.errors@.len() == 0 && r.root.children@.len() == 0,
{
    let _input_chars = input.unicode_len();
    let tokens = crate::lexer::lex(input);
    let ghost toks = tokens@.map_values(|t: Token| t@);
    let source = Source::new(&tokens);
    let parser = Parser::new(source);
    proof {
        assert(toks == crate::lexer::lex_spec(input@, 0));
    }
    let events = parser.parse();
    let _event_count = events.len();
    let ghost ev = events@;
    let ghost ops = ops_of(ev);
    let (root, errors) = crate::parser::sink::finish(&tokens, events);
    proof {
        // the tree's text is the input, character for character
        crate::tree::lemma_children_text_is_leaves(root.children@);
        crate::parser::sink::lemma_tokens_leaves_text(toks);
        crate::lexer::lemma_lex_covers(input@, 0);
        // the renderer's machine limits are met
        assert(crate::tree::node_text(root).len() <= usize::MAX);
        crate::parser::event::lemma_close_bound(ev, ev.len() as int);
        assert(crate::tree::children_node_count(root.children@) < usize::MAX) by {
            assert(bal(ops_of(ev)) == 0);
            assert(ops_upto(ev, ev.len() as int) == ops_of(ev));
            assert(1int + crate::tree::children_node_count(root.children@) as int
                == crate::parser::event::open_count(ops_of(ev)));
        }
        // an empty input gives a bare root and no diagnostics
        if input@.len() == 0 {
            assert(toks.len() == 0) by {
                assert(crate::lexer::lex_spec(input@, 0) =~= Seq::<crate::lexer::TokenModel>::empty());
            }
            assert(errors@.len() == 0) by {
                assert(err_list(ev) =~= Seq::<crate::parser::parse_error::ParseError>::empty());
                assert(err_list(ev).map_values(|e: crate::parser::parse_error::ParseError|
                    crate::parser::sink::err_model(e)) =~= Seq::<(
                    Seq<SyntaxKind>,
                    Option<SyntaxKind>,
                    (usize, usize),
                )>::empty());
                assert(errors@.map_values(|e: crate::parser::parse_error::ParseError|
                    crate::parser::sink::err_model(e)).len() == 0);
            }
            assert(crate::parser::event::open_count(ops_of(ev)) == 1) by {
                let o = seq![Op::Open(SyntaxKind::Root), Op::Tok].update(1, Op::Close);
                let o1 = seq![Op::Open(SyntaxKind::Root)];
                assert(ops_of(ev) == o);
                assert(o.len() == 2);
                assert(o.last() == Op::Close);
                assert(o.drop_last() =~= o1);
                assert(crate::parser::event::open_count(o1) == 1) by {
                    assert(o1.len() == 1);
                    assert(o1.last() == Op::Open(SyntaxKind::Root));
                    assert(o1.drop_last() =~= Seq::<Op>::empty());
                    assert(crate::parser::event::open_count(Seq::<Op>::empty()) == 0);
                }
                assert(crate::parser::event::open_count(o) == crate::parser::event::open_count(o1)
                    + 0);
            }
            assert(crate::tree::children_node_count(root.children@) == 0);
            assert(crate::tree::children_leaves(root.children@) =~= Seq::<
                crate::tree::LeafModel,
            >::empty()) by {
                assert(crate::parser::sink::tokens_leaves(toks) =~= Seq::<
                    crate::tree::LeafModel,
                >::empty());
            }
            crate::tree::lemma_children_empty(root.children@);
        }
    }
    Parse { root, errors }
}

/// The result of a parse: the tree, always covering the whole input, and
/// the diagnostics gathered along the way.
pub struct Parse {
    pub root: crate::tree::SyntaxNode,
    pub errors: Vec<crate::parser::parse_error::ParseError>,
}

impl Parse {
    /// The rendered form of a parse fits the renderer's machine limits.
    pub open spec fn wf(&self) -> bool {
        &&& crate::tree::node_text(self.root).len() <= usize::MAX
        &&& crate::tree::children_node_count(self.root.children@) < usize::MAX
        &&& forall|j: int| 0 <= j < self.errors@.len() ==> (#[trigger] self.errors@[j]).wf()
    }

    /// The golden textual form of the tree: one line per node or leaf, each
    /// `Kind@start..end`, leaves also quoting their text.
    pub fn debug_tree(&self) -> (s: String)
        requires
            self.wf(),
        ensures
            s@ == crate::tree::render_root(self.root),
    {
        crate::tree::render_tree(&self.root)
    }
}

} // verus!
