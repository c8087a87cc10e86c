use crate::parser::event::{
    bal, closed_upto, err_list, is_forest, is_tree_ops, lemma_bal_all_opens, lemma_boundary_frame,
    lemma_empty_forest, lemma_fp_wf_forward, lemma_forest_concat, lemma_leaf_tree_ops_general,
    lemma_ops_upto_grows, lemma_prefix_trans, lemma_tok_forest, lemma_tree_is_forest, lemma_wrap,
    lemma_wrap_forest, ops_of, ops_upto, Event, Op,
};
use crate::parser::marker::{completed_wf, marker_wf, CompletedMarker, Marker};
use crate::parser::parse_error::ParseError;
use crate::parser::source::{lemma_sig_count_nonneg, lemma_sig_from_next};
use crate::parser::Parser;
use crate::syntax::SyntaxKind;
use vstd::prelude::*;

verus! {

/// An infix operator of the expression grammar.
pub(crate) enum InfixOp {
    Add,
    Sub,
    Mul,
    Div,
}

impl InfixOp {
    /// The operator's left and right binding powers: addition and
    /// subtraction bind weakest, multiplication and division tighter. The
    /// right power exceeding the left by one makes equal-power chains group
    /// to the left.
    pub(crate) fn binding_power(&self) -> (r: (u8, u8))
        ensures
            r == match self {
                InfixOp::Add => (1u8, 2u8),
                InfixOp::Sub => (1u8, 2u8),
                InfixOp::Mul => (3u8, 4u8),
                InfixOp::Div => (3u8, 4u8),
            },
    {
        match self {
            InfixOp::Add | InfixOp::Sub => (1, 2),
            InfixOp::Mul | InfixOp::Div => (3, 4),
        }
    }
}

/// A prefix operator: only negation.
pub(crate) enum PrefixOp {
    Neg,
}

impl PrefixOp {
    /// Negation has no left operand; its right binding power beats every
    /// infix operator, so `-20+20` parses as `(-20)+20`.
    pub(crate) fn binding_power(&self) -> (r: ((), u8))
        ensures
            r.1 == 5,
    {
        match self {
            PrefixOp::Neg => ((), 5),
        }
    }
}

/// The common shape of every grammar step: the parser stays well formed, the
/// log only grows (entries already written never change), the new entries
/// hold no placeholder, the resolved operations gain a well-nested forest,
/// recorded errors are kept, and input is only ever consumed.
pub(crate) open spec fn extends<'t>(pre: Parser<'t>, post: Parser<'t>) -> bool {
    &&& post.wf()
    &&& post.source.tokens == pre.source.tokens
    &&& post.events@.len() >= pre.events@.len()
    &&& (forall|i: int| 0 <= i < pre.events@.len() ==> post.events@[i] == pre.events@[i])
    &&& (forall|i: int|
        pre.events@.len() <= i < post.events@.len() ==> !((#[trigger] post.events@[i])
            is Placeholder))
    &&& ops_of(post.events@).len() >= ops_of(pre.events@).len()
    &&& ops_of(post.events@).take(ops_of(pre.events@).len() as int) == ops_of(pre.events@)
    &&& is_forest(ops_of(post.events@).skip(ops_of(pre.events@).len() as int))
    &&& err_list(post.events@).len() >= err_list(pre.events@).len()
    &&& err_list(post.events@).take(err_list(pre.events@).len() as int) == err_list(pre.events@)
    &&& post.source.remaining() <= pre.source.remaining()
}

/// The whole grammar: a root node holding the statements of the input, all
/// of it, whatever the input was.
pub(crate) fn root(p: &mut Parser<'_>)
    requires
        old(p).wf(),
        old(p).events@.len() == 0,
        old(p).source.cursor == 0,
    ensures
        final (p).wf(),
        final (p).source.tokens == old(p).source.tokens,
        final (p).source.remaining() == 0,
        forall|i: int|
            0 <= i < final (p).events@.len() ==> !((#[trigger] final (p).events@[i])
                is Placeholder),
        is_tree_ops(ops_of(final (p).events@)),
        final (p).events@.len() >= 2,
        final (p).events@[0] == (Event::StartNode {
            kind: SyntaxKind::Root,
            forward_parent: None,
        }),
        !crate::parser::event::is_target(final (p).events@, 0),
        final (p).events@.last() == Event::FinishNode,
        old(p).source.toks().len() == 0 ==> ops_of(final (p).events@) == seq![
            Op::Open(SyntaxKind::Root),
            Op::Tok,
        ].update(1, Op::Close) && err_list(final (p).events@) == Seq::<ParseError>::empty(),
{
    let m = p.start();
    let ghost e_started = p.events@;
    let mut done = p.at_end();
    proof {
        lemma_empty_forest();
        assert(ops_of(e_started) =~= Seq::<Op>::empty());
        assert(is_forest(ops_of(p.events@)));
    }
    while !done
        invariant
            p.wf(),
            p.source.tokens == old(p).source.tokens,
            p.events@.len() >= 1,
            p.events@[0] is Placeholder,
            !crate::parser::event::is_target(p.events@, 0),
            done == (p.source.spec_peek() is None),
            forall|i: int|
                1 <= i < p.events@.len() ==> !((#[trigger] p.events@[i]) is Placeholder),
            is_forest(ops_of(p.events@)),
            old(p).source.toks().len() == 0 ==> (p.events@ =~= seq![Event::Placeholder] && err_list(
                p.events@,
            ) =~= Seq::<ParseError>::empty()),
        decreases p.source.remaining(),
    {
        let ghost pre = *p;
        proof {
            lemma_sig_count_nonneg(p.source.toks().skip(p.source.cursor as int));
        }
        stmt(p);
        done = p.at_end();
        proof {
            lemma_sig_count_nonneg(p.source.toks().skip(p.source.cursor as int));
            lemma_forest_concat(
                ops_of(pre.events@),
                ops_of(p.events@).skip(ops_of(pre.events@).len() as int),
            );
            assert(ops_of(pre.events@) + ops_of(p.events@).skip(ops_of(pre.events@).len() as int)
                =~= ops_of(p.events@));
            assert(p.events@[0] == pre.events@[0]);
            lemma_fp_wf_forward(pre.events@);
            lemma_fp_wf_forward(p.events@);
            lemma_boundary_frame(pre.events@, p.events@, pre.events@.len() as int);
        }
    }
    proof {
        // all significant tokens are consumed
        lemma_sig_from_next(p.source.toks(), p.source.cursor as int);
        crate::parser::source::lemma_next_sig_bounds(p.source.toks(), p.source.cursor as int);
        assert(p.source.toks().skip(p.source.toks().len() as int) =~= Seq::<
            crate::lexer::TokenModel,
        >::empty());
        assert(crate::parser::source::sig_count(Seq::<crate::lexer::TokenModel>::empty()) == 0);
        assert(p.source.remaining() == 0);
        // the marker is still live
        assert(marker_wf(m, p.events@));
        // the placeholder's slot still resolves to nothing
        lemma_fp_wf_forward(e_started);
        lemma_fp_wf_forward(p.events@);
        assert(e_started.len() == 1);
        assert(closed_upto(e_started, 1)) by {
            assert(crate::parser::event::fp_target(e_started, 0) is None);
        }
        lemma_boundary_frame(e_started, p.events@, 1);
        assert(ops_upto(p.events@, 1) == ops_upto(e_started, 1));
        assert(ops_upto(e_started, 1) =~= Seq::<Op>::empty()) by {
            assert(crate::parser::event::op_at(e_started, 0) =~= Seq::<Op>::empty());
        }
    }
    let ghost e_loop = p.events@;
    let ghost o_loop = ops_of(p.events@);
    let cm = m.complete(p, SyntaxKind::Root);
    proof {
        let full = ops_of(p.events@);
        assert(ops_upto(e_loop, m.origin@ + 1).len() == 0);
        assert(o_loop.take(0) =~= Seq::<Op>::empty());
        assert(o_loop.skip(0) =~= o_loop);
        assert(full =~= seq![Op::Open(SyntaxKind::Root)] + o_loop + seq![Op::Close]);
        lemma_wrap_forest(SyntaxKind::Root, o_loop);
        assert(p.events@[0] == (Event::StartNode {
            kind: SyntaxKind::Root,
            forward_parent: None,
        }));
        assert forall|i: int|
            0 <= i < p.events@.len() implies !((#[trigger] p.events@[i]) is Placeholder) by {
            if i == 0 {
            } else if i < e_loop.len() {
                assert(p.events@[i] == e_loop[i]);
            } else {
                assert(p.events@[i] == Event::FinishNode);
            }
        }
        if old(p).source.toks().len() == 0 {
            assert(o_loop =~= Seq::<Op>::empty());
            assert(full =~= seq![Op::Open(SyntaxKind::Root), Op::Tok].update(1, Op::Close));
            assert(err_list(p.events@) =~= Seq::<ParseError>::empty());
        }
    }
}

/// One statement: a variable definition when the next token is `let`, an
/// expression otherwise. Always consumes at least one token when any is
/// left.
pub(crate) fn stmt(p: &mut Parser<'_>)
    requires
        old(p).wf(),
    ensures
        extends(*old(p), *final (p)),
        old(p).source.spec_peek() is Some ==> final (p).source.remaining() < old(
            p,
        ).source.remaining(),
    decreases old(p).source.remaining(), 5int,
{
    if p.at(SyntaxKind::LetKw) {
        variable_def(p);
    } else {
        expr(p);
    }
}

/// `let <name> = <expression>`, wrapped in a variable-definition node.
fn variable_def(p: &mut Parser<'_>)
    requires
        old(p).wf(),
        old(p).source.spec_peek() == Some(SyntaxKind::LetKw),
    ensures
        extends(*old(p), *final (p)),
        final (p).source.remaining() < old(p).source.remaining(),
    decreases old(p).source.remaining(), 4int,
{
    let ghost pre = *p;
    let m = p.start();
    let ghost e_started = p.events@;
    let ghost o0 = ops_of(pre.events@);
    p.bump();
    let ghost p_bumped = *p;
    p.expect(SyntaxKind::Ident);
    let ghost p_e1 = *p;
    p.expect(SyntaxKind::Equals);
    let ghost p_e2 = *p;
    expr(p);
    proof {
        // the reserved slot is untouched and still resolves to nothing
        lemma_fp_wf_forward(e_started);
        lemma_fp_wf_forward(p.events@);
        lemma_boundary_frame(e_started, p.events@, e_started.len() as int);
        assert(marker_wf(m, p.events@));
        assert(ops_upto(p.events@, m.pos + 1) == ops_upto(e_started, m.pos + 1));
    }
    let ghost e_inner = p.events@;
    let ghost o_inner = ops_of(p.events@);
    let cm = m.complete(p, SyntaxKind::VariableDef);
    proof {
        let full = ops_of(p.events@);
        let n0 = o0.len() as int;
        assert(ops_upto(e_inner, m.origin@ + 1).len() == n0);
        lemma_ops_upto_grows(e_inner, m.origin@ + 1, e_inner.len() as int);
        assert(o_inner.take(n0) == ops_upto(e_inner, m.origin@ + 1));
        // gather the children chunks into one forest
        lemma_prefix_trans(ops_of(p_bumped.events@), ops_of(p_e1.events@), ops_of(p_e2.events@));
        lemma_prefix_trans(ops_of(p_bumped.events@), ops_of(p_e2.events@), o_inner);
        lemma_forest_concat(
            ops_of(p_e1.events@).skip(ops_of(p_bumped.events@).len() as int),
            ops_of(p_e2.events@).skip(ops_of(p_e1.events@).len() as int),
        );
        lemma_forest_concat(
            ops_of(p_e2.events@).skip(ops_of(p_bumped.events@).len() as int),
            o_inner.skip(ops_of(p_e2.events@).len() as int),
        );
        let g = o_inner.skip(n0);
        assert(is_forest(g)) by {
            assert(ops_of(p_bumped.events@) == o0 + seq![Op::Tok]);
            assert(g =~= seq![Op::Tok] + o_inner.skip(ops_of(p_bumped.events@).len() as int));
            lemma_tok_forest();
            lemma_forest_concat(
                seq![Op::Tok],
                o_inner.skip(ops_of(p_bumped.events@).len() as int),
            );
        }
        assert(full =~= o0 + (seq![Op::Open(SyntaxKind::VariableDef)] + g + seq![Op::Close]));
        lemma_wrap_forest(SyntaxKind::VariableDef, g);
        lemma_tree_is_forest(seq![Op::Open(SyntaxKind::VariableDef)] + g + seq![Op::Close]);
        assert(full.take(o0.len() as int) =~= o0);
        assert(full.skip(o0.len() as int) =~= seq![Op::Open(SyntaxKind::VariableDef)] + g + seq![
            Op::Close,
        ]);
        // errors: every step only appended
        assert(err_list(p_bumped.events@).take(err_list(pre.events@).len() as int) =~= err_list(
            pre.events@,
        ));
        lemma_prefix_trans(err_list(pre.events@), err_list(p_bumped.events@), err_list(p_e1.events@));
        lemma_prefix_trans(err_list(pre.events@), err_list(p_e1.events@), err_list(p_e2.events@));
        lemma_prefix_trans(err_list(pre.events@), err_list(p_e2.events@), err_list(p.events@));
        // no placeholder in the new region
        assert forall|i: int|
            pre.events@.len() <= i < p.events@.len() implies !((#[trigger] p.events@[i])
            is Placeholder) by {
            if i == m.pos {
            } else if i < e_inner.len() {
                assert(p.events@[i] == e_inner[i]);
                if i < p_e2.events@.len() {
                }
            } else {
                assert(p.events@[i] == Event::FinishNode);
            }
        }
    }
}

/// An expression at the loosest binding power.
pub(crate) fn expr(p: &mut Parser<'_>)
    requires
        old(p).wf(),
    ensures
        extends(*old(p), *final (p)),
        (old(p).source.spec_peek() is Some && old(p).source.spec_peek() != Some(
            SyntaxKind::LetKw,
        )) ==> final (p).source.remaining() < old(p).source.remaining(),
    decreases old(p).source.remaining(), 4int,
{
    let r = expr_binding_power(p, 0);
}

/// Operator-precedence expression parsing: parse one operand, then fold
/// infix operators whose left binding power reaches the threshold, wrapping
/// the operand already parsed by a forward parent each time.
pub(crate) fn expr_binding_power(p: &mut Parser<'_>, minimum_binding_power: u8) -> (r: Option<
    CompletedMarker,
>)
    requires
        old(p).wf(),
    ensures
        extends(*old(p), *final (p)),
        (old(p).source.spec_peek() is Some && old(p).source.spec_peek() != Some(
            SyntaxKind::LetKw,
        )) ==> final (p).source.remaining() < old(p).source.remaining(),
        match r {
            Some(cm) => {
                &&& completed_wf(cm, final (p).events@)
                &&& cm.origin@ == old(p).events@.len()
                &&& is_tree_ops(
                    ops_of(final (p).events@).skip(ops_of(old(p).events@).len() as int),
                )
            },
            None => true,
        },
    decreases old(p).source.remaining(), 3int,
{
    let ghost pre = *p;
    let lhs_cm = match lhs(p) {
        Some(cm) => cm,
        None => {
            return None;
        },
    };
    let ghost p_lhs = *p;
    proof {
        lemma_fp_wf_forward(pre.events@);
        lemma_fp_wf_forward(p.events@);
        lemma_boundary_frame(pre.events@, p.events@, pre.events@.len() as int);
        assert(ops_upto(p.events@, lhs_cm.origin@) == ops_of(pre.events@));
        lemma_sig_count_nonneg(p.source.toks().skip(p.source.cursor as int));
    }
    let r = infix_loop(p, lhs_cm, minimum_binding_power);
    proof {
        let org = lhs_cm.origin@;
        let o0 = ops_of(pre.events@);
        // the chunk of this call is the single tree the loop maintains
        assert(ops_upto(p.events@, org) == o0);
        lemma_ops_upto_grows(p.events@, org, p.events@.len() as int);
        assert(ops_of(p.events@).take(o0.len() as int) == o0);
        assert(is_tree_ops(ops_of(p.events@).skip(o0.len() as int)));
        lemma_tree_is_forest(ops_of(p.events@).skip(o0.len() as int));
        // entries below this call's start are untouched
        assert(forall|i: int| 0 <= i < pre.events@.len() ==> p.events@[i] == p_lhs.events@[i]);
        lemma_prefix_trans(err_list(pre.events@), err_list(p_lhs.events@), err_list(p.events@));
        assert(extends(pre, *p));
    }
    Some(r)
}

/// The fold of the operator-precedence loop: while the next token is an
/// infix operator binding at least as tightly as the threshold, consume it,
/// parse the right operand at the operator's right power, and wrap what was
/// already parsed together with it into an infix-expression node.
#[verifier::rlimit(100)]
fn infix_loop(p: &mut Parser<'_>, lhs_cm: CompletedMarker, minimum_binding_power: u8) -> (r:
    CompletedMarker)
    requires
        old(p).wf(),
        completed_wf(lhs_cm, old(p).events@),
        closed_upto(old(p).events@, lhs_cm.origin@),
        is_tree_ops(
            ops_of(old(p).events@).skip(ops_upto(old(p).events@, lhs_cm.origin@).len() as int),
        ),
        forall|i: int|
            lhs_cm.origin@ <= i < old(p).events@.len() ==> !((#[trigger] old(p).events@[i])
                is Placeholder),
    ensures
        final (p).wf(),
        final (p).source.tokens == old(p).source.tokens,
        final (p).events@.len() >= old(p).events@.len(),
        forall|i: int| 0 <= i < lhs_cm.origin@ ==> final (p).events@[i] == old(p).events@[i],
        forall|i: int|
            lhs_cm.origin@ <= i < final (p).events@.len() ==> !((#[trigger] final (p).events@[i])
                is Placeholder),
        err_list(final (p).events@).len() >= err_list(old(p).events@).len(),
        err_list(final (p).events@).take(err_list(old(p).events@).len() as int) == err_list(
            old(p).events@,
        ),
        final (p).source.remaining() <= old(p).source.remaining(),
        completed_wf(r, final (p).events@),
        r.origin == lhs_cm.origin,
        closed_upto(final (p).events@, lhs_cm.origin@),
        ops_upto(final (p).events@, lhs_cm.origin@) == ops_upto(old(p).events@, lhs_cm.origin@),
        is_tree_ops(
            ops_of(final (p).events@).skip(ops_upto(old(p).events@, lhs_cm.origin@).len() as int),
        ),
    decreases old(p).source.remaining(), 2int,
{
    let ghost pre = *p;
    let ghost o_pre = ops_upto(pre.events@, lhs_cm.origin@);
    let pk = p.peek();
    let op: InfixOp = match pk {
        Some(SyntaxKind::Plus) => InfixOp::Add,
        Some(SyntaxKind::Minus) => InfixOp::Sub,
        Some(SyntaxKind::Star) => InfixOp::Mul,
        Some(SyntaxKind::Slash) => InfixOp::Div,
        _ => {
            return lhs_cm;
        },
    };
    let (left_binding_power, right_binding_power) = op.binding_power();
    if left_binding_power < minimum_binding_power {
        return lhs_cm;
    }
    proof {
        lemma_sig_count_nonneg(p.source.toks().skip(p.source.cursor as int));
    }
    p.bump();
    let ghost e_bumped = p.events@;
    proof {
        // the completed node survives the bump
        assert(completed_wf(lhs_cm, e_bumped));
    }
    let m = lhs_cm.precede(p);
    let ghost e_prec = p.events@;
    let ghost p_prec = *p;
    proof {
        lemma_sig_count_nonneg(p.source.toks().skip(p.source.cursor as int));
    }
    let rhs = expr_binding_power(p, right_binding_power);
    let ghost e_rhs = p.events@;
    proof {
        // the fresh slot is untouched by the right operand
        lemma_fp_wf_forward(e_prec);
        lemma_fp_wf_forward(e_rhs);
        lemma_boundary_frame(e_prec, e_rhs, e_prec.len() as int);
        assert(marker_wf(m, e_rhs));
    }
    let cm2 = m.complete(p, SyntaxKind::InfixExpr);
    proof {
        let org = lhs_cm.origin@;
        let n0 = o_pre.len() as int;
        let o0 = ops_of(pre.events@);
        let t_old = o0.skip(n0);
        // operations before the fold step
        assert(ops_of(e_bumped) == o0 + seq![Op::Tok]);
        assert(ops_of(e_prec) == ops_of(e_bumped));
        // boundary bookkeeping at the origin
        lemma_fp_wf_forward(pre.events@);
        lemma_fp_wf_forward(e_bumped);
        lemma_fp_wf_forward(e_prec);
        lemma_fp_wf_forward(e_rhs);
        lemma_fp_wf_forward(p.events@);
        lemma_boundary_frame(pre.events@, e_bumped, org);
        lemma_boundary_frame(e_bumped, e_prec, org);
        lemma_boundary_frame(e_prec, e_rhs, org);
        assert(ops_upto(e_rhs, org) == o_pre);
        // the block of opens at the origin
        assert(!crate::parser::event::is_target(e_rhs, org)) by {
            assert(crate::parser::event::is_target(e_bumped, org) == crate::parser::event::is_target(
                pre.events@,
                org,
            ));
            assert(crate::parser::event::is_target(e_prec, org) == crate::parser::event::is_target(
                e_bumped,
                org,
            ));
            lemma_boundary_frame(e_prec, e_rhs, e_prec.len() as int);
        }
        assert(e_rhs[org] is StartNode) by {
            if org == lhs_cm.pos {
            } else {
                crate::parser::event::lemma_on_chain_le(pre.events@, org, lhs_cm.pos as int);
            }
        }
        let blk = crate::parser::event::op_at(e_rhs, org);
        assert(blk == crate::parser::event::chain(e_rhs, org).map_values(
            |k: SyntaxKind| Op::Open(k),
        ));
        lemma_bal_all_opens(crate::parser::event::chain(e_rhs, org));
        assert(crate::parser::event::chain(e_rhs, org).len() >= 1);
        // the insert position is the end of that block
        let p_ins = ops_upto(e_rhs, org + 1).len() as int;
        assert(ops_upto(e_rhs, org + 1) == o_pre + blk);
        let o_rhs = ops_of(e_rhs);
        let t_rhs = o_rhs.skip(n0);
        // the chunk so far: lhs tree, operator token, right operand forest
        assert(o_rhs.take(ops_of(e_prec).len() as int) == ops_of(e_prec));
        let f = o_rhs.skip(ops_of(e_prec).len() as int);
        assert(is_forest(f));
        lemma_ops_upto_grows(pre.events@, org, pre.events@.len() as int);
        assert(o0.take(n0) == o_pre);
        assert(o_rhs.take(ops_of(e_prec).len() as int) + o_rhs.skip(
            ops_of(e_prec).len() as int,
        ) =~= o_rhs);
        assert(o_rhs =~= o0 + seq![Op::Tok] + f);
        assert(t_rhs =~= t_old + seq![Op::Tok] + f);
        // the wrapped chunk is a single tree again
        let t_new = t_old.take(p_ins - n0) + seq![Op::Open(SyntaxKind::InfixExpr)] + t_old.skip(
            p_ins - n0,
        ) + (seq![Op::Tok] + f) + seq![Op::Close];
        lemma_ops_upto_grows(e_rhs, org + 1, e_rhs.len() as int);
        assert(o_rhs.take(p_ins) == o_pre + blk);
        assert(t_rhs.take(p_ins - n0) =~= blk);
        assert(p_ins - n0 <= t_old.len()) by {
            if p_ins - n0 > t_old.len() {
                let ii = t_old.len() as int;
                assert(blk[ii] == t_rhs[ii]);
                assert(t_rhs[ii] == Op::Tok);
                assert(blk[ii] == Op::Open(crate::parser::event::chain(e_rhs, org)[ii]));
                assert(false);
            }
        }
        assert(t_old.take(p_ins - n0) =~= blk);
        assert(bal(t_old.take(p_ins - n0)) >= 1);
        lemma_tok_forest();
        lemma_forest_concat(seq![Op::Tok], f);
        lemma_wrap(t_old, seq![Op::Tok] + f, p_ins - n0, SyntaxKind::InfixExpr);
        // and it is exactly what the log now resolves to
        let full = ops_of(p.events@);
        assert(m.origin@ == org);
        lemma_ops_upto_grows(e_rhs, org + 1, e_rhs.len() as int);
        assert(full == crate::parser::event::insert_op(
            o_rhs,
            p_ins,
            Op::Open(SyntaxKind::InfixExpr),
        ) + seq![Op::Close]);
        assert(full.skip(n0) =~= t_new) by {
            assert(o_rhs.take(p_ins) =~= o_pre + t_old.take(p_ins - n0));
            assert(o_rhs.skip(p_ins) =~= t_old.skip(p_ins - n0) + (seq![Op::Tok] + f));
        }
        assert(full.take(n0) =~= o_pre);
        assert(ops_upto(p.events@, org) == o_pre) by {
            assert(ops_upto(p.events@, org) == ops_upto(e_rhs, org));
        }
        assert(is_tree_ops(full.skip(ops_upto(p.events@, org).len() as int)));
        // placeholders and errors
        assert forall|i: int|
            org <= i < p.events@.len() implies !((#[trigger] p.events@[i]) is Placeholder) by {
            if i < pre.events@.len() {
                if i != lhs_cm.pos && i != m.pos {
                    assert(p.events@[i] == pre.events@[i]) by {
                        assert(e_bumped[i] == pre.events@[i]);
                        assert(e_prec[i] == e_bumped[i]);
                        assert(e_rhs[i] == e_prec[i]);
                    }
                } else if i == lhs_cm.pos {
                    assert(e_prec[i] is StartNode);
                    assert(e_rhs[i] == e_prec[i]);
                    assert(p.events@[i] == e_rhs[i]);
                } else {
                    assert(p.events@[i] == (Event::StartNode {
                        kind: SyntaxKind::InfixExpr,
                        forward_parent: None,
                    }));
                }
            } else if i == pre.events@.len() {
                assert(e_bumped[i] == Event::AddToken);
                assert(e_prec[i] == e_bumped[i]);
                assert(e_rhs[i] == e_prec[i]);
                assert(p.events@[i] == e_rhs[i]);
            } else if i == m.pos {
                assert(p.events@[i] == (Event::StartNode {
                    kind: SyntaxKind::InfixExpr,
                    forward_parent: None,
                }));
            } else if i < e_rhs.len() {
                if i < e_prec.len() {
                    assert(e_rhs[i] == e_prec[i]);
                    assert(p.events@[i] == e_rhs[i]);
                    assert(!(e_prec[i] is Placeholder));
                } else {
                    assert(p.events@[i] == e_rhs[i]);
                }
            } else {
                assert(p.events@[i] == Event::FinishNode);
            }
        }
        assert(err_list(e_prec).take(err_list(pre.events@).len() as int) =~= err_list(
            pre.events@,
        ));
        lemma_prefix_trans(err_list(pre.events@), err_list(e_prec), err_list(e_rhs));
        assert(err_list(p.events@) == err_list(e_rhs));
        // the origin boundary stays closed
        assert(closed_upto(p.events@, org)) by {
            assert(forall|i: int| 0 <= i < org ==> p.events@[i] == pre.events@[i]);
            assert forall|i: int|
                0 <= i < org implies match #[trigger] crate::parser::event::fp_target(
                p.events@,
                i,
            ) {
                Some(t) => t < org,
                None => true,
            } by {
                assert(crate::parser::event::fp_target(p.events@, i)
                    == crate::parser::event::fp_target(pre.events@, i));
            }
        }
    }
    proof {
        lemma_sig_count_nonneg(p.source.toks().skip(p.source.cursor as int));
    }
    let ghost p_mid = *p;
    let r = infix_loop(p, cm2, minimum_binding_power);
    proof {
        // stitch the recursive tail onto this step
        let org = lhs_cm.origin@;
        assert(forall|i: int| 0 <= i < org ==> p.events@[i] == pre.events@[i]);
        lemma_prefix_trans(err_list(pre.events@), err_list(p_mid.events@), err_list(p.events@));
    }
    r
}

/// One operand: a number or identifier wrapped as a literal or reference, a
/// parenthesized expression, or a negation. Anything else records an error
/// (and, away from a statement boundary or the end, consumes the offender).
fn lhs(p: &mut Parser<'_>) -> (r: Option<CompletedMarker>)
    requires
        old(p).wf(),
    ensures
        extends(*old(p), *final (p)),
        match r {
            Some(cm) => {
                &&& completed_wf(cm, final (p).events@)
                &&& cm.origin@ == old(p).events@.len()
                &&& is_tree_ops(
                    ops_of(final (p).events@).skip(ops_of(old(p).events@).len() as int),
                )
                &&& final (p).source.remaining() < old(p).source.remaining()
            },
            None => (old(p).source.spec_peek() is Some && old(p).source.spec_peek() != Some(
                SyntaxKind::LetKw,
            )) ==> final (p).source.remaining() < old(p).source.remaining(),
        },
    decreases old(p).source.remaining(), 2int,
{
    if p.at(SyntaxKind::Number) {
        Some(leaf_node(p, SyntaxKind::Literal))
    } else if p.at(SyntaxKind::Ident) {
        Some(leaf_node(p, SyntaxKind::VariableRef))
    } else if p.at(SyntaxKind::Minus) {
        Some(prefix_expr(p))
    } else if p.at(SyntaxKind::LParen) {
        Some(paren_expr(p))
    } else {
        let ghost pre = *p;
        p.error();
        proof {
            let o0 = ops_of(pre.events@);
            let full = ops_of(p.events@);
            let pk = pre.source.spec_peek();
            if pk is Some && pk != Some(SyntaxKind::LetKw) {
                let c = seq![Op::Open(SyntaxKind::Error), Op::Tok, Op::Close];
                assert(full.take(o0.len() as int) =~= o0);
                assert(full.skip(o0.len() as int) =~= c);
                lemma_leaf_tree_ops_general(SyntaxKind::Error);
                lemma_tree_is_forest(c);
            } else {
                assert(full.take(o0.len() as int) =~= o0);
                assert(full.skip(o0.len() as int) =~= Seq::<Op>::empty());
                lemma_empty_forest();
            }
            assert(err_list(p.events@).take(err_list(pre.events@).len() as int) =~= err_list(
                pre.events@,
            ));
        }
        None
    }
}

/// A single-token node: the next token wrapped alone under `kind`.
fn leaf_node(p: &mut Parser<'_>, kind: SyntaxKind) -> (r: CompletedMarker)
    requires
        old(p).wf(),
        old(p).source.spec_peek() is Some,
    ensures
        extends(*old(p), *final (p)),
        completed_wf(r, final (p).events@),
        r.origin@ == old(p).events@.len(),
        is_tree_ops(ops_of(final (p).events@).skip(ops_of(old(p).events@).len() as int)),
        final (p).source.remaining() == old(p).source.remaining() - 1,
        err_list(final (p).events@) == err_list(old(p).events@),
{
    let ghost pre = *p;
    let m = p.start();
    let ghost e_started = p.events@;
    p.bump();
    proof {
        assert(marker_wf(m, p.events@)) by {
            assert(p.events@[m.pos as int] == e_started[m.pos as int]);
        }
    }
    let cm = m.complete(p, kind);
    proof {
        let o0 = ops_of(pre.events@);
        let full = ops_of(p.events@);
        let e_bumped = e_started.push(Event::AddToken);
        assert(ops_upto(e_bumped, m.origin@ + 1) == o0);
        assert(ops_of(e_bumped) == o0 + seq![Op::Tok]);
        assert((o0 + seq![Op::Tok]).take(o0.len() as int) =~= o0);
        assert((o0 + seq![Op::Tok]).skip(o0.len() as int) =~= seq![Op::Tok]);
        assert(full =~= o0 + seq![Op::Open(kind), Op::Tok, Op::Close]);
        assert(full.take(o0.len() as int) =~= o0);
        assert(full.skip(o0.len() as int) =~= seq![Op::Open(kind), Op::Tok, Op::Close]);
        lemma_leaf_tree_ops_general(kind);
        lemma_tree_is_forest(seq![Op::Open(kind), Op::Tok, Op::Close]);
        assert(err_list(p.events@) =~= err_list(pre.events@));
        assert(err_list(p.events@).take(err_list(pre.events@).len() as int) =~= err_list(
            pre.events@,
        ));
        assert forall|i: int|
            pre.events@.len() <= i < p.events@.len() implies !((#[trigger] p.events@[i])
            is Placeholder) by {
            if i == m.pos {
            } else if i < e_bumped.len() {
                assert(p.events@[i] == e_bumped[i]);
            } else {
                assert(p.events@[i] == Event::FinishNode);
            }
        }
    }
    cm
}

/// A negation: the minus sign and its operand, parsed at the prefix
/// operator's right binding power.
fn prefix_expr(p: &mut Parser<'_>) -> (r: CompletedMarker)
    requires
        old(p).wf(),
        old(p).source.spec_peek() == Some(SyntaxKind::Minus),
    ensures
        extends(*old(p), *final (p)),
        completed_wf(r, final (p).events@),
        r.origin@ == old(p).events@.len(),
        is_tree_ops(ops_of(final (p).events@).skip(ops_of(old(p).events@).len() as int)),
        final (p).source.remaining() < old(p).source.remaining(),
    decreases old(p).source.remaining(), 1int,
{
    let ghost pre = *p;
    let m = p.start();
    let ghost e_started = p.events@;
    let op = PrefixOp::Neg;
    let bp = op.binding_power();
    p.bump();
    let ghost p_bumped = *p;
    proof {
        lemma_sig_count_nonneg(p.source.toks().skip(p.source.cursor as int));
    }
    let rhs = expr_binding_power(p, bp.1);
    proof {
        lemma_fp_wf_forward(e_started);
        lemma_fp_wf_forward(p.events@);
        lemma_boundary_frame(e_started, p.events@, e_started.len() as int);
        assert(marker_wf(m, p.events@));
        assert(ops_upto(p.events@, m.pos + 1) == ops_upto(e_started, m.pos + 1));
    }
    let ghost e_inner = p.events@;
    let ghost o_inner = ops_of(p.events@);
    let cm = m.complete(p, SyntaxKind::PrefixExpr);
    proof {
        let o0 = ops_of(pre.events@);
        let full = ops_of(p.events@);
        let n0 = o0.len() as int;
        assert(ops_upto(e_inner, m.origin@ + 1).len() == n0);
        lemma_ops_upto_grows(e_inner, m.origin@ + 1, e_inner.len() as int);
        assert(o_inner.take(n0) == ops_upto(e_inner, m.origin@ + 1));
        let g = o_inner.skip(n0);
        assert(is_forest(g)) by {
            assert(ops_of(p_bumped.events@) == o0 + seq![Op::Tok]);
            assert(g =~= seq![Op::Tok] + o_inner.skip(ops_of(p_bumped.events@).len() as int));
            lemma_tok_forest();
            lemma_forest_concat(
                seq![Op::Tok],
                o_inner.skip(ops_of(p_bumped.events@).len() as int),
            );
        }
        assert(full =~= o0 + (seq![Op::Open(SyntaxKind::PrefixExpr)] + g + seq![Op::Close]));
        lemma_wrap_forest(SyntaxKind::PrefixExpr, g);
        lemma_tree_is_forest(seq![Op::Open(SyntaxKind::PrefixExpr)] + g + seq![Op::Close]);
        assert(full.take(n0) =~= o0);
        assert(full.skip(n0) =~= seq![Op::Open(SyntaxKind::PrefixExpr)] + g + seq![Op::Close]);
        assert(err_list(p_bumped.events@).take(err_list(pre.events@).len() as int) =~= err_list(
            pre.events@,
        ));
        lemma_prefix_trans(err_list(pre.events@), err_list(p_bumped.events@), err_list(e_inner));
        assert(err_list(p.events@) == err_list(e_inner));
        assert forall|i: int|
            pre.events@.len() <= i < p.events@.len() implies !((#[trigger] p.events@[i])
            is Placeholder) by {
            if i == m.pos {
            } else if i < e_inner.len() {
                assert(p.events@[i] == e_inner[i]);
                if i < p_bumped.events@.len() {
                }
            } else {
                assert(p.events@[i] == Event::FinishNode);
            }
        }
    }
    cm
}

/// A parenthesized expression: the opening parenthesis, the inner
/// expression at the loosest power, and the expected closing parenthesis.
fn paren_expr(p: &mut Parser<'_>) -> (r: CompletedMarker)
    requires
        old(p).wf(),
        old(p).source.spec_peek() == Some(SyntaxKind::LParen),
    ensures
        extends(*old(p), *final (p)),
        completed_wf(r, final (p).events@),
        r.origin@ == old(p).events@.len(),
        is_tree_ops(ops_of(final (p).events@).skip(ops_of(old(p).events@).len() as int)),
        final (p).source.remaining() < old(p).source.remaining(),
    decreases old(p).source.remaining(), 1int,
{
    let ghost pre = *p;
    let m = p.start();
    let ghost e_started = p.events@;
    p.bump();
    let ghost p_bumped = *p;
    proof {
        lemma_sig_count_nonneg(p.source.toks().skip(p.source.cursor as int));
    }
    expr_binding_power(p, 0);
    let ghost p_e = *p;
    p.expect(SyntaxKind::RParen);
    proof {
        lemma_fp_wf_forward(e_started);
        lemma_fp_wf_forward(p.events@);
        lemma_boundary_frame(e_started, p.events@, e_started.len() as int);
        assert(marker_wf(m, p.events@));
        assert(ops_upto(p.events@, m.pos + 1) == ops_upto(e_started, m.pos + 1));
    }
    let ghost e_inner = p.events@;
    let ghost o_inner = ops_of(p.events@);
    let cm = m.complete(p, SyntaxKind::ParenExpr);
    proof {
        let o0 = ops_of(pre.events@);
        let full = ops_of(p.events@);
        let n0 = o0.len() as int;
        assert(ops_upto(e_inner, m.origin@ + 1).len() == n0);
        lemma_ops_upto_grows(e_inner, m.origin@ + 1, e_inner.len() as int);
        assert(o_inner.take(n0) == ops_upto(e_inner, m.origin@ + 1));
        let g = o_inner.skip(n0);
        assert(is_forest(g)) by {
            assert(ops_of(p_bumped.events@) == o0 + seq![Op::Tok]);
            lemma_prefix_trans(ops_of(p_bumped.events@), ops_of(p_e.events@), o_inner);
            lemma_forest_concat(
                ops_of(p_e.events@).skip(ops_of(p_bumped.events@).len() as int),
                o_inner.skip(ops_of(p_e.events@).len() as int),
            );
            assert(g =~= seq![Op::Tok] + o_inner.skip(ops_of(p_bumped.events@).len() as int));
            lemma_tok_forest();
            lemma_forest_concat(
                seq![Op::Tok],
                o_inner.skip(ops_of(p_bumped.events@).len() as int),
            );
        }
        assert(full =~= o0 + (seq![Op::Open(SyntaxKind::ParenExpr)] + g + seq![Op::Close]));
        lemma_wrap_forest(SyntaxKind::ParenExpr, g);
        lemma_tree_is_forest(seq![Op::Open(SyntaxKind::ParenExpr)] + g + seq![Op::Close]);
        assert(full.take(n0) =~= o0);
        assert(full.skip(n0) =~= seq![Op::Open(SyntaxKind::ParenExpr)] + g + seq![Op::Close]);
        assert(err_list(p_bumped.events@).take(err_list(pre.events@).len() as int) =~= err_list(
            pre.events@,
        ));
        lemma_prefix_trans(err_list(pre.events@), err_list(p_bumped.events@), err_list(p_e.events@));
        lemma_prefix_trans(err_list(pre.events@), err_list(p_e.events@), err_list(e_inner));
        assert(err_list(p.events@) == err_list(e_inner));
        assert forall|i: int|
            pre.events@.len() <= i < p.events@.len() implies !((#[trigger] p.events@[i])
            is Placeholder) by {
            if i == m.pos {
            } else if i < e_inner.len() {
                assert(p.events@[i] == e_inner[i]);
                if i < p_e.events@.len() {
                    if i < p_bumped.events@.len() {
                    }
                }
            } else {
                assert(p.events@[i] == Event::FinishNode);
            }
        }
    }
    cm
}

} // verus!
