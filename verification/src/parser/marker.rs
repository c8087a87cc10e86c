use crate::parser::event::{
    err_list, insert_op, is_target, lemma_counts_concat, lemma_err_push, lemma_fp_wf_forward,
    lemma_on_chain_le, lemma_ops_complete, lemma_ops_frame, lemma_ops_push, lemma_ops_set_fp,
    on_chain, op_plain, ops_of, ops_upto, tok_count, Event, Op,
};
use crate::parser::Parser;
use crate::syntax::SyntaxKind;
use vstd::prelude::*;

verus! {

/// A handle to a reserved slot of the event log. Completing the marker
/// overwrites the slot with a real start event and appends the matching
/// finish. `origin` remembers, in ghost, where the chain of forward parents
/// that will reach this slot begins: for a marker made by `start` that is
/// the slot itself; for one made by `precede` it is the start of the wrapped
/// node's chain.
pub(crate) struct Marker {
    pub(crate) pos: usize,
    pub(crate) origin: Ghost<int>,
}

impl Marker {
    /// A marker for the reserved slot at `pos`, its chain starting at the
    /// slot itself.
    pub(crate) fn new(pos: usize) -> (m: Marker)
        ensures
            m.pos == pos,
            m.origin@ == pos as int,
    {
        Marker { pos, origin: Ghost(pos as int) }
    }
}

/// What must hold of a live marker against the current log.
pub(crate) open spec fn marker_wf(m: Marker, events: Seq<Event>) -> bool {
    &&& 0 <= m.origin@ <= m.pos < events.len()
    &&& events[m.pos as int] is Placeholder
    &&& !is_target(events, m.origin@)
    &&& on_chain(events, m.origin@, m.pos as int)
}

/// A node whose start and finish are both in the log. It can still be
/// wrapped into a larger node by `precede`.
pub(crate) struct CompletedMarker {
    pub(crate) pos: usize,
    pub(crate) kind: SyntaxKind,
    pub(crate) origin: Ghost<int>,
}

/// What holds of a completed marker against the current log: its slot is a
/// start of its kind, not yet given a forward parent.
pub(crate) open spec fn completed_wf(cm: CompletedMarker, events: Seq<Event>) -> bool {
    &&& 0 <= cm.origin@ <= cm.pos < events.len()
    &&& events[cm.pos as int] == (Event::StartNode { kind: cm.kind, forward_parent: None })
    &&& !is_target(events, cm.origin@)
    &&& on_chain(events, cm.origin@, cm.pos as int)
}


impl Marker {
    /// Fixes the reserved slot to a start of the given kind and appends the
    /// matching finish: the slot's chain gains the kind as its outermost
    /// wrapper, and the log closes it at the end.
    pub(crate) fn complete(self, p: &mut Parser<'_>, kind: SyntaxKind) -> (cm: CompletedMarker)
        requires
            old(p).wf(),
            marker_wf(self, old(p).events@),
        ensures
            final (p).wf(),
            final (p).events@.len() == old(p).events@.len() + 1,
            final (p).source == old(p).source,
            final (p).expected_kinds == old(p).expected_kinds,
            ops_of(final (p).events@) == insert_op(
                ops_of(old(p).events@),
                ops_upto(old(p).events@, self.origin@ + 1).len() as int,
                Op::Open(kind),
            ) + seq![Op::Close],
            ops_upto(final (p).events@, self.origin@ + 1).len() == ops_upto(
                old(p).events@,
                self.origin@ + 1,
            ).len() + 1,
            err_list(final (p).events@) == err_list(old(p).events@),
            cm.pos == self.pos,
            cm.kind == kind,
            cm.origin == self.origin,
            completed_wf(cm, final (p).events@),
            final (p).events@.last() == Event::FinishNode,
            forall|m: int|
                0 <= m <= self.origin@ ==> ops_upto(final (p).events@, m) == ops_upto(
                    old(p).events@,
                    m,
                ),
            forall|j: int|
                0 <= j < old(p).events@.len() ==> is_target(final (p).events@, j) == is_target(
                    old(p).events@,
                    j,
                ),
            forall|i: int|
                0 <= i < old(p).events@.len() && i != self.pos ==> final (p).events@[i] == old(
                    p,
                ).events@[i],
            forall|o: int, j: int|
                0 <= o <= j < self.pos && #[trigger] on_chain(old(p).events@, o, j) ==> on_chain(
                    final (p).events@,
                    o,
                    j,
                ),
            forall|i: int|
                0 <= i < old(p).events@.len() && i != self.pos && old(p).events@[i] is Placeholder
                    ==> final (p).events@[i] is Placeholder,
    {
        let ghost e0 = p.events@;
        let ghost o = self.origin@;
        let filled = Event::StartNode { kind, forward_parent: None };
        proof {
            lemma_ops_complete(e0, o, self.pos as int, kind);
        }
        p.events[self.pos] = Event::StartNode { kind, forward_parent: None };
        let ghost e1 = p.events@;
        proof {
            assert(e1 == e0.update(self.pos as int, filled));
            lemma_ops_push(e1, Event::FinishNode);
            lemma_err_push(e1, Event::FinishNode);
            lemma_fp_wf_forward(e1);
            lemma_fp_wf_forward(e1.push(Event::FinishNode));
            lemma_ops_frame(e1, e1.push(Event::FinishNode), e1.len() as int);
        }
        p.events.push(Event::FinishNode);
        proof {
            let e2 = p.events@;
            // counts: one more open, one more close, tokens unchanged
            let p_ins = ops_upto(e0, o + 1).len() as int;
            lemma_counts_concat(ops_of(e0).take(p_ins), seq![Op::Open(kind)] + ops_of(e0).skip(p_ins));
            lemma_counts_concat(seq![Op::Open(kind)], ops_of(e0).skip(p_ins));
            crate::parser::event::lemma_ops_upto_grows(e0, o + 1, e0.len() as int);
            lemma_counts_concat(insert_op(ops_of(e0), p_ins, Op::Open(kind)), seq![Op::Close]);
            assert(tok_count(seq![Op::Open(kind)]) == 0 && tok_count(seq![Op::Close]) == 0) by {
                assert(seq![Op::Open(kind)].len() == 1);
                assert(seq![Op::Open(kind)].drop_last() =~= Seq::<Op>::empty());
                assert(seq![Op::Close].len() == 1);
                assert(seq![Op::Close].drop_last() =~= Seq::<Op>::empty());
                assert(tok_count(Seq::<Op>::empty()) == 0);
            }
            assert(ops_of(e0).take(p_ins) + ops_of(e0).skip(p_ins) =~= ops_of(e0));
            lemma_counts_concat(ops_of(e0).take(p_ins), ops_of(e0).skip(p_ins));
            assert(insert_op(ops_of(e0), p_ins, Op::Open(kind)) =~= ops_of(e0).take(p_ins) + (seq![
                Op::Open(kind),
            ] + ops_of(e0).skip(p_ins)));
            assert(tok_count(ops_of(e2)) == tok_count(ops_of(e0)));
            // the prefix-length bookkeeping survives the push
            assert(ops_upto(e2, o + 1) == ops_upto(e1, o + 1));
            assert(err_list(e1.push(Event::FinishNode)) =~= err_list(e1));
            // chains of earlier completed nodes survive: their entries are untouched
            assert forall|oo: int, j: int|
                0 <= oo <= j < self.pos && #[trigger] on_chain(e0, oo, j) implies on_chain(
                e2,
                oo,
                j,
            ) by {
                crate::parser::event::lemma_on_chain_update_keep_public(
                    e0,
                    e1,
                    self.pos as int,
                    filled,
                    oo,
                    j,
                );
            }
        }
        CompletedMarker { pos: self.pos, kind, origin: self.origin }
    }
}

impl CompletedMarker {
    /// Opens a fresh marker that will, once completed, wrap this node: the
    /// node's start is given a forward parent pointing at the fresh slot, so
    /// the wrapper opens where this node's chain opens.
    pub(crate) fn precede(self, p: &mut Parser<'_>) -> (m: Marker)
        requires
            old(p).wf(),
            completed_wf(self, old(p).events@),
        ensures
            final (p).wf(),
            final (p).events@.len() == old(p).events@.len() + 1,
            final (p).source == old(p).source,
            final (p).expected_kinds == old(p).expected_kinds,
            ops_of(final (p).events@) == ops_of(old(p).events@),
            err_list(final (p).events@) == err_list(old(p).events@),
            m.pos == old(p).events@.len(),
            m.origin == self.origin,
            marker_wf(m, final (p).events@),
            final (p).events@[self.pos as int] is StartNode,
            forall|m2: int|
                0 <= m2 <= old(p).events@.len() ==> ops_upto(final (p).events@, m2) == ops_upto(
                    old(p).events@,
                    m2,
                ),
            forall|j: int|
                0 <= j < old(p).events@.len() && j != self.pos ==> final (p).events@[j] == old(
                    p,
                ).events@[j],
            forall|j: int|
                0 <= j < old(p).events@.len() ==> is_target(final (p).events@, j) == is_target(
                    old(p).events@,
                    j,
                ),
            forall|i: int|
                0 <= i < old(p).events@.len() && i != self.pos && old(p).events@[i] is Placeholder
                    ==> final (p).events@[i] is Placeholder,
    {
        let ghost e0 = p.events@;
        let new_pos = p.events.len();
        proof {
            lemma_ops_push(e0, Event::Placeholder);
            lemma_err_push(e0, Event::Placeholder);
            lemma_fp_wf_forward(e0);
            lemma_fp_wf_forward(e0.push(Event::Placeholder));
            lemma_ops_frame(e0, e0.push(Event::Placeholder), e0.len() as int);
        }
        p.events.push(Event::Placeholder);
        let ghost e1 = p.events@;
        let d = new_pos - self.pos;
        proof {
            lemma_counts_concat(ops_of(e0), op_plain(Event::Placeholder));
            assert(op_plain(Event::Placeholder) =~= Seq::<Op>::empty());
            assert(ops_of(e1) =~= ops_of(e0));
            assert(e1[self.pos as int] == e0[self.pos as int]);
            lemma_ops_set_fp(e1, self.pos as int, self.kind, d);
        }
        p.events[self.pos] = Event::StartNode { kind: self.kind, forward_parent: Some(d) };
        proof {
            let e2 = p.events@;
            assert(e2 == e1.update(
                self.pos as int,
                Event::StartNode { kind: self.kind, forward_parent: Some(d) },
            ));
            assert(on_chain(e1, self.origin@, self.pos as int));
            assert(on_chain(e2, self.origin@, new_pos as int));
            assert forall|m2: int|
                0 <= m2 <= e0.len() implies ops_upto(e2, m2) == ops_upto(e0, m2) by {
                crate::parser::event::lemma_ops_upto_pointwise(e1, e2, m2);
                crate::parser::event::lemma_ops_upto_pointwise(e0, e1, m2);
            }
            assert(ops_of(e2) == ops_of(e0));
        }
        Marker { pos: new_pos, origin: self.origin }
    }
}

} // verus!
