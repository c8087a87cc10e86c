use crate::lexer::{Token, TokenModel};
use crate::parser::event::{
    bal, chain, err_list, errs_wf, fp_of, fp_wf, is_target, is_tree_ops, kind_of,
    lemma_counts_concat, lemma_ops_upto_grows, lemma_tree_is_forest, op_at, open_count, ops_of,
    ops_upto, targets_distinct, tok_count, Event, Op,
};
use crate::parser::parse_error::ParseError;
use crate::parser::source::{
    lemma_sig_count_nonneg, lemma_sig_count_prefix, lemma_sig_count_take_snoc, sig_count,
};
use crate::syntax::SyntaxKind;
use crate::tree::{
    children_leaves, children_models, children_node_count, element_model, element_node_count,
    lemma_children_leaves_snoc, lemma_children_models_snoc, lemma_children_node_count_snoc,
    node_leaves, node_model, LeafModel, SyntaxElement, SyntaxNode, SyntaxToken, TreeModel,
};
use vstd::prelude::*;
use vstd::string::*;

verus! {

/// One node still being built: its kind, and the children gathered so far.
pub(crate) struct Frame {
    pub(crate) kind: SyntaxKind,
    pub(crate) children: Vec<SyntaxElement>,
}

/// The leaves already placed in the open nodes, outermost node first.
spec fn stack_leaves(frames: Seq<Frame>) -> Seq<LeafModel>
    decreases frames.len(),
{
    if frames.len() == 0 {
        Seq::empty()
    } else {
        stack_leaves(frames.drop_last()) + children_leaves(frames.last().children@)
    }
}

/// The nodes held by the open frames: each frame is itself one node.
spec fn stack_node_count(frames: Seq<Frame>) -> int
    decreases frames.len(),
{
    if frames.len() == 0 {
        0
    } else {
        stack_node_count(frames.drop_last()) + 1 + children_node_count(frames.last().children@)
    }
}

/// The leaf a token becomes.
pub open spec fn leaf_of(t: TokenModel) -> LeafModel {
    LeafModel { kind: SyntaxKind::spec_from(t.kind), text: t.text }
}

/// The token sequence as the leaves it will become.
pub open spec fn tokens_leaves(ts: Seq<TokenModel>) -> Seq<LeafModel> {
    ts.map_values(|t: TokenModel| leaf_of(t))
}

/// What the sink requires of the finished log: forward parents resolve
/// inside the log onto starts, no entry is claimed twice, no placeholder
/// remains, the resolved operations form one well-nested tree opened by the
/// first entry, and the token operations match the significant tokens.
pub(crate) open spec fn sink_input_wf(events: Seq<Event>, toks: Seq<TokenModel>) -> bool {
    &&& fp_wf(events)
    &&& targets_distinct(events)
    &&& errs_wf(events)
    &&& forall|i: int| 0 <= i < events.len() ==> !((#[trigger] events[i]) is Placeholder)
    &&& is_tree_ops(ops_of(events))
    &&& tok_count(ops_of(events)) == sig_count(toks)
    &&& events.len() > 0
    &&& events[0] is StartNode
    &&& fp_of(events[0]) is None
    &&& !is_target(events, 0)
    &&& events.last() == Event::FinishNode
}


// ---------------------------------------------------------------------------
// The meaning of the whole replay, as a mathematical state machine: the same
// walk the executable sink takes, over shadow frames. The sink's result is
// required to be exactly what this machine builds, so the contract fixes the
// nesting of the tree, not just its leaves: a forward-parent chain opens its
// kinds outermost-first, every token goes to the innermost open node, and
// trivia attaches to whatever node is open when it is reached.
// ---------------------------------------------------------------------------

/// One node still being built, in shadow form.
pub ghost struct ReplayFrame {
    pub kind: SyntaxKind,
    pub children: Seq<TreeModel>,
}

/// The replay's whole state: the open nodes (outermost first), the token
/// cursor, and the finished tree once the outermost node has closed.
pub ghost struct ReplayState {
    pub stack: Seq<ReplayFrame>,
    pub cursor: int,
    pub result: Option<TreeModel>,
}

/// The leaf a token becomes, in shadow form.
pub open spec fn token_leaf(t: TokenModel) -> TreeModel {
    TreeModel::Leaf { kind: SyntaxKind::spec_from(t.kind), text: t.text }
}

/// Opens one frame per kind, the last kind of the chain (the outermost
/// wrapper) first, so the chain's own entry ends up innermost.
pub open spec fn replay_open(st: ReplayState, kinds: Seq<SyntaxKind>) -> ReplayState
    decreases kinds.len(),
{
    if kinds.len() == 0 {
        st
    } else {
        replay_open(
            ReplayState {
                stack: st.stack.push(ReplayFrame { kind: kinds.last(), children: Seq::empty() }),
                cursor: st.cursor,
                result: st.result,
            },
            kinds.drop_last(),
        )
    }
}

/// Attaches one finished child to the innermost open node.
pub open spec fn replay_attach(st: ReplayState, child: TreeModel) -> ReplayState {
    if st.stack.len() == 0 {
        st
    } else {
        let top = st.stack.last();
        ReplayState {
            stack: st.stack.drop_last().push(
                ReplayFrame { kind: top.kind, children: top.children.push(child) },
            ),
            cursor: st.cursor,
            result: st.result,
        }
    }
}

/// Consumes the token under the cursor into the innermost open node.
pub open spec fn replay_take_token(st: ReplayState, toks: Seq<TokenModel>) -> ReplayState {
    if 0 <= st.cursor < toks.len() {
        let st2 = replay_attach(st, token_leaf(toks[st.cursor]));
        ReplayState { stack: st2.stack, cursor: st.cursor + 1, result: st2.result }
    } else {
        st
    }
}

/// Closes the innermost open node: it becomes a child of the node around
/// it, or, when it was the outermost, the finished tree.
pub open spec fn replay_close(st: ReplayState) -> ReplayState {
    if st.stack.len() == 0 {
        st
    } else {
        let top = st.stack.last();
        let node = TreeModel::Node { kind: top.kind, children: top.children };
        let rest = st.stack.drop_last();
        if rest.len() == 0 {
            ReplayState { stack: rest, cursor: st.cursor, result: Some(node) }
        } else {
            ReplayState {
                stack: replay_attach(
                    ReplayState { stack: rest, cursor: st.cursor, result: st.result },
                    node,
                ).stack,
                cursor: st.cursor,
                result: st.result,
            }
        }
    }
}

/// Consumes every trivia token under the cursor into the innermost open
/// node, stopping at the next significant token or the end.
pub open spec fn replay_trivia(st: ReplayState, toks: Seq<TokenModel>) -> ReplayState
    decreases toks.len() - st.cursor,
{
    if 0 <= st.cursor < toks.len() && toks[st.cursor].kind.spec_is_trivia() && st.stack.len() > 0 {
        replay_trivia(replay_take_token(st, toks), toks)
    } else {
        st
    }
}

/// What one entry of the log does to the state: a start that no forward
/// parent claims opens its whole chain; a claimed start was already opened
/// and does nothing; token and finish entries consume and close.
pub open spec fn replay_step(
    st: ReplayState,
    events: Seq<Event>,
    toks: Seq<TokenModel>,
    i: int,
) -> ReplayState {
    if is_target(events, i) {
        st
    } else {
        match events[i] {
            Event::StartNode { .. } => replay_open(st, chain(events, i)),
            Event::AddToken => replay_take_token(st, toks),
            Event::FinishNode => replay_close(st),
            _ => st,
        }
    }
}

/// The state after the first `i` entries, each followed by the trivia that
/// has become reachable.
pub open spec fn replay(events: Seq<Event>, toks: Seq<TokenModel>, i: int) -> ReplayState
    decreases i,
{
    if i <= 0 {
        ReplayState { stack: Seq::empty(), cursor: 0, result: None }
    } else {
        replay_trivia(replay_step(replay(events, toks, i - 1), events, toks, i - 1), toks)
    }
}

/// The tree the whole log stands for, when the replay finishes one.
pub open spec fn replay_result(events: Seq<Event>, toks: Seq<TokenModel>) -> Option<TreeModel> {
    replay(events, toks, events.len() as int).result
}

/// A stack and its shadow have the same height.
pub(crate) proof fn lemma_frames_model_len(frames: Seq<Frame>)
    ensures
        frames_model(frames).len() == frames.len(),
    decreases frames.len(),
{
    if frames.len() > 0 {
        lemma_frames_model_len(frames.drop_last());
    }
}

/// The shadow of the finished tree, if one is done.
pub open spec fn opt_model(r: Option<SyntaxNode>) -> Option<TreeModel> {
    match r {
        Some(n) => Some(node_model(n)),
        None => None,
    }
}

/// The shadows of the open frames, outermost first.
pub(crate) open spec fn frames_model(frames: Seq<Frame>) -> Seq<ReplayFrame>
    decreases frames.len(),
{
    if frames.len() == 0 {
        Seq::empty()
    } else {
        frames_model(frames.drop_last()).push(
            ReplayFrame {
                kind: frames.last().kind,
                children: children_models(frames.last().children@),
            },
        )
    }
}

/// Opening frames moves neither the cursor nor the result.
pub proof fn lemma_replay_open_frame(st: ReplayState, kinds: Seq<SyntaxKind>)
    ensures
        replay_open(st, kinds).cursor == st.cursor,
        replay_open(st, kinds).result == st.result,
    decreases kinds.len(),
{
    if kinds.len() > 0 {
        lemma_replay_open_frame(
            ReplayState {
                stack: st.stack.push(ReplayFrame { kind: kinds.last(), children: Seq::empty() }),
                cursor: st.cursor,
                result: st.result,
            },
            kinds.drop_last(),
        );
    }
}

/// The observable fields of a diagnostic.
pub open spec fn err_model(e: ParseError) -> (Seq<SyntaxKind>, Option<SyntaxKind>, (usize, usize)) {
    (e.expected@, e.found, (e.range.start, e.range.end))
}

/// Replays the event log against the token sequence and builds the tree: a
/// single pass over the events, following forward-parent chains to open the
/// wrapping nodes outermost-first, attaching one token per token event, and
/// re-inserting the trivia that grammar decisions skipped, so that the
/// leaves of the result are exactly the tokens of the input, in order.
#[verifier::rlimit(100)]
pub(crate) fn finish(tokens: &Vec<Token>, events: Vec<Event>) -> (r: (SyntaxNode, Vec<ParseError>))
    requires
        sink_input_wf(events@, tokens@.map_values(|t: Token| t@)),
    ensures
        node_leaves(r.0) == tokens_leaves(tokens@.map_values(|t: Token| t@)),
        r.1@.map_values(|e: ParseError| err_model(e)) == err_list(events@).map_values(
            |e: ParseError| err_model(e),
        ),
        forall|j: int| 0 <= j < r.1@.len() ==> (#[trigger] r.1@[j]).wf(),
        r.0.kind == kind_of(events@[0]),
        1int + children_node_count(r.0.children@) as int == open_count(ops_of(events@)),
        replay_result(events@, tokens@.map_values(|t: Token| t@)) == Some(node_model(r.0)),
{
    let ghost ev = events@;
    let ghost toks = tokens@.map_values(|t: Token| t@);
    let ghost ops = ops_of(ev);
    let n = events.len();
    let n_tok = tokens.len();

    // First, note which entries are claimed by a forward parent.
    let mut is_tgt: Vec<bool> = Vec::new();
    let mut i: usize = 0;
    while i < n
        invariant
            is_tgt@.len() == i <= n,
            forall|j: int| 0 <= j < i ==> !is_tgt@[j],
        decreases n - i,
    {
        is_tgt.push(false);
        i = i + 1;
    }
    let mut i: usize = 0;
    while i < n
        invariant
            i <= n,
            n == ev.len(),
            events@ == ev,
            fp_wf(ev),
            is_tgt@.len() == n,
            forall|j: int|
                0 <= j < n ==> is_tgt@[j] == exists|s: int|
                    0 <= s < i && #[trigger] crate::parser::event::fp_target(ev, s) == Some(j),
        decreases n - i,
    {
        match &events[i] {
            Event::StartNode { forward_parent: Some(d), .. } => {
                proof {
                    assert(crate::parser::event::fp_ok(ev, i as int));
                }
                let tgt = i + *d;
                let ghost pre = is_tgt@;
                is_tgt[tgt] = true;
                proof {
                    assert forall|j: int|
                        0 <= j < n implies is_tgt@[j] == exists|s: int|
                        0 <= s < i + 1 && #[trigger] crate::parser::event::fp_target(ev, s) == Some(
                            j,
                        ) by {
                        if j == tgt as int {
                            assert(crate::parser::event::fp_target(ev, i as int) == Some(j));
                        } else {
                            assert(is_tgt@[j] == pre[j]);
                            if is_tgt@[j] {
                                let s = choose|s: int|
                                    0 <= s < i && #[trigger] crate::parser::event::fp_target(
                                        ev,
                                        s,
                                    ) == Some(j);
                                assert(crate::parser::event::fp_target(ev, s) == Some(j));
                            }
                        }
                    }
                }
            },
            _ => {
                proof {
                    assert forall|j: int|
                        0 <= j < n implies is_tgt@[j] == exists|s: int|
                        0 <= s < i + 1 && #[trigger] crate::parser::event::fp_target(ev, s) == Some(
                            j,
                        ) by {
                        if is_tgt@[j] {
                            let s = choose|s: int|
                                0 <= s < i && #[trigger] crate::parser::event::fp_target(ev, s)
                                    == Some(j);
                            assert(crate::parser::event::fp_target(ev, s) == Some(j));
                        } else {
                            assert(crate::parser::event::fp_target(ev, i as int) is None);
                        }
                    }
                }
            },
        }
        i = i + 1;
    }
    proof {
        assert forall|j: int| 0 <= j < n implies is_tgt@[j] == is_target(ev, j) by {
            if is_target(ev, j) {
                let s = choose|s: int|
                    0 <= s < ev.len() && #[trigger] crate::parser::event::fp_target(ev, s) == Some(
                        j,
                    );
                assert(crate::parser::event::fp_target(ev, s) == Some(j));
            }
            if is_tgt@[j] {
                let s = choose|s: int|
                    0 <= s < n && #[trigger] crate::parser::event::fp_target(ev, s) == Some(j);
                assert(is_target(ev, j));
            }
        }
    }

    // Then replay the log.
    let mut stack: Vec<Frame> = Vec::new();
    let mut errors: Vec<ParseError> = Vec::new();
    let mut cursor: usize = 0;
    let mut result: Option<SyntaxNode> = None;
    let mut idx: usize = 0;
    proof {
        assert(ops_upto(ev, 0) =~= Seq::<Op>::empty());
        assert(toks.take(0) =~= Seq::<TokenModel>::empty());
        assert(tokens_leaves(toks).take(0) =~= Seq::<LeafModel>::empty());
        assert(err_list(ev).take(0) =~= Seq::<ParseError>::empty());
        lemma_ops_upto_grows(ev, 0, ev.len() as int);
        assert(frames_model(stack@) =~= Seq::<ReplayFrame>::empty());
        assert(replay(ev, toks, 0) == ReplayState {
            stack: frames_model(stack@),
            cursor: 0int,
            result: None::<TreeModel>,
        });
    }
    while idx < n
        invariant
            idx <= n,
            n == ev.len(),
            n_tok == toks.len(),
            events@ == ev,
            tokens@.map_values(|t: Token| t@) == toks,
            sink_input_wf(ev, toks),
            ops == ops_of(ev),
            is_tgt@.len() == n,
            forall|j: int| 0 <= j < n ==> is_tgt@[j] == is_target(ev, j),
            cursor <= n_tok,
            // the processed prefix of the resolved operations
            ops_upto(ev, idx as int).len() <= ops.len(),
            ops.take(ops_upto(ev, idx as int).len() as int) == ops_upto(ev, idx as int),
            // balance drives the stack
            stack@.len() == bal(ops_upto(ev, idx as int)),
            // tokens consumed so far sit in the open nodes, in order
            sig_count(toks.take(cursor as int)) == tok_count(ops_upto(ev, idx as int)),
            (match result {
                None => stack_node_count(stack@),
                Some(node) => 1int + children_node_count(node.children@) as int,
            }) == open_count(ops_upto(ev, idx as int)),
            replay(ev, toks, idx as int) == (ReplayState {
                stack: frames_model(stack@),
                cursor: cursor as int,
                result: opt_model(result),
            }),
            idx > 0 ==> (cursor == n_tok || !toks[cursor as int].kind.spec_is_trivia()),
            idx == 0 ==> cursor == 0,
            match result {
                None => {
                    &&& stack_leaves(stack@) == tokens_leaves(toks).take(cursor as int)
                    &&& (ops_upto(ev, idx as int).len() < ops.len() || idx == 0)
                    &&& (stack@.len() > 0 ==> stack@[0].kind == kind_of(ev[0]))
                },
                Some(node) => {
                    &&& stack@.len() == 0
                    &&& node_leaves(node) == tokens_leaves(toks).take(cursor as int)
                    &&& cursor == n_tok
                    &&& ops_upto(ev, idx as int).len() == ops.len()
                    &&& node.kind == kind_of(ev[0])
                },
            },
            // diagnostics so far
            errors@.map_values(|e: ParseError| err_model(e)) == err_list(ev).take(
                errors@.len() as int,
            ).map_values(|e: ParseError| err_model(e)),
            errors@.len() == err_list(ev.take(idx as int)).len(),
            err_list(ev.take(idx as int)) == err_list(ev).take(errors@.len() as int),
            forall|j: int| 0 <= j < errors@.len() ==> (#[trigger] errors@[j]).wf(),
        decreases n - idx,
    {
        let ghost p_before = ops_upto(ev, idx as int);
        let ghost st_before = replay(ev, toks, idx as int);
        proof {
            assert(ops_upto(ev, idx + 1) == p_before + op_at(ev, idx as int));
            lemma_ops_upto_grows(ev, idx + 1, ev.len() as int);
            lemma_counts_concat(p_before, op_at(ev, idx as int));
            assert(ev.take(idx + 1).drop_last() =~= ev.take(idx as int));
            assert(ev.take(idx + 1).last() == ev[idx as int]);
        }
        match &events[idx] {
            Event::StartNode { kind, forward_parent } => {
                if !is_tgt[idx] {
                    // collect the chain of wrapping kinds, innermost first
                    let mut kinds: Vec<SyntaxKind> = Vec::new();
                    kinds.push(*kind);
                    let mut cur = idx;
                    let mut fp: Option<usize> = *forward_parent;
                    proof {
                        assert(chain(ev, idx as int) == seq![kind_of(ev[idx as int])] + (match fp {
                            Some(d) => chain(ev, idx + d as int),
                            None => Seq::<SyntaxKind>::empty(),
                        })) by {
                            assert(crate::parser::event::fp_ok(ev, idx as int));
                            if fp is None {
                                assert(chain(ev, idx as int) =~= seq![kind_of(ev[idx as int])]);
                            }
                        }
                        assert(kinds@ =~= seq![kind_of(ev[idx as int])]);
                    }
                    while fp.is_some()
                        invariant
                            n == ev.len(),
                            events@ == ev,
                            fp_wf(ev),
                            forall|j: int| 0 <= j < n ==> !((#[trigger] ev[j]) is Placeholder),
                            idx <= cur < n,
                            kinds@.len() >= 1,
                            fp == fp_of(ev[cur as int]),
                            ev[cur as int] is StartNode,
                            chain(ev, idx as int) == kinds@ + (match fp {
                                Some(d) => chain(ev, cur + d as int),
                                None => Seq::<SyntaxKind>::empty(),
                            }),
                        decreases n - cur,
                    {
                        let d = fp.unwrap();
                        proof {
                            assert(crate::parser::event::fp_ok(ev, cur as int));
                        }
                        cur = cur + d;
                        match &events[cur] {
                            Event::StartNode { kind: k2, forward_parent: f2 } => {
                                kinds.push(*k2);
                                fp = *f2;
                                proof {
                                    assert(chain(ev, cur as int) == seq![kind_of(ev[cur as int])]
                                        + (match fp {
                                        Some(d2) => chain(ev, cur + d2 as int),
                                        None => Seq::<SyntaxKind>::empty(),
                                    })) by {
                                        assert(crate::parser::event::fp_ok(ev, cur as int));
                                        if fp is None {
                                            assert(chain(ev, cur as int) =~= seq![
                                                kind_of(ev[cur as int]),
                                            ]);
                                        }
                                    }
                                    assert(chain(ev, idx as int) =~= kinds@ + (match fp {
                                        Some(d2) => chain(ev, cur + d2 as int),
                                        None => Seq::<SyntaxKind>::empty(),
                                    }));
                                }
                            },
                            _ => {
                                proof {
                                    assert(false);
                                }
                                fp = None;
                            },
                        }
                    }
                    proof {
                        assert(kinds@ =~= chain(ev, idx as int));
                    }
                    // open the nodes, outermost wrapper first
                    let ghost frames0 = stack@;
                    let mut k = kinds.len();
                    proof {
                        assert(kinds@.take(kinds@.len() as int) =~= kinds@);
                    }
                    while k > 0
                        invariant
                            k <= kinds@.len(),
                            stack@.len() == frames0.len() + (kinds@.len() - k),
                            forall|j: int| 0 <= j < frames0.len() ==> stack@[j] == frames0[j],
                            forall|j: int|
                                frames0.len() <= j < stack@.len() ==> (#[trigger] stack@[j]).children@
                                    =~= Seq::<SyntaxElement>::empty(),
                            stack_leaves(stack@) == stack_leaves(frames0),
                            stack_node_count(stack@) == stack_node_count(frames0) + (kinds@.len()
                                - k),
                            frames0.len() == 0 && k < kinds@.len() ==> stack@[0].kind == kinds@[kinds@.len() - 1],
                            replay_open(
                                ReplayState {
                                    stack: frames_model(frames0),
                                    cursor: st_before.cursor,
                                    result: st_before.result,
                                },
                                kinds@,
                            ) == replay_open(
                                ReplayState {
                                    stack: frames_model(stack@),
                                    cursor: st_before.cursor,
                                    result: st_before.result,
                                },
                                kinds@.take(k as int),
                            ),
                        decreases k,
                    {
                        k = k - 1;
                        let ghost pre_stack = stack@;
                        proof {
                            assert(kinds@.take(k + 1).last() == kinds@[k as int]);
                            assert(kinds@.take(k + 1).drop_last() =~= kinds@.take(k as int));
                        }
                        stack.push(Frame { kind: kinds[k], children: Vec::new() });
                        proof {
                            assert(stack@.drop_last() =~= pre_stack);
                            assert(children_leaves(stack@.last().children@) =~= Seq::<
                                LeafModel,
                            >::empty());
                            assert(stack_leaves(stack@) =~= stack_leaves(pre_stack));
                            assert(children_node_count(stack@.last().children@) == 0);
                            assert(children_models(stack@.last().children@) =~= Seq::<
                                TreeModel,
                            >::empty());
                            assert(frames_model(stack@) =~= frames_model(pre_stack).push(
                                ReplayFrame { kind: kinds@[k as int], children: Seq::empty() },
                            ));
                        }
                    }
                    proof {
                        assert(kinds@.take(0) =~= Seq::<SyntaxKind>::empty());
                        lemma_replay_open_frame(
                            ReplayState {
                                stack: frames_model(frames0),
                                cursor: st_before.cursor,
                                result: st_before.result,
                            },
                            kinds@,
                        );
                        assert(replay_step(st_before, ev, toks, idx as int) == (ReplayState {
                            stack: frames_model(stack@),
                            cursor: cursor as int,
                            result: st_before.result,
                        }));
                    }
                    proof {
                        crate::parser::event::lemma_bal_all_opens(chain(ev, idx as int));
                        assert(op_at(ev, idx as int) == chain(ev, idx as int).map_values(
                            |kk: SyntaxKind| Op::Open(kk),
                        ));
                        if idx == 0 {
                            assert(chain(ev, 0) =~= seq![kind_of(ev[0])]) by {
                                assert(fp_of(ev[0]) is None);
                            }
                            assert(kinds@.len() == 1);
                            assert(stack@[0].kind == kinds@[0]);
                            assert(stack@[0].kind == kind_of(ev[0]));
                        } else {
                            assert(frames0.len() > 0) by {
                                if frames0.len() == 0 {
                                    assert(bal(p_before) == 0);
                                    assert(p_before.len() >= 1) by {
                                        assert(ops_upto(ev, 1) == ops_upto(ev, 0) + op_at(ev, 0));
                                        assert(op_at(ev, 0) == chain(ev, 0).map_values(
                                            |kk: SyntaxKind| Op::Open(kk),
                                        ));
                                        assert(chain(ev, 0) =~= seq![kind_of(ev[0])]);
                                        lemma_ops_upto_grows(ev, 1, idx as int);
                                    }
                                    assert(p_before.len() < ops.len());
                                    assert(ops.take(p_before.len() as int) == p_before);
                                    assert(bal(ops.take(p_before.len() as int)) >= 1);
                                    assert(false);
                                }
                            }
                            assert(stack@[0] == frames0[0]);
                        }
                        assert(result is None) by {
                            if result is Some {
                                assert(ops_upto(ev, idx as int).len() == ops.len());
                                assert(ops_upto(ev, idx + 1).len() > ops.len());
                            }
                        }
                        assert(stack_node_count(stack@) == open_count(ops_upto(ev, idx + 1))) by {
                            assert(stack_node_count(stack@) == stack_node_count(frames0)
                                + kinds@.len());
                            assert(open_count(op_at(ev, idx as int)) == chain(ev, idx as int).len());
                        }
                        assert(ops_upto(ev, idx + 1).len() < ops.len()) by {
                            assert(idx + 1 < n) by {
                                assert(ev[n - 1] == Event::FinishNode);
                            }
                            assert(ops_upto(ev, n as int) == ops_upto(ev, n - 1) + op_at(
                                ev,
                                n - 1,
                            ));
                            assert(op_at(ev, n - 1) =~= seq![Op::Close]) by {
                                assert(ev[n - 1] == Event::FinishNode);
                                assert(!is_target(ev, n - 1)) by {
                                    if is_target(ev, n - 1) {
                                        let s = choose|s: int|
                                            0 <= s < ev.len()
                                                && #[trigger] crate::parser::event::fp_target(
                                                ev,
                                                s,
                                            ) == Some(n - 1);
                                        assert(crate::parser::event::fp_ok(ev, s));
                                    }
                                }
                            }
                            lemma_ops_upto_grows(ev, idx + 1, n - 1);
                        }
                    }
                } else {
                    proof {
                        assert(op_at(ev, idx as int) =~= Seq::<Op>::empty());
                        assert(ops_upto(ev, idx + 1) =~= p_before);
                        assert(idx != 0);
                        assert(replay_step(st_before, ev, toks, idx as int) == st_before);
                    }
                }
            },
            Event::AddToken => {
                proof {
                    assert(!is_target(ev, idx as int)) by {
                        if is_target(ev, idx as int) {
                            let s = choose|s: int|
                                0 <= s < ev.len() && #[trigger] crate::parser::event::fp_target(
                                    ev,
                                    s,
                                ) == Some(idx as int);
                            assert(crate::parser::event::fp_ok(ev, s));
                        }
                    }
                    assert(op_at(ev, idx as int) =~= seq![Op::Tok]);
                    assert(tok_count(seq![Op::Tok]) == 1 && bal(seq![Op::Tok]) == 0 && open_count(
                        seq![Op::Tok],
                    ) == 0) by {
                        assert(seq![Op::Tok].len() == 1);
                        assert(seq![Op::Tok].drop_last() =~= Seq::<Op>::empty());
                        assert(seq![Op::Tok].last() == Op::Tok);
                        assert(tok_count(Seq::<Op>::empty()) == 0);
                        assert(bal(Seq::<Op>::empty()) == 0);
                        assert(open_count(Seq::<Op>::empty()) == 0);
                    }
                    // the cursor stands on a significant token
                    assert(idx > 0) by {
                        if idx == 0 {
                            assert(ops.take(1) =~= seq![Op::Tok]);
                            assert(bal(ops.take(1)) == 0);
                        }
                    }
                    assert(cursor < n_tok) by {
                        if cursor == n_tok {
                            assert(toks.take(cursor as int) =~= toks);
                            lemma_counts_concat(
                                p_before + op_at(ev, idx as int),
                                ops.skip(ops_upto(ev, idx + 1).len() as int),
                            );
                            assert((p_before + op_at(ev, idx as int)) + ops.skip(
                                ops_upto(ev, idx + 1).len() as int,
                            ) =~= ops);
                            lemma_tok_nonneg(ops.skip(ops_upto(ev, idx + 1).len() as int));
                        }
                    }
                    // a Tok op keeps the stack, so it must be non-empty
                    assert(p_before.len() >= 1) by {
                        assert(ops_upto(ev, 1) == ops_upto(ev, 0) + op_at(ev, 0));
                        assert(op_at(ev, 0) == chain(ev, 0).map_values(|kk: SyntaxKind| Op::Open(kk)));
                        assert(chain(ev, 0) =~= seq![kind_of(ev[0])]);
                        lemma_ops_upto_grows(ev, 1, idx as int);
                    }
                    assert(stack@.len() > 0) by {
                        if stack@.len() == 0 {
                            assert(bal(p_before) == 0);
                            assert(p_before.len() < ops.len());
                            assert(ops.take(p_before.len() as int) == p_before);
                            assert(bal(ops.take(p_before.len() as int)) >= 1);
                            assert(false);
                        }
                    }
                    lemma_sig_count_take_snoc(toks, cursor as int);
                }
                let t = &tokens[cursor];
                let leaf = SyntaxToken { kind: SyntaxKind::from(t.kind), text: t.text.clone() };
                let ghost frames0 = stack@;
                let mut top = stack.pop().unwrap();
                let ghost kids0 = top.children@;
                top.children.push(SyntaxElement::Token(leaf));
                stack.push(top);
                cursor = cursor + 1;
                proof {
                    assert(stack@.drop_last() =~= frames0.drop_last());
                    lemma_children_leaves_snoc(
                        kids0,
                        SyntaxElement::Token(
                            SyntaxToken {
                                kind: SyntaxKind::spec_from(toks[cursor - 1].kind),
                                text: tokens@[cursor - 1].text,
                            },
                        ),
                    );
                    assert(crate::tree::element_leaves(stack@.last().children@.last()) =~= seq![
                        leaf_of(toks[cursor - 1]),
                    ]);
                    assert(stack_leaves(stack@) =~= stack_leaves(frames0) + seq![
                        leaf_of(toks[cursor - 1]),
                    ]);
                    assert(tokens_leaves(toks).take(cursor as int) =~= tokens_leaves(toks).take(
                        cursor - 1,
                    ).push(leaf_of(toks[cursor - 1])));
                    assert(stack_leaves(stack@) =~= tokens_leaves(toks).take(cursor as int));
                    lemma_children_node_count_snoc(kids0, stack@.last().children@.last());
                    assert(element_node_count(stack@.last().children@.last()) == 0);
                    assert(stack_node_count(stack@) == stack_node_count(frames0));
                    lemma_frames_model_len(frames0);
                    lemma_children_models_snoc(kids0, stack@.last().children@.last());
                    assert(element_model(stack@.last().children@.last()) == token_leaf(
                        toks[cursor - 1],
                    ));
                    assert(frames_model(stack@) =~= frames_model(frames0.drop_last()).push(
                        ReplayFrame {
                            kind: frames0.last().kind,
                            children: children_models(kids0).push(token_leaf(toks[cursor - 1])),
                        },
                    ));
                    assert(frames_model(frames0) == frames_model(frames0.drop_last()).push(
                        ReplayFrame {
                            kind: frames0.last().kind,
                            children: children_models(kids0),
                        },
                    ));
                    assert(st_before.stack == frames_model(frames0));
                    assert(st_before.stack.last() == (ReplayFrame {
                        kind: frames0.last().kind,
                        children: children_models(kids0),
                    }));
                    assert(st_before.stack.drop_last() == frames_model(frames0.drop_last()));
                    assert(replay_attach(st_before, token_leaf(toks[cursor - 1])).stack
                        == frames_model(stack@));
                    assert(replay_step(st_before, ev, toks, idx as int) == replay_take_token(
                        st_before,
                        toks,
                    ));
                    assert(replay_step(st_before, ev, toks, idx as int) == (ReplayState {
                        stack: frames_model(stack@),
                        cursor: cursor as int,
                        result: st_before.result,
                    }));
                    assert(result is None);
                    assert(ops_upto(ev, idx + 1).len() < ops.len()) by {
                        assert(idx + 1 < n) by {
                            assert(ev[n - 1] == Event::FinishNode);
                        }
                        assert(op_at(ev, n - 1) =~= seq![Op::Close]) by {
                            assert(ev[n - 1] == Event::FinishNode);
                            assert(!is_target(ev, n - 1)) by {
                                if is_target(ev, n - 1) {
                                    let s = choose|s: int|
                                        0 <= s < ev.len()
                                            && #[trigger] crate::parser::event::fp_target(
                                            ev,
                                            s,
                                        ) == Some(n - 1);
                                    assert(crate::parser::event::fp_ok(ev, s));
                                }
                            }
                        }
                        assert(ops_upto(ev, n as int) == ops_upto(ev, n - 1) + op_at(ev, n - 1));
                        lemma_ops_upto_grows(ev, idx + 1, n - 1);
                    }
                    if stack@.len() > 0 && frames0.len() > 1 {
                        assert(stack@[0] == frames0[0]);
                    }
                }
            },
            Event::FinishNode => {
                proof {
                    assert(!is_target(ev, idx as int)) by {
                        if is_target(ev, idx as int) {
                            let s = choose|s: int|
                                0 <= s < ev.len() && #[trigger] crate::parser::event::fp_target(
                                    ev,
                                    s,
                                ) == Some(idx as int);
                            assert(crate::parser::event::fp_ok(ev, s));
                        }
                    }
                    assert(op_at(ev, idx as int) =~= seq![Op::Close]);
                    assert(bal(seq![Op::Close]) == -1 && tok_count(seq![Op::Close]) == 0
                        && open_count(seq![Op::Close]) == 0) by {
                        assert(seq![Op::Close].len() == 1);
                        assert(seq![Op::Close].drop_last() =~= Seq::<Op>::empty());
                        assert(seq![Op::Close].last() == Op::Close);
                        assert(tok_count(Seq::<Op>::empty()) == 0);
                        assert(bal(Seq::<Op>::empty()) == 0);
                        assert(open_count(Seq::<Op>::empty()) == 0);
                    }
                    // the stack cannot be empty: the prefix is a forest
                    assert(stack@.len() > 0) by {
                        if stack@.len() == 0 {
                            lemma_tree_is_forest(ops);
                            assert(bal(ops.take(ops_upto(ev, idx + 1).len() as int)) >= 0);
                            assert(ops.take(ops_upto(ev, idx + 1).len() as int) =~= ops_upto(
                                ev,
                                idx + 1,
                            ));
                        }
                    }
                    assert(result is None);
                }
                let ghost frames0 = stack@;
                let top = stack.pop().unwrap();
                let node = SyntaxNode { kind: top.kind, children: top.children };
                if stack.len() == 0 {
                    proof {
                        // the tree is balanced only at the very end
                        assert(ops_upto(ev, idx + 1).len() == ops.len()) by {
                            let len_after = ops_upto(ev, idx + 1).len() as int;
                            if len_after < ops.len() {
                                assert(bal(ops.take(len_after)) == 0);
                            }
                        }
                        assert(cursor == n_tok) by {
                            if cursor < n_tok {
                                assert(sig_count(toks.take(cursor as int)) == tok_count(
                                    ops_upto(ev, idx + 1),
                                ));
                                assert(ops.take(ops.len() as int) =~= ops);
                                assert(sig_count(toks.take(cursor as int)) == sig_count(toks));
                                if !toks[cursor as int].kind.spec_is_trivia() {
                                    lemma_sig_count_take_snoc(toks, cursor as int);
                                    lemma_sig_count_prefix(toks, cursor + 1);
                                    assert(false);
                                } else {
                                    assert(idx > 0) by {
                                        if idx == 0 {
                                            assert(ops.take(1) =~= seq![Op::Close]);
                                            assert(bal(ops.take(1)) == -1);
                                            lemma_tree_is_forest(ops);
                                        }
                                    }
                                }
                            }
                        }
                        assert(toks.take(cursor as int) =~= toks);
                        assert(tokens_leaves(toks).take(cursor as int) =~= tokens_leaves(toks));
                        assert(node_leaves(node) == stack_leaves(frames0)) by {
                            assert(frames0.drop_last() =~= Seq::<Frame>::empty());
                            assert(stack_leaves(Seq::<Frame>::empty()) =~= Seq::<LeafModel>::empty());
                            assert(stack_leaves(frames0) =~= children_leaves(
                                frames0.last().children@,
                            ));
                        }
                        assert(node.kind == kind_of(ev[0])) by {
                            assert(frames0[0].kind == kind_of(ev[0]));
                            assert(frames0.last() == frames0[0]);
                        }
                        assert(stack_node_count(frames0) == 1 + children_node_count(
                            frames0.last().children@,
                        )) by {
                            assert(frames0.drop_last() =~= Seq::<Frame>::empty());
                            assert(stack_node_count(Seq::<Frame>::empty()) == 0);
                        }
                        lemma_frames_model_len(frames0);
                        assert(frames_model(frames0).last() == (ReplayFrame {
                            kind: frames0.last().kind,
                            children: children_models(frames0.last().children@),
                        }));
                        assert(frames_model(frames0).drop_last() =~= frames_model(
                            frames0.drop_last(),
                        ));
                        assert(frames_model(frames0.drop_last()) =~= Seq::<ReplayFrame>::empty()) by {
                            assert(frames0.drop_last() =~= Seq::<Frame>::empty());
                        }
                        assert(frames_model(stack@) =~= Seq::<ReplayFrame>::empty());
                        assert(replay_step(st_before, ev, toks, idx as int) == (ReplayState {
                            stack: frames_model(stack@),
                            cursor: cursor as int,
                            result: Some(node_model(node)),
                        }));
                    }
                    result = Some(node);
                } else {
                    let ghost mid = stack@;
                    let mut parent = stack.pop().unwrap();
                    let ghost kids0 = parent.children@;
                    parent.children.push(SyntaxElement::Node(node));
                    stack.push(parent);
                    proof {
                        assert(stack@.drop_last() =~= mid.drop_last());
                        lemma_children_leaves_snoc(
                            kids0,
                            SyntaxElement::Node(
                                SyntaxNode { kind: frames0.last().kind, children: frames0.last().children },
                            ),
                        );
                        assert(crate::tree::element_leaves(stack@.last().children@.last())
                            =~= children_leaves(frames0.last().children@));
                        assert(stack_leaves(mid) + children_leaves(frames0.last().children@)
                            =~= stack_leaves(frames0));
                        assert(stack_leaves(stack@) =~= stack_leaves(frames0));
                        lemma_children_node_count_snoc(kids0, stack@.last().children@.last());
                        assert(element_node_count(stack@.last().children@.last()) == 1
                            + children_node_count(frames0.last().children@));
                        assert(stack_node_count(stack@) == stack_node_count(mid.drop_last()) + 1
                            + children_node_count(stack@.last().children@));
                        assert(stack_node_count(frames0) == stack_node_count(mid) + 1
                            + children_node_count(frames0.last().children@));
                        assert(stack_node_count(mid) == stack_node_count(mid.drop_last()) + 1
                            + children_node_count(kids0));
                        assert(stack_node_count(stack@) == stack_node_count(frames0));
                        assert(result is None);
                        assert(ops_upto(ev, idx + 1).len() < ops.len()) by {
                            if ops_upto(ev, idx + 1).len() == ops.len() {
                                assert(ops.take(ops.len() as int) =~= ops);
                                assert(ops_upto(ev, idx + 1) == ops);
                                assert(bal(ops_upto(ev, idx + 1)) == 0);
                                assert(stack@.len() > 0);
                                assert(false);
                            }
                        }
                        if stack@.len() > 0 {
                            assert(stack@[0] == frames0[0] || stack@.len() == 1);
                            if stack@.len() == 1 {
                                assert(stack@[0].kind == mid[0].kind);
                                assert(mid[0] == frames0[0]);
                            }
                        }
                        lemma_frames_model_len(frames0);
                        lemma_frames_model_len(mid);
                        lemma_children_models_snoc(kids0, stack@.last().children@.last());
                        assert(element_model(stack@.last().children@.last()) == (TreeModel::Node {
                            kind: frames0.last().kind,
                            children: children_models(frames0.last().children@),
                        }));
                        assert(frames_model(frames0) == frames_model(mid).push(
                            ReplayFrame {
                                kind: frames0.last().kind,
                                children: children_models(frames0.last().children@),
                            },
                        )) by {
                            assert(frames0.drop_last() =~= mid);
                        }
                        assert(frames_model(mid) == frames_model(mid.drop_last()).push(
                            ReplayFrame {
                                kind: mid.last().kind,
                                children: children_models(kids0),
                            },
                        ));
                        assert(frames_model(stack@) =~= frames_model(mid.drop_last()).push(
                            ReplayFrame {
                                kind: mid.last().kind,
                                children: children_models(kids0).push(
                                    TreeModel::Node {
                                        kind: frames0.last().kind,
                                        children: children_models(frames0.last().children@),
                                    },
                                ),
                            },
                        ));
                        assert(st_before.stack == frames_model(frames0));
                        assert(st_before.stack.last() == (ReplayFrame {
                            kind: frames0.last().kind,
                            children: children_models(frames0.last().children@),
                        }));
                        assert(st_before.stack.drop_last() == frames_model(mid));
                        assert(frames_model(mid).last() == (ReplayFrame {
                            kind: mid.last().kind,
                            children: children_models(kids0),
                        }));
                        assert(frames_model(mid).drop_last() == frames_model(mid.drop_last()));
                        let closed = replay_close(st_before);
                        assert(closed.stack == frames_model(stack@));
                        assert(closed.cursor == cursor as int);
                        assert(closed.result == st_before.result);
                        assert(replay_step(st_before, ev, toks, idx as int) == (ReplayState {
                            stack: frames_model(stack@),
                            cursor: cursor as int,
                            result: st_before.result,
                        }));
                    }
                }
            },
            Event::Placeholder => {
                proof {
                    assert(false);
                }
            },
            Event::Error(e) => {
                let ghost errs0 = errors@;
                let ghost payload = *e;
                let copy = e.duplicate();
                errors.push(copy);
                proof {
                    assert(op_at(ev, idx as int) =~= Seq::<Op>::empty()) by {
                        if is_target(ev, idx as int) {
                        } else {
                            assert(!(ev[idx as int] is StartNode));
                        }
                    }
                    assert(ops_upto(ev, idx + 1) =~= p_before);
                    assert(idx != 0) by {
                        assert(ev[0] is StartNode);
                    }
                    assert(ev[idx as int] == Event::Error(payload));
                    assert(err_list(ev.take(idx + 1)) =~= err_list(ev.take(idx as int)) + seq![
                        payload,
                    ]);
                    crate::parser::event::lemma_err_prefix(ev, idx + 1);
                    assert(err_list(ev).take(err_list(ev.take(idx + 1)).len() as int) == err_list(
                        ev.take(idx + 1),
                    ));
                    assert(err_list(ev.take(idx + 1)).len() == errs0.len() + 1);
                    assert(err_list(ev)[errs0.len() as int] == payload) by {
                        assert(err_list(ev.take(idx + 1))[errs0.len() as int] == payload);
                    }
                    assert(err_list(ev).take(errs0.len() as int + 1) =~= err_list(ev).take(
                        errs0.len() as int,
                    ).push(payload));
                    assert(err_list(ev.take(idx + 1)) =~= err_list(ev).take(errs0.len() as int + 1));
                    assert(err_model(copy) == err_model(payload));
                    assert(errors@.map_values(|x: ParseError| err_model(x)) =~= errs0.map_values(
                        |x: ParseError| err_model(x),
                    ).push(err_model(copy)));
                    assert(err_list(ev).take(errors@.len() as int).map_values(
                        |x: ParseError| err_model(x),
                    ) =~= err_list(ev).take(errs0.len() as int).map_values(
                        |x: ParseError| err_model(x),
                    ).push(err_model(payload)));
                    assert(errors@.map_values(|x: ParseError| err_model(x)) =~= err_list(ev).take(
                        errors@.len() as int,
                    ).map_values(|x: ParseError| err_model(x)));
                    assert(e.wf()) by {
                        assert(errs_wf(ev));
                        assert(ev[idx as int] is Error);
                    }
                    assert(replay_step(st_before, ev, toks, idx as int) == st_before);
                }
            },
        }
        proof {
            if !(events@[idx as int] is Error) {
                assert(err_list(ev.take(idx + 1)) =~= err_list(ev.take(idx as int)));
            }
        }
        proof {
            assert(replay(ev, toks, idx + 1) == replay_trivia(
                replay_step(st_before, ev, toks, idx as int),
                toks,
            ));
        }
        idx = idx + 1;
        // re-insert the trivia that lies before the next significant token
        while cursor < n_tok && tokens[cursor].kind.is_trivia()
            invariant
                n_tok == toks.len(),
                tokens@.map_values(|t: Token| t@) == toks,
                cursor <= n_tok,
                sig_count(toks.take(cursor as int)) == tok_count(ops_upto(ev, idx as int)),
                n == ev.len(),
                events@ == ev,
                sink_input_wf(ev, toks),
                ops == ops_of(ev),
                idx >= 1,
                idx <= n,
                ops_upto(ev, idx as int).len() <= ops.len(),
                ops.take(ops_upto(ev, idx as int).len() as int) == ops_upto(ev, idx as int),
                stack@.len() == bal(ops_upto(ev, idx as int)),
                (match result {
                    None => stack_node_count(stack@),
                    Some(node) => 1int + children_node_count(node.children@) as int,
                }) == open_count(ops_upto(ev, idx as int)),
                replay(ev, toks, idx as int) == replay_trivia(
                    ReplayState {
                        stack: frames_model(stack@),
                        cursor: cursor as int,
                        result: opt_model(result),
                    },
                    toks,
                ),
                match result {
                    None => {
                        &&& stack_leaves(stack@) == tokens_leaves(toks).take(cursor as int)
                        &&& ops_upto(ev, idx as int).len() < ops.len()
                        &&& (stack@.len() > 0 ==> stack@[0].kind == kind_of(ev[0]))
                    },
                    Some(node) => {
                        &&& stack@.len() == 0
                        &&& node_leaves(node) == tokens_leaves(toks).take(cursor as int)
                        &&& cursor == n_tok
                        &&& ops_upto(ev, idx as int).len() == ops.len()
                        &&& node.kind == kind_of(ev[0])
                    },
                },
            decreases n_tok - cursor,
        {
            proof {
                // a trivia token can only be attached while a node is open
                assert(stack@.len() > 0) by {
                    assert(result is None) by {
                        if result is Some {
                            assert(cursor == n_tok);
                        }
                    }
                    if stack@.len() == 0 {
                        let pl = ops_upto(ev, idx as int).len() as int;
                        if pl == 0 {
                            assert(ops_upto(ev, 1) == ops_upto(ev, 0) + op_at(ev, 0));
                            assert(!is_target(ev, 0));
                            assert(op_at(ev, 0) == chain(ev, 0).map_values(
                                |kk: SyntaxKind| Op::Open(kk),
                            ));
                            assert(chain(ev, 0) =~= seq![kind_of(ev[0])]);
                            crate::parser::event::lemma_bal_all_opens(chain(ev, 0));
                            assert(ops_upto(ev, 1).len() >= 1);
                            lemma_ops_upto_grows(ev, 1, idx as int);
                            assert(false);
                        } else {
                            assert(bal(ops.take(pl)) == 0);
                            assert(false);
                        }
                    }
                }
                lemma_sig_count_take_snoc(toks, cursor as int);
            }
            let t = &tokens[cursor];
            let leaf = SyntaxToken { kind: SyntaxKind::from(t.kind), text: t.text.clone() };
            let ghost frames0 = stack@;
            let mut top = stack.pop().unwrap();
            let ghost kids0 = top.children@;
            top.children.push(SyntaxElement::Token(leaf));
            stack.push(top);
            cursor = cursor + 1;
            proof {
                assert(stack@.drop_last() =~= frames0.drop_last());
                lemma_children_leaves_snoc(
                    kids0,
                    SyntaxElement::Token(
                        SyntaxToken {
                            kind: SyntaxKind::spec_from(toks[cursor - 1].kind),
                            text: tokens@[cursor - 1].text,
                        },
                    ),
                );
                assert(crate::tree::element_leaves(stack@.last().children@.last()) =~= seq![
                    leaf_of(toks[cursor - 1]),
                ]);
                assert(stack_leaves(stack@) =~= stack_leaves(frames0) + seq![
                    leaf_of(toks[cursor - 1]),
                ]);
                assert(tokens_leaves(toks).take(cursor as int) =~= tokens_leaves(toks).take(
                    cursor - 1,
                ).push(leaf_of(toks[cursor - 1])));
                lemma_children_node_count_snoc(kids0, stack@.last().children@.last());
                assert(element_node_count(stack@.last().children@.last()) == 0);
                assert(stack_node_count(stack@) == stack_node_count(frames0)) by {
                    assert(stack@.drop_last() =~= frames0.drop_last());
                }
                if stack@.len() > 0 && frames0.len() > 1 {
                    assert(stack@[0] == frames0[0]);
                }
                lemma_frames_model_len(frames0);
                lemma_children_models_snoc(kids0, stack@.last().children@.last());
                assert(element_model(stack@.last().children@.last()) == token_leaf(
                    toks[cursor - 1],
                ));
                assert(frames_model(frames0) == frames_model(frames0.drop_last()).push(
                    ReplayFrame {
                        kind: frames0.last().kind,
                        children: children_models(kids0),
                    },
                ));
                assert(frames_model(stack@) =~= frames_model(frames0.drop_last()).push(
                    ReplayFrame {
                        kind: frames0.last().kind,
                        children: children_models(kids0).push(token_leaf(toks[cursor - 1])),
                    },
                ));
                let cst = ReplayState {
                    stack: frames_model(frames0),
                    cursor: cursor - 1,
                    result: opt_model(result),
                };
                assert(cst.stack.last() == (ReplayFrame {
                    kind: frames0.last().kind,
                    children: children_models(kids0),
                }));
                assert(cst.stack.drop_last() == frames_model(frames0.drop_last()));
                assert(replay_attach(cst, token_leaf(toks[cursor - 1])).stack == frames_model(
                    stack@,
                ));
                assert(replay_trivia(cst, toks) == replay_trivia(
                    replay_take_token(cst, toks),
                    toks,
                ));
                assert(replay_take_token(cst, toks) == (ReplayState {
                    stack: frames_model(stack@),
                    cursor: cursor as int,
                    result: cst.result,
                }));
            }
        }
        proof {
            assert(replay(ev, toks, idx as int) == (ReplayState {
                stack: frames_model(stack@),
                cursor: cursor as int,
                result: opt_model(result),
            }));
        }
    }
    proof {
        assert(ev.take(n as int) =~= ev);
        assert(result is Some) by {
            if result is None {
                assert(ops_upto(ev, n as int).len() < ops.len() || n == 0);
            }
        }
        assert(err_list(ev).take(errors@.len() as int) =~= err_list(ev));
        crate::parser::event::lemma_err_list_wf(ev);
    }
    let root = result.unwrap();
    proof {
        assert(tokens_leaves(toks).take(n_tok as int) =~= tokens_leaves(toks));
        assert(replay_result(ev, toks) == Some(node_model(root)));
    }
    (root, errors)
}

proof fn lemma_tok_nonneg(ops: Seq<Op>)
    ensures
        tok_count(ops) >= 0,
    decreases ops.len(),
{
    if ops.len() > 0 {
        lemma_tok_nonneg(ops.drop_last());
    }
}


/// The leaves a token sequence becomes carry exactly its texts.
pub proof fn lemma_tokens_leaves_text(ts: Seq<TokenModel>)
    ensures
        crate::tree::leaves_text(tokens_leaves(ts)) == crate::lexer::tokens_text(ts),
    decreases ts.len(),
{
    if ts.len() == 0 {
        assert(tokens_leaves(ts) =~= Seq::<LeafModel>::empty());
        assert(crate::tree::leaves_text(Seq::<LeafModel>::empty()) =~= Seq::<char>::empty());
        assert(crate::lexer::tokens_text(ts) =~= Seq::<char>::empty());
    } else {
        let rest = ts.skip(1);
        lemma_tokens_leaves_text(rest);
        assert(tokens_leaves(ts)[0] == leaf_of(ts[0]));
        assert(tokens_leaves(ts).subrange(1, ts.len() as int) =~= tokens_leaves(rest));
        assert(crate::tree::leaves_text(tokens_leaves(ts)) == tokens_leaves(ts)[0].text
            + crate::tree::leaves_text(tokens_leaves(ts).subrange(1, ts.len() as int)));
        assert(crate::lexer::tokens_text(ts) == ts[0].text + crate::lexer::tokens_text(rest));
        assert(crate::tree::leaves_text(tokens_leaves(ts)) =~= crate::lexer::tokens_text(ts));
    }
}

} // verus!
