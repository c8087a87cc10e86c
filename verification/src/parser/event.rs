use crate::parser::parse_error::ParseError;
use crate::syntax::SyntaxKind;
use vstd::prelude::*;

verus! {

broadcast use vstd::seq::group_seq_axioms;

/// One entry of the parser's append-only log. `StartNode` begins a node; a
/// set `forward_parent` says that this node is wrapped inside the node whose
/// start lies that many entries later in the log. `Placeholder` is a slot
/// reserved by a marker and overwritten when the marker completes; none may
/// remain when the log is handed to the sink.
pub enum Event {
    StartNode { kind: SyntaxKind, forward_parent: Option<usize> },
    AddToken,
    FinishNode,
    Placeholder,
    Error(ParseError),
}

/// What the sink does with one resolved log entry: open a node, attach the
/// next token, or close the innermost node.
pub ghost enum Op {
    Open(SyntaxKind),
    Tok,
    Close,
}

// ---------------------------------------------------------------------------
// The meaning of an event list: resolving forward parents turns the list
// into a flat sequence of open/token/close operations.
// ---------------------------------------------------------------------------

/// The forward parent distance of an entry, if it is a start with one.
pub open spec fn fp_of(e: Event) -> Option<usize> {
    match e {
        Event::StartNode { forward_parent, .. } => forward_parent,
        _ => None,
    }
}

/// The kind of a start entry.
pub open spec fn kind_of(e: Event) -> SyntaxKind
    recommends
        e is StartNode,
{
    match e {
        Event::StartNode { kind, .. } => kind,
        _ => SyntaxKind::Error,
    }
}

/// The index a forward parent points at.
pub open spec fn fp_target(events: Seq<Event>, i: int) -> Option<int> {
    match fp_of(events[i]) {
        Some(d) => Some(i + d as int),
        None => None,
    }
}

/// Every forward parent points strictly ahead, lands inside the list, and
/// lands on a start or on a still-open placeholder.
pub open spec fn fp_ok(events: Seq<Event>, i: int) -> bool {
    match fp_of(events[i]) {
        Some(d) => 0 < d && i + d < events.len() && (events[i + d] is StartNode || events[i
            + d] is Placeholder),
        None => true,
    }
}

pub open spec fn fp_wf(events: Seq<Event>) -> bool {
    forall|i: int| 0 <= i < events.len() ==> #[trigger] fp_ok(events, i)
}

/// Whether some forward parent points at `j`.
pub open spec fn is_target(events: Seq<Event>, j: int) -> bool {
    exists|i: int| 0 <= i < events.len() && #[trigger] fp_target(events, i) == Some(j)
}

/// No two forward parents point at the same entry.
pub open spec fn targets_distinct(events: Seq<Event>) -> bool {
    forall|i1: int, i2: int|
        #![trigger fp_target(events, i1), fp_target(events, i2)]
        (0 <= i1 < events.len() && 0 <= i2 < events.len() && i1 != i2 && fp_target(events, i1)
            is Some) ==> fp_target(events, i1) != fp_target(events, i2)
}

/// The kinds collected by following forward parents from `i`: the entry's
/// own kind first, the outermost wrapper last. A chain ends at an entry with
/// no forward parent, or at a placeholder.
pub open spec fn chain(events: Seq<Event>, i: int) -> Seq<SyntaxKind>
    decreases events.len() - i,
{
    if 0 <= i < events.len() && events[i] is StartNode {
        match fp_of(events[i]) {
            Some(d) => if 0 < d && i + d < events.len() {
                seq![kind_of(events[i])] + chain(events, i + d)
            } else {
                seq![kind_of(events[i])]
            },
            None => seq![kind_of(events[i])],
        }
    } else {
        Seq::empty()
    }
}

/// Whether `j` lies on the chain that starts at `o`.
pub open spec fn on_chain(events: Seq<Event>, o: int, j: int) -> bool
    decreases events.len() - o,
{
    o == j || (0 <= o < events.len() && events[o] is StartNode && match fp_of(events[o]) {
        Some(d) => 0 < d && o + d < events.len() && on_chain(events, o + d, j),
        None => false,
    })
}

/// The operations one entry stands for. An entry that a forward parent
/// points at was already handled when its chain's first member was reached,
/// so it contributes nothing of its own.
pub open spec fn op_at(events: Seq<Event>, i: int) -> Seq<Op> {
    if is_target(events, i) {
        Seq::empty()
    } else {
        match events[i] {
            Event::StartNode { .. } => chain(events, i).map_values(|k: SyntaxKind| Op::Open(k)),
            Event::AddToken => seq![Op::Tok],
            Event::FinishNode => seq![Op::Close],
            _ => Seq::empty(),
        }
    }
}

/// The operations of the first `k` entries, in order.
pub open spec fn ops_upto(events: Seq<Event>, k: int) -> Seq<Op>
    decreases k,
{
    if k <= 0 {
        Seq::empty()
    } else {
        ops_upto(events, k - 1) + op_at(events, k - 1)
    }
}

/// The operations of the whole list.
pub open spec fn ops_of(events: Seq<Event>) -> Seq<Op> {
    ops_upto(events, events.len() as int)
}

/// The recorded diagnostics, in order.
pub open spec fn err_list(events: Seq<Event>) -> Seq<ParseError>
    decreases events.len(),
{
    if events.len() == 0 {
        Seq::empty()
    } else {
        err_list(events.drop_last()) + (match events.last() {
            Event::Error(e) => seq![e],
            _ => Seq::<ParseError>::empty(),
        })
    }
}

// ---------------------------------------------------------------------------
// Counting and balance over operation sequences.
// ---------------------------------------------------------------------------

pub open spec fn op_delta(op: Op) -> int {
    match op {
        Op::Open(_) => 1,
        Op::Close => -1,
        Op::Tok => 0,
    }
}

/// Opens minus closes.
pub open spec fn bal(ops: Seq<Op>) -> int
    decreases ops.len(),
{
    if ops.len() == 0 {
        0
    } else {
        bal(ops.drop_last()) + op_delta(ops.last())
    }
}

pub open spec fn tok_count(ops: Seq<Op>) -> int
    decreases ops.len(),
{
    if ops.len() == 0 {
        0
    } else {
        tok_count(ops.drop_last()) + (if ops.last() is Tok {
            1int
        } else {
            0
        })
    }
}

pub open spec fn open_count(ops: Seq<Op>) -> int
    decreases ops.len(),
{
    if ops.len() == 0 {
        0
    } else {
        open_count(ops.drop_last()) + (if ops.last() is Open {
            1int
        } else {
            0
        })
    }
}

/// A forest: a balanced sequence that never closes more than it has opened.
pub open spec fn is_forest(ops: Seq<Op>) -> bool {
    bal(ops) == 0 && forall|k: int| 0 <= k <= ops.len() ==> bal(#[trigger] ops.take(k)) >= 0
}

/// A single tree: balanced, non-empty, and the node opened first closes
/// only at the very end.
pub open spec fn is_tree_ops(ops: Seq<Op>) -> bool {
    &&& ops.len() >= 1
    &&& bal(ops) == 0
    &&& forall|k: int| 0 < k < ops.len() ==> bal(#[trigger] ops.take(k)) >= 1
}

/// Balance and the counts split over concatenation.
pub proof fn lemma_counts_concat(a: Seq<Op>, b: Seq<Op>)
    ensures
        bal(a + b) == bal(a) + bal(b),
        tok_count(a + b) == tok_count(a) + tok_count(b),
        open_count(a + b) == open_count(a) + open_count(b),
    decreases b.len(),
{
    if b.len() == 0 {
        assert(a + b =~= a);
    } else {
        lemma_counts_concat(a, b.drop_last());
        assert((a + b).drop_last() =~= a + b.drop_last());
        assert((a + b).last() == b.last());
    }
}

/// A forest followed by a forest is a forest.
pub proof fn lemma_forest_concat(a: Seq<Op>, b: Seq<Op>)
    requires
        is_forest(a),
        is_forest(b),
    ensures
        is_forest(a + b),
{
    lemma_counts_concat(a, b);
    assert forall|k: int| 0 <= k <= (a + b).len() implies bal(#[trigger] (a + b).take(k)) >= 0 by {
        if k <= a.len() {
            assert((a + b).take(k) =~= a.take(k));
        } else {
            assert((a + b).take(k) =~= a + b.take(k - a.len()));
            lemma_counts_concat(a, b.take(k - a.len()));
        }
    }
}

/// A single tree is in particular a forest.
pub proof fn lemma_tree_is_forest(t: Seq<Op>)
    requires
        is_tree_ops(t),
    ensures
        is_forest(t),
{
    assert forall|k: int| 0 <= k <= t.len() implies bal(#[trigger] t.take(k)) >= 0 by {
        if k == 0 {
            assert(t.take(0) =~= Seq::<Op>::empty());
        } else if k == t.len() {
            assert(t.take(k) =~= t);
        }
    }
}

/// The empty sequence is a forest.
pub proof fn lemma_empty_forest()
    ensures
        is_forest(Seq::<Op>::empty()),
{
    assert forall|k: int| 0 <= k <= 0 implies bal(#[trigger] Seq::<Op>::empty().take(k)) >= 0 by {
        assert(Seq::<Op>::empty().take(k) =~= Seq::<Op>::empty());
    }
}

/// A lone token is a forest.
pub proof fn lemma_tok_forest()
    ensures
        is_forest(seq![Op::Tok]),
{
    let s = seq![Op::Tok];
    assert(bal(s.drop_last()) == 0) by {
        assert(s.drop_last() =~= Seq::<Op>::empty());
    }
    assert forall|k: int| 0 <= k <= 1 implies bal(#[trigger] s.take(k)) >= 0 by {
        if k == 0 {
            assert(s.take(k) =~= Seq::<Op>::empty());
        } else {
            assert(s.take(k) =~= s);
        }
    }
}

/// Wrapping: inserting an open inside a tree, after a prefix that is still
/// all open, and closing at the very end, gives a tree again. This is the
/// shape a forward parent produces: the new node opens where the wrapped
/// node's chain opens and closes after everything that followed.
pub proof fn lemma_wrap(t: Seq<Op>, r: Seq<Op>, p: int, k: SyntaxKind)
    requires
        is_tree_ops(t),
        is_forest(r),
        1 <= p,
        bal(t.take(p)) >= 1,
        p <= t.len(),
    ensures
        is_tree_ops(t.take(p) + seq![Op::Open(k)] + t.skip(p) + r + seq![Op::Close]),
{
    let w = t.take(p) + seq![Op::Open(k)] + t.skip(p) + r + seq![Op::Close];
    assert(t.take(p) + t.skip(p) =~= t);
    lemma_counts_concat(t.take(p), t.skip(p));
    lemma_counts_concat(t.take(p), seq![Op::Open(k)]);
    assert(bal(seq![Op::Open(k)]) == 1) by {
        let s = seq![Op::Open(k)];
        assert(s.len() == 1);
        assert(s.last() == Op::Open(k));
        assert(s.drop_last() =~= Seq::<Op>::empty());
        assert(bal(Seq::<Op>::empty()) == 0);
    }
    assert(bal(seq![Op::Close]) == -1) by {
        let s = seq![Op::Close];
        assert(s.len() == 1);
        assert(s.last() == Op::Close);
        assert(s.drop_last() =~= Seq::<Op>::empty());
        assert(bal(Seq::<Op>::empty()) == 0);
    }
    // total balance
    lemma_counts_concat(t.take(p) + seq![Op::Open(k)], t.skip(p));
    lemma_counts_concat(t.take(p) + seq![Op::Open(k)] + t.skip(p), r);
    lemma_counts_concat(t.take(p) + seq![Op::Open(k)] + t.skip(p) + r, seq![Op::Close]);
    assert(bal(w) == 0);
    assert(w.len() >= 1);
    assert forall|j: int| 0 < j < w.len() implies bal(#[trigger] w.take(j)) >= 1 by {
        if j <= p {
            assert(w.take(j) =~= t.take(j));
            if j < t.len() {
            } else {
                assert(t.take(j) =~= t);
            }
            if j == t.len() {
                // then p == t.len() too, and bal(t.take(p)) >= 1 but bal(t) == 0
                assert(bal(t.take(p)) >= 1);
                assert(t.take(p) =~= t);
                assert(false);
            }
        } else if j == p + 1 {
            assert(w.take(j) =~= t.take(p) + seq![Op::Open(k)]);
        } else if j <= p + 1 + (t.len() - p) {
            let q = j - 1;
            assert(w.take(j) =~= t.take(p) + seq![Op::Open(k)] + t.skip(p).take(q - p));
            assert(t.take(q) =~= t.take(p) + t.skip(p).take(q - p));
            lemma_counts_concat(t.take(p), t.skip(p).take(q - p));
            lemma_counts_concat(t.take(p) + seq![Op::Open(k)], t.skip(p).take(q - p));
            if q < t.len() {
                assert(bal(t.take(q)) >= 1);
            } else {
                assert(t.take(q) =~= t);
            }
        } else if j <= p + 1 + (t.len() - p) + r.len() {
            let q = j - 1 - t.len();
            assert(w.take(j) =~= t.take(p) + seq![Op::Open(k)] + t.skip(p) + r.take(q));
            lemma_counts_concat(t.take(p) + seq![Op::Open(k)], t.skip(p));
            lemma_counts_concat(t.take(p) + seq![Op::Open(k)] + t.skip(p), r.take(q));
            assert(bal(r.take(q)) >= 0);
        } else {
            assert(j == w.len());
            assert(false);
        }
    }
}

/// A chain's operations are all opens, so their balance is their number.
pub proof fn lemma_bal_all_opens(ks: Seq<SyntaxKind>)
    ensures
        bal(ks.map_values(|k: SyntaxKind| Op::Open(k))) == ks.len(),
        tok_count(ks.map_values(|k: SyntaxKind| Op::Open(k))) == 0,
        open_count(ks.map_values(|k: SyntaxKind| Op::Open(k))) == ks.len(),
    decreases ks.len(),
{
    let m = ks.map_values(|k: SyntaxKind| Op::Open(k));
    if ks.len() == 0 {
        assert(m =~= Seq::<Op>::empty());
    } else {
        lemma_bal_all_opens(ks.drop_last());
        assert(m.drop_last() =~= ks.drop_last().map_values(|k: SyntaxKind| Op::Open(k)));
        assert(m.last() == Op::Open(ks.last()));
    }
}

// ---------------------------------------------------------------------------
// How the parser's mutations of the log change its meaning. Each mutation
// the parser makes — appending an entry, completing a placeholder, setting a
// forward parent — has a lemma here describing the resolved operations of
// the new list in terms of the old.
// ---------------------------------------------------------------------------

/// The operations of a plain (non-start) entry.
pub open spec fn op_plain(e: Event) -> Seq<Op> {
    match e {
        Event::AddToken => seq![Op::Tok],
        Event::FinishNode => seq![Op::Close],
        _ => Seq::empty(),
    }
}

/// Every forward parent in the first `k` entries stays inside the first `k`
/// entries.
pub open spec fn closed_upto(events: Seq<Event>, k: int) -> bool {
    forall|i: int|
        0 <= i < k ==> match #[trigger] fp_target(events, i) {
            Some(t) => t < k,
            None => true,
        }
}

/// Every forward parent points strictly ahead.
pub open spec fn fps_forward(events: Seq<Event>) -> bool {
    forall|i: int|
        0 <= i < events.len() ==> match #[trigger] fp_target(events, i) {
            Some(t) => t > i,
            None => true,
        }
}

pub proof fn lemma_fp_wf_forward(events: Seq<Event>)
    requires
        fp_wf(events),
    ensures
        fps_forward(events),
        closed_upto(events, events.len() as int),
{
    assert forall|i: int| 0 <= i < events.len() implies match #[trigger] fp_target(events, i) {
        Some(t) => t > i,
        None => true,
    } by {
        assert(fp_ok(events, i));
    }
    assert forall|i: int| 0 <= i < events.len() implies match #[trigger] fp_target(events, i) {
        Some(t) => t < events.len(),
        None => true,
    } by {
        assert(fp_ok(events, i));
    }
}

/// Chains that start below a closed boundary only read entries below it.
pub proof fn lemma_chain_frame(e1: Seq<Event>, e2: Seq<Event>, k: int, j: int)
    requires
        0 <= j < k,
        k <= e1.len(),
        k <= e2.len(),
        forall|i: int| 0 <= i < k ==> e1[i] == e2[i],
        closed_upto(e1, k),
    ensures
        chain(e1, j) == chain(e2, j),
    decreases k - j,
{
    assert(e1[j] == e2[j]);
    if e1[j] is StartNode {
        match fp_of(e1[j]) {
            Some(d) => {
                assert(fp_target(e1, j) == Some(j + d as int));
                assert(j + d < k);
                if 0 < d {
                    lemma_chain_frame(e1, e2, k, j + d as int);
                }
            },
            None => {},
        }
    }
}

/// The same, for chain membership.
pub proof fn lemma_on_chain_frame(e1: Seq<Event>, e2: Seq<Event>, k: int, o: int, j: int)
    requires
        0 <= o < k,
        0 <= j < k,
        k <= e1.len(),
        k <= e2.len(),
        forall|i: int| 0 <= i < k ==> e1[i] == e2[i],
        closed_upto(e1, k),
    ensures
        on_chain(e1, o, j) == on_chain(e2, o, j),
    decreases k - o,
{
    assert(e1[o] == e2[o]);
    if o != j && e1[o] is StartNode {
        match fp_of(e1[o]) {
            Some(d) => {
                assert(fp_target(e1, o) == Some(o + d as int));
                assert(o + d < k);
                if 0 < d {
                    lemma_on_chain_frame(e1, e2, k, o + d as int, j);
                }
            },
            None => {},
        }
    }
}

/// Below a closed boundary, two lists that agree entry for entry resolve to
/// the same operations.
pub proof fn lemma_ops_frame(e1: Seq<Event>, e2: Seq<Event>, k: int)
    requires
        0 <= k <= e1.len(),
        k <= e2.len(),
        forall|i: int| 0 <= i < k ==> e1[i] == e2[i],
        closed_upto(e1, k),
        fps_forward(e1),
        fps_forward(e2),
    ensures
        forall|j: int| 0 <= j < k ==> is_target(e1, j) == is_target(e2, j),
        forall|j: int| 0 <= j < k ==> op_at(e1, j) == op_at(e2, j),
        forall|m: int| 0 <= m <= k ==> ops_upto(e1, m) == ops_upto(e2, m),
{
    assert forall|j: int| 0 <= j < k implies is_target(e1, j) == is_target(e2, j) by {
        if is_target(e1, j) {
            let i = choose|i: int|
                0 <= i < e1.len() && #[trigger] fp_target(e1, i) == Some(j as int);
            assert(i < k);
            assert(fp_target(e2, i) == Some(j as int));
        }
        if is_target(e2, j) {
            let i = choose|i: int|
                0 <= i < e2.len() && #[trigger] fp_target(e2, i) == Some(j as int);
            assert(i < k);
            assert(fp_target(e1, i) == Some(j as int));
        }
    }
    assert forall|j: int| 0 <= j < k implies op_at(e1, j) == op_at(e2, j) by {
        lemma_chain_frame(e1, e2, k, j);
    }
    assert forall|m: int| 0 <= m <= k implies ops_upto(e1, m) == ops_upto(e2, m) by {
        lemma_ops_upto_pointwise(e1, e2, m);
    }
}

/// If the entries below `m` resolve alike, so do the operation prefixes.
pub proof fn lemma_ops_upto_pointwise(e1: Seq<Event>, e2: Seq<Event>, m: int)
    requires
        forall|j: int| 0 <= j < m ==> op_at(e1, j) == op_at(e2, j),
    ensures
        ops_upto(e1, m) == ops_upto(e2, m),
    decreases m,
{
    if m > 0 {
        lemma_ops_upto_pointwise(e1, e2, m - 1);
    }
}

/// A shorter operation prefix is a prefix of a longer one.
pub proof fn lemma_ops_upto_grows(events: Seq<Event>, m1: int, m2: int)
    requires
        0 <= m1 <= m2,
    ensures
        ops_upto(events, m2).take(ops_upto(events, m1).len() as int) == ops_upto(events, m1),
        ops_upto(events, m1).len() <= ops_upto(events, m2).len(),
    decreases m2 - m1,
{
    if m1 < m2 {
        lemma_ops_upto_grows(events, m1, m2 - 1);
        assert(ops_upto(events, m2) == ops_upto(events, m2 - 1) + op_at(events, m2 - 1));
        assert(ops_upto(events, m2).take(ops_upto(events, m1).len() as int) =~= ops_upto(
            events,
            m2 - 1,
        ).take(ops_upto(events, m1).len() as int));
    } else {
        assert(ops_upto(events, m2).take(ops_upto(events, m1).len() as int) =~= ops_upto(
            events,
            m1,
        ));
    }
}

/// Appending one entry to the log leaves the drop-last list's errors alone.
pub proof fn lemma_err_push(events: Seq<Event>, e: Event)
    ensures
        err_list(events.push(e)) == err_list(events) + (match e {
            Event::Error(pe) => seq![pe],
            _ => Seq::<ParseError>::empty(),
        }),
{
    assert(events.push(e).drop_last() =~= events);
    assert(events.push(e).last() == e);
}

/// Overwriting a non-error entry with a non-error entry keeps the errors.
pub proof fn lemma_err_update(events: Seq<Event>, pos: int, v: Event)
    requires
        0 <= pos < events.len(),
        !(events[pos] is Error),
        !(v is Error),
    ensures
        err_list(events.update(pos, v)) == err_list(events),
    decreases events.len(),
{
    let e2 = events.update(pos, v);
    if pos == events.len() - 1 {
        assert(e2.drop_last() =~= events.drop_last());
        assert(e2.last() == v);
        assert(events.last() == events[pos]);
    } else {
        assert(e2.drop_last() =~= events.drop_last().update(pos, v));
        assert(e2.last() == events.last());
        lemma_err_update(events.drop_last(), pos, v);
    }
}

/// Appending one entry: the new list means the old operations followed by
/// the new entry's own.
pub proof fn lemma_ops_push(events: Seq<Event>, e: Event)
    requires
        fp_wf(events),
        targets_distinct(events),
        !(e is StartNode),
    ensures
        fp_wf(events.push(e)),
        targets_distinct(events.push(e)),
        fps_forward(events.push(e)),
        ops_of(events.push(e)) == ops_of(events) + op_plain(e),
        forall|j: int|
            0 <= j < events.len() ==> is_target(events.push(e), j) == is_target(events, j),
        !is_target(events.push(e), events.len() as int),
        forall|j: int| 0 <= j < events.len() ==> chain(events.push(e), j) == chain(events, j),
        forall|o: int, j: int|
            0 <= o < events.len() && 0 <= j < events.len() ==> #[trigger] on_chain(
                events.push(e),
                o,
                j,
            ) == on_chain(events, o, j),
{
    let e2 = events.push(e);
    let n = events.len() as int;
    lemma_fp_wf_forward(events);
    assert(fp_of(e) is None);
    assert forall|i: int| 0 <= i < e2.len() implies #[trigger] fp_ok(e2, i) by {
        if i < n {
            assert(fp_ok(events, i));
            assert(e2[i] == events[i]);
        }
    }
    lemma_fp_wf_forward(e2);
    assert forall|i1: int, i2: int|
        #![trigger fp_target(e2, i1), fp_target(e2, i2)]
        (0 <= i1 < e2.len() && 0 <= i2 < e2.len() && i1 != i2 && fp_target(e2, i1)
            is Some) implies fp_target(e2, i1) != fp_target(e2, i2) by {
        if i1 < n && i2 < n {
            assert(fp_target(events, i1) == fp_target(e2, i1));
            assert(fp_target(events, i2) == fp_target(e2, i2));
        }
    }
    lemma_ops_frame(events, e2, n);
    assert(ops_of(e2) == ops_upto(e2, n) + op_at(e2, n));
    assert(!is_target(e2, n)) by {
        if is_target(e2, n) {
            let i = choose|i: int| 0 <= i < e2.len() && #[trigger] fp_target(e2, i) == Some(n);
            assert(e2[n] == e);
            if i < n {
                assert(fp_ok(events, i));
                assert(fp_target(events, i) == fp_target(e2, i));
                assert(false);
            } else {
                assert(fp_target(e2, n) is None);
                assert(false);
            }
        }
    }
    assert(op_at(e2, n) == op_plain(e));
    assert forall|j: int| 0 <= j < events.len() implies chain(e2, j) == chain(events, j) by {
        lemma_chain_frame(events, e2, n, j);
    }
    assert forall|o: int, j: int|
        0 <= o < events.len() && 0 <= j < events.len() implies #[trigger] on_chain(e2, o, j)
        == on_chain(events, o, j) by {
        lemma_on_chain_frame(events, e2, n, o, j);
    }
}


/// Chain membership is transitive.
pub proof fn lemma_on_chain_trans(events: Seq<Event>, o: int, m: int, j: int)
    requires
        on_chain(events, o, m),
        on_chain(events, m, j),
    ensures
        on_chain(events, o, j),
    decreases events.len() - o,
{
    if o != m {
        match fp_of(events[o]) {
            Some(d) => {
                lemma_on_chain_trans(events, o + d as int, m, j);
            },
            None => {},
        }
    }
}

/// A chain that reaches `j` from elsewhere passes through a forward parent
/// that points straight at `j`.
pub proof fn lemma_on_chain_source(events: Seq<Event>, o: int, j: int)
    requires
        on_chain(events, o, j),
        o != j,
    ensures
        exists|i: int|
            0 <= i < events.len() && on_chain(events, o, i) && #[trigger] fp_target(events, i)
                == Some(j),
        is_target(events, j),
    decreases events.len() - o,
{
    match fp_of(events[o]) {
        Some(d) => {
            let t = o + d as int;
            if t == j {
                assert(on_chain(events, o, o));
                assert(fp_target(events, o) == Some(j));
            } else {
                lemma_on_chain_source(events, t, j);
                let i = choose|i: int|
                    0 <= i < events.len() && on_chain(events, t, i) && #[trigger] fp_target(
                        events,
                        i,
                    ) == Some(j);
                assert(on_chain(events, o, t)) by {
                    assert(on_chain(events, t, t));
                }
                lemma_on_chain_trans(events, o, t, i);
            }
        },
        None => {
            assert(false);
        },
    }
}

/// Two chain starting points that are not themselves pointed at, and whose
/// chains reach the same entry, are the same entry: chains never meet.
pub proof fn lemma_origin_unique(events: Seq<Event>, o1: int, o2: int, j: int)
    requires
        fp_wf(events),
        targets_distinct(events),
        !is_target(events, o1),
        !is_target(events, o2),
        on_chain(events, o1, j),
        on_chain(events, o2, j),
        0 <= j,
    ensures
        o1 == o2,
    decreases j,
{
    if o1 == j {
        if o2 != j {
            lemma_on_chain_source(events, o2, j);
            assert(false);
        }
    } else if o2 == j {
        lemma_on_chain_source(events, o1, j);
        assert(false);
    } else {
        lemma_on_chain_source(events, o1, j);
        lemma_on_chain_source(events, o2, j);
        let i1 = choose|i: int|
            0 <= i < events.len() && on_chain(events, o1, i) && #[trigger] fp_target(events, i)
                == Some(j);
        let i2 = choose|i: int|
            0 <= i < events.len() && on_chain(events, o2, i) && #[trigger] fp_target(events, i)
                == Some(j);
        assert(i1 == i2);
        assert(fp_ok(events, i1));
        assert(i1 < j);
        lemma_origin_unique(events, o1, o2, i1);
    }
}

/// Setting a forward parent that points at a fresh placeholder at the very
/// end of the log changes no resolved operation: the placeholder contributes
/// nothing yet.
pub proof fn lemma_ops_set_fp(events: Seq<Event>, src: int, k0: SyntaxKind, d: usize)
    requires
        fp_wf(events),
        targets_distinct(events),
        0 <= src < events.len(),
        events[src] == (Event::StartNode { kind: k0, forward_parent: None }),
        d > 0,
        src + d == events.len() - 1,
        events[events.len() - 1] is Placeholder,
        !is_target(events, events.len() - 1),
    ensures
        ({
            let e2 = events.update(src, Event::StartNode { kind: k0, forward_parent: Some(d) });
            &&& fp_wf(e2)
            &&& targets_distinct(e2)
            &&& ops_of(e2) == ops_of(events)
            &&& forall|j: int|
                0 <= j < events.len() && j != events.len() - 1 ==> is_target(e2, j) == is_target(
                    events,
                    j,
                )
            &&& is_target(e2, events.len() - 1)
            &&& forall|j: int| 0 <= j < events.len() ==> op_at(e2, j) == op_at(events, j)
            &&& err_list(e2) == err_list(events)
            &&& forall|o: int|
                0 <= o < events.len() && #[trigger] on_chain(events, o, src) ==> on_chain(
                    e2,
                    o,
                    events.len() - 1,
                )
            &&& forall|o: int, j: int|
                0 <= o < events.len() && 0 <= j < events.len() && #[trigger] on_chain(events, o, j)
                    ==> on_chain(e2, o, j)
        }),
{
    let e2 = events.update(src, Event::StartNode { kind: k0, forward_parent: Some(d) });
    let n = events.len() as int;
    let tgt = n - 1;
    lemma_fp_wf_forward(events);
    assert forall|i: int| 0 <= i < e2.len() implies #[trigger] fp_ok(e2, i) by {
        if i != src {
            assert(e2[i] == events[i]);
            assert(fp_ok(events, i));
            match fp_of(events[i]) {
                Some(dd) => {
                    assert(e2[i + dd] == events[i + dd] || i + dd == src);
                    if i + dd == src {
                        assert(e2[src] is StartNode);
                    }
                },
                None => {},
            }
        } else {
            assert(e2[tgt] == events[tgt]);
        }
    }
    assert forall|i1: int, i2: int|
        #![trigger fp_target(e2, i1), fp_target(e2, i2)]
        (0 <= i1 < e2.len() && 0 <= i2 < e2.len() && i1 != i2 && fp_target(e2, i1)
            is Some) implies fp_target(e2, i1) != fp_target(e2, i2) by {
        if i1 != src && i2 != src {
            assert(fp_target(e2, i1) == fp_target(events, i1));
            assert(fp_target(e2, i2) == fp_target(events, i2));
        } else if i1 == src {
            assert(fp_target(e2, i1) == Some(tgt));
            if fp_target(e2, i2) == Some(tgt) {
                assert(fp_target(events, i2) == Some(tgt));
                assert(is_target(events, tgt));
            }
        } else {
            assert(fp_target(e2, i2) == Some(tgt));
            if fp_target(e2, i1) == Some(tgt) {
                assert(fp_target(events, i1) == Some(tgt));
                assert(is_target(events, tgt));
            }
        }
    }
    // chains are unchanged
    assert forall|j: int| 0 <= j < n implies chain(e2, j) == chain(events, j) by {
        lemma_chain_set_fp(events, e2, src, tgt, d, j);
    }
    // targets: only the placeholder becomes one
    assert forall|j: int|
        0 <= j < n && j != tgt implies is_target(e2, j) == is_target(events, j) by {
        if is_target(events, j) {
            let i = choose|i: int|
                0 <= i < events.len() && #[trigger] fp_target(events, i) == Some(j);
            if i == src {
                assert(fp_target(events, src) is None);
                assert(false);
            }
            assert(fp_target(e2, i) == Some(j));
        }
        if is_target(e2, j) {
            let i = choose|i: int| 0 <= i < e2.len() && #[trigger] fp_target(e2, i) == Some(j);
            if i == src {
                assert(fp_target(e2, src) == Some(tgt));
                assert(false);
            }
            assert(fp_target(events, i) == Some(j));
        }
    }
    assert(is_target(e2, tgt)) by {
        assert(fp_target(e2, src) == Some(tgt));
    }
    // operations are unchanged entry for entry
    assert forall|j: int| 0 <= j < n implies op_at(e2, j) == op_at(events, j) by {
        if j == tgt {
            assert(events[tgt] is Placeholder);
            assert(e2[tgt] is Placeholder);
        }
    }
    lemma_ops_upto_pointwise(events, e2, n);
    // errors
    lemma_err_update(events, src, Event::StartNode { kind: k0, forward_parent: Some(d) });
    // chain witnesses extend to the new placeholder
    assert forall|o: int|
        0 <= o < events.len() && #[trigger] on_chain(events, o, src) implies on_chain(
        e2,
        o,
        tgt,
    ) by {
        lemma_on_chain_set_fp_extend(events, e2, src, tgt, d, o);
    }
    assert forall|o: int, j: int|
        0 <= o < events.len() && 0 <= j < events.len() && #[trigger] on_chain(
            events,
            o,
            j,
        ) implies on_chain(e2, o, j) by {
        lemma_on_chain_set_fp_keep(events, e2, src, tgt, d, o, j);
    }
}

proof fn lemma_chain_set_fp(
    events: Seq<Event>,
    e2: Seq<Event>,
    src: int,
    tgt: int,
    d: usize,
    j: int,
)
    requires
        0 <= src < events.len(),
        tgt == events.len() - 1,
        src < tgt,
        d > 0,
        src + d == tgt,
        events[src] is StartNode,
        fp_of(events[src]) is None,
        events[tgt] is Placeholder,
        e2 == events.update(
            src,
            Event::StartNode { kind: kind_of(events[src]), forward_parent: Some(d) },
        ),
        0 <= j < events.len(),
    ensures
        chain(e2, j) == chain(events, j),
    decreases events.len() - j,
{
    if j == src {
        assert(e2[tgt] is Placeholder);
        assert(chain(e2, tgt) =~= Seq::<SyntaxKind>::empty());
        assert(chain(e2, src) =~= seq![kind_of(events[src])] + chain(e2, tgt));
        assert(chain(e2, src) =~= chain(events, src));
    } else if events[j] is StartNode {
        assert(e2[j] == events[j]);
        match fp_of(events[j]) {
            Some(dd) => {
                if 0 < dd && j + dd < events.len() {
                    lemma_chain_set_fp(events, e2, src, tgt, d, j + dd as int);
                }
            },
            None => {},
        }
    } else {
        assert(e2[j] == events[j]);
    }
}

proof fn lemma_on_chain_set_fp_extend(
    events: Seq<Event>,
    e2: Seq<Event>,
    src: int,
    tgt: int,
    d: usize,
    o: int,
)
    requires
        0 <= src < events.len(),
        tgt == events.len() - 1,
        src < tgt,
        d > 0,
        src + d == tgt,
        events[src] is StartNode,
        fp_of(events[src]) is None,
        events[tgt] is Placeholder,
        e2 == events.update(
            src,
            Event::StartNode { kind: kind_of(events[src]), forward_parent: Some(d) },
        ),
        0 <= o < events.len(),
        on_chain(events, o, src),
    ensures
        on_chain(e2, o, tgt),
    decreases events.len() - o,
{
    if o == src {
        assert(on_chain(e2, tgt, tgt));
        assert(fp_of(e2[src]) == Some(d));
        assert(on_chain(e2, src, tgt));
    } else {
        match fp_of(events[o]) {
            Some(dd) => {
                assert(e2[o] == events[o]);
                lemma_on_chain_set_fp_extend(events, e2, src, tgt, d, o + dd as int);
            },
            None => {
                assert(false);
            },
        }
    }
}

proof fn lemma_on_chain_set_fp_keep(
    events: Seq<Event>,
    e2: Seq<Event>,
    src: int,
    tgt: int,
    d: usize,
    o: int,
    j: int,
)
    requires
        0 <= src < events.len(),
        tgt == events.len() - 1,
        src < tgt,
        d > 0,
        src + d == tgt,
        events[src] is StartNode,
        fp_of(events[src]) is None,
        events[tgt] is Placeholder,
        e2 == events.update(
            src,
            Event::StartNode { kind: kind_of(events[src]), forward_parent: Some(d) },
        ),
        0 <= o < events.len(),
        0 <= j < events.len(),
        on_chain(events, o, j),
    ensures
        on_chain(e2, o, j),
    decreases events.len() - o,
{
    if o == j {
    } else if o == src {
        assert(fp_of(events[src]) is None);
        assert(false);
    } else {
        match fp_of(events[o]) {
            Some(dd) => {
                assert(e2[o] == events[o]);
                lemma_on_chain_set_fp_keep(events, e2, src, tgt, d, o + dd as int, j);
            },
            None => {
                assert(false);
            },
        }
    }
}


/// A sequence with one element slipped in at position `p`.
pub open spec fn insert_op(ops: Seq<Op>, p: int, x: Op) -> Seq<Op>
    recommends
        0 <= p <= ops.len(),
{
    ops.take(p) + seq![x] + ops.skip(p)
}

/// A chain only runs forward.
pub proof fn lemma_on_chain_le(events: Seq<Event>, o: int, j: int)
    requires
        on_chain(events, o, j),
    ensures
        o <= j,
    decreases events.len() - o,
{
    if o != j {
        match fp_of(events[o]) {
            Some(dd) => {
                lemma_on_chain_le(events, o + dd as int, j);
            },
            None => {},
        }
    }
}

/// A chain that never visits `pos` reads the same entries after `pos` is
/// overwritten.
proof fn lemma_chain_update_no_visit(events: Seq<Event>, e2: Seq<Event>, pos: int, v: Event, j: int)
    requires
        0 <= pos < events.len(),
        e2 == events.update(pos, v),
        0 <= j < events.len(),
        !on_chain(events, j, pos),
    ensures
        chain(e2, j) == chain(events, j),
    decreases events.len() - j,
{
    assert(j != pos);
    assert(e2[j] == events[j]);
    if events[j] is StartNode {
        match fp_of(events[j]) {
            Some(dd) => {
                if 0 < dd && j + dd < events.len() {
                    assert(!on_chain(events, j + dd as int, pos));
                    lemma_chain_update_no_visit(events, e2, pos, v, j + dd as int);
                }
            },
            None => {},
        }
    }
}

/// Filling the placeholder a chain ends at appends the new kind to the
/// chain: the new node is the outermost wrapper.
proof fn lemma_chain_update_extend(
    events: Seq<Event>,
    e2: Seq<Event>,
    o: int,
    pos: int,
    kind: SyntaxKind,
)
    requires
        0 <= o <= pos < events.len(),
        events[pos] is Placeholder,
        e2 == events.update(pos, Event::StartNode { kind, forward_parent: None }),
        on_chain(events, o, pos),
    ensures
        chain(e2, o) == chain(events, o).push(kind),
        on_chain(e2, o, pos),
    decreases events.len() - o,
{
    if o == pos {
        assert(chain(events, pos) =~= Seq::<SyntaxKind>::empty());
        assert(e2[pos] == (Event::StartNode { kind, forward_parent: None }));
        assert(chain(e2, pos) =~= seq![kind]);
        assert(chain(events, pos).push(kind) =~= seq![kind]);
    } else {
        assert(events[o] is StartNode);
        assert(o != pos);
        assert(e2[o] == events[o]);
        match fp_of(events[o]) {
            Some(dd) => {
                lemma_on_chain_le(events, o + dd as int, pos);
                lemma_chain_update_extend(events, e2, o + dd as int, pos, kind);
                assert(chain(e2, o) =~= seq![kind_of(events[o])] + chain(e2, o + dd as int));
                assert(chain(events, o).push(kind) =~= seq![kind_of(events[o])] + chain(
                    events,
                    o + dd as int,
                ).push(kind));
            },
            None => {
                assert(false);
            },
        }
    }
}

/// Mapping a longer chain gives one more open at the end.
proof fn lemma_map_open_push(ks: Seq<SyntaxKind>, k: SyntaxKind)
    ensures
        ks.push(k).map_values(|x: SyntaxKind| Op::Open(x)) == ks.map_values(
            |x: SyntaxKind| Op::Open(x),
        ).push(Op::Open(k)),
{
    assert(ks.push(k).map_values(|x: SyntaxKind| Op::Open(x)) =~= ks.map_values(
        |x: SyntaxKind| Op::Open(x),
    ).push(Op::Open(k)));
}

/// If exactly one entry's operations grew by one trailing element, the
/// whole resolution grew by that element, slipped in right after that
/// entry's block.
proof fn lemma_ops_stitch(e1: Seq<Event>, e2: Seq<Event>, o: int, x: Op, m: int)
    requires
        e1.len() == e2.len(),
        0 <= o < e1.len(),
        forall|i: int| 0 <= i < e1.len() && i != o ==> op_at(e2, i) == op_at(e1, i),
        op_at(e2, o) == op_at(e1, o).push(x),
        o < m <= e1.len(),
    ensures
        ops_upto(e2, m) == insert_op(ops_upto(e1, m), ops_upto(e1, o + 1).len() as int, x),
    decreases m,
{
    let p = ops_upto(e1, o + 1).len() as int;
    if m == o + 1 {
        lemma_ops_upto_pointwise(e1, e2, o);
        assert(ops_upto(e2, m) == ops_upto(e1, o) + op_at(e1, o).push(x));
        lemma_ops_upto_grows(e1, o, o + 1);
        assert(ops_upto(e1, m).take(p) =~= ops_upto(e1, m));
        assert(ops_upto(e1, m).skip(p) =~= Seq::<Op>::empty());
        assert(insert_op(ops_upto(e1, m), p, x) =~= ops_upto(e1, o) + op_at(e1, o) + seq![x]);
        assert(ops_upto(e2, m) =~= insert_op(ops_upto(e1, m), p, x));
    } else {
        lemma_ops_stitch(e1, e2, o, x, m - 1);
        assert(op_at(e2, m - 1) == op_at(e1, m - 1));
        lemma_ops_upto_grows(e1, o + 1, m - 1);
        assert(p <= ops_upto(e1, m - 1).len());
        assert(ops_upto(e2, m) == insert_op(ops_upto(e1, m - 1), p, x) + op_at(e1, m - 1));
        assert(ops_upto(e1, m) == ops_upto(e1, m - 1) + op_at(e1, m - 1));
        assert(ops_upto(e1, m).take(p) =~= ops_upto(e1, m - 1).take(p));
        assert(ops_upto(e1, m).skip(p) =~= ops_upto(e1, m - 1).skip(p) + op_at(e1, m - 1));
        assert(insert_op(ops_upto(e1, m), p, x) =~= insert_op(ops_upto(e1, m - 1), p, x) + op_at(
            e1,
            m - 1,
        ));
    }
}

/// Completing a marker, first half: overwriting the placeholder at `pos`
/// with a start of kind `kind` slips one open into the resolution, at the
/// end of the block of the chain `pos` hangs from. `o` is the start of that
/// chain; for a marker that nothing points at, `o == pos` and the chain is
/// trivial.
pub proof fn lemma_ops_complete(events: Seq<Event>, o: int, pos: int, kind: SyntaxKind)
    requires
        fp_wf(events),
        targets_distinct(events),
        0 <= o <= pos < events.len(),
        events[pos] is Placeholder,
        !is_target(events, o),
        on_chain(events, o, pos),
    ensures
        ({
            let e2 = events.update(pos, Event::StartNode { kind, forward_parent: None });
            &&& fp_wf(e2)
            &&& targets_distinct(e2)
            &&& forall|j: int| 0 <= j < events.len() ==> is_target(e2, j) == is_target(events, j)
            &&& ops_of(e2) == insert_op(ops_of(events), ops_upto(events, o + 1).len() as int, Op::Open(kind))
            &&& ops_upto(e2, o + 1).len() == ops_upto(events, o + 1).len() + 1
            &&& err_list(e2) == err_list(events)
            &&& on_chain(e2, o, pos)
            &&& !is_target(e2, o)
            &&& e2[pos] == (Event::StartNode { kind, forward_parent: None })
            &&& forall|m: int| 0 <= m <= o ==> ops_upto(e2, m) == ops_upto(events, m)
        }),
{
    let e2 = events.update(pos, Event::StartNode { kind, forward_parent: None });
    let n = events.len() as int;
    lemma_fp_wf_forward(events);
    // the forward-parent graph is unchanged
    assert forall|i: int| 0 <= i < n implies fp_target(e2, i) == fp_target(events, i) by {
        if i == pos {
            assert(fp_of(events[i]) is None);
            assert(fp_of(e2[i]) is None);
        } else {
            assert(e2[i] == events[i]);
        }
    }
    assert forall|i: int| 0 <= i < e2.len() implies #[trigger] fp_ok(e2, i) by {
        assert(fp_ok(events, i));
        match fp_of(e2[i]) {
            Some(dd) => {
                assert(fp_of(events[i]) == Some(dd));
                if i + dd == pos {
                    assert(e2[pos] is StartNode);
                } else {
                    assert(e2[i + dd] == events[i + dd]);
                }
            },
            None => {},
        }
    }
    assert forall|i1: int, i2: int|
        #![trigger fp_target(e2, i1), fp_target(e2, i2)]
        (0 <= i1 < e2.len() && 0 <= i2 < e2.len() && i1 != i2 && fp_target(e2, i1)
            is Some) implies fp_target(e2, i1) != fp_target(e2, i2) by {}
    assert forall|j: int| 0 <= j < n implies is_target(e2, j) == is_target(events, j) by {
        if is_target(events, j) {
            let i = choose|i: int|
                0 <= i < events.len() && #[trigger] fp_target(events, i) == Some(j);
            assert(fp_target(e2, i) == Some(j));
        }
        if is_target(e2, j) {
            let i = choose|i: int| 0 <= i < e2.len() && #[trigger] fp_target(e2, i) == Some(j);
            assert(fp_target(events, i) == Some(j));
        }
    }
    // all entries but `o` resolve as before
    assert forall|i: int| 0 <= i < n && i != o implies op_at(e2, i) == op_at(events, i) by {
        if !is_target(events, i) {
            if events[i] is StartNode {
                if on_chain(events, i, pos) {
                    lemma_origin_unique(events, i, o, pos);
                    assert(false);
                }
                lemma_chain_update_no_visit(events, e2, pos, Event::StartNode { kind, forward_parent: None }, i);
            } else if i == pos {
                assert(o == pos || is_target(events, pos)) by {
                    if o != pos {
                        lemma_on_chain_source(events, o, pos);
                    }
                }
                assert(is_target(events, pos));
                assert(false);
            }
        }
    }
    // the chain from `o` gains the new kind as outermost wrapper
    lemma_chain_update_extend(events, e2, o, pos, kind);
    assert(op_at(e2, o) == op_at(events, o).push(Op::Open(kind))) by {
        if events[o] is StartNode {
            lemma_map_open_push(chain(events, o), kind);
        } else {
            assert(o == pos);
            assert(chain(events, pos) =~= Seq::<SyntaxKind>::empty());
            assert(op_at(events, o) =~= Seq::<Op>::empty());
            assert(chain(e2, o) =~= seq![kind]);
            assert(op_at(e2, o) =~= seq![Op::Open(kind)]);
            assert(op_at(events, o).push(Op::Open(kind)) =~= seq![Op::Open(kind)]);
        }
    }
    lemma_ops_stitch(events, e2, o, Op::Open(kind), n);
    assert(ops_upto(e2, o + 1).len() == ops_upto(events, o + 1).len() + 1) by {
        lemma_ops_upto_pointwise(events, e2, o);
    }
    lemma_err_update(events, pos, Event::StartNode { kind, forward_parent: None });
    assert forall|m: int| 0 <= m <= o implies ops_upto(e2, m) == ops_upto(events, m) by {
        lemma_ops_upto_pointwise(events, e2, m);
    }
}


/// Every recorded diagnostic in the log is well formed.
pub open spec fn errs_wf(events: Seq<Event>) -> bool {
    forall|i: int|
        0 <= i < events.len() ==> match #[trigger] events[i] {
            Event::Error(pe) => pe.wf(),
            _ => true,
        }
}

/// Sound entries give a sound error list.
pub proof fn lemma_err_list_wf(events: Seq<Event>)
    requires
        errs_wf(events),
    ensures
        forall|j: int| 0 <= j < err_list(events).len() ==> (#[trigger] err_list(events)[j]).wf(),
    decreases events.len(),
{
    if events.len() > 0 {
        assert(errs_wf(events.drop_last())) by {
            assert(forall|i: int| 0 <= i < events.len() - 1 ==> events.drop_last()[i] == events[i]);
        }
        lemma_err_list_wf(events.drop_last());
        assert(events.last() == events[events.len() - 1]);
        let pre = err_list(events.drop_last());
        let tail = match events.last() {
            Event::Error(pe) => seq![pe],
            _ => Seq::<ParseError>::empty(),
        };
        assert(err_list(events) == pre + tail);
        assert forall|j: int| 0 <= j < err_list(events).len() implies (#[trigger] err_list(
            events,
        )[j]).wf() by {
            if j < pre.len() {
                assert(err_list(events)[j] == pre[j]);
            } else {
                assert(err_list(events)[j] == tail[j - pre.len()]);
                match events.last() {
                    Event::Error(pe) => {
                        assert(pe.wf());
                    },
                    _ => {},
                }
            }
        }
    }
}


/// A chain that ends strictly below `pos` is untouched by an update at
/// `pos`.
pub proof fn lemma_on_chain_update_keep_public(
    events: Seq<Event>,
    e2: Seq<Event>,
    pos: int,
    v: Event,
    o: int,
    j: int,
)
    requires
        0 <= pos < events.len(),
        e2 == events.update(pos, v),
        0 <= o <= j < pos,
        on_chain(events, o, j),
    ensures
        on_chain(e2, o, j),
    decreases events.len() - o,
{
    if o != j {
        match fp_of(events[o]) {
            Some(dd) => {
                assert(e2[o] == events[o]);
                lemma_on_chain_le(events, o + dd as int, j);
                lemma_on_chain_update_keep_public(events, e2, pos, v, o + dd as int, j);
            },
            None => {
                assert(false);
            },
        }
    }
}


/// The operations of one node holding one token form a tree.
pub proof fn lemma_leaf_tree_ops_general(k: SyntaxKind)
    ensures
        is_tree_ops(seq![Op::Open(k), Op::Tok, Op::Close]),
{
    let s = seq![Op::Open(k), Op::Tok, Op::Close];
    assert(s.len() == 3);
    assert(bal(s) == 0) by {
        let s2 = seq![Op::Open(k), Op::Tok];
        let s1 = seq![Op::Open(k)];
        assert(s.drop_last() =~= s2);
        assert(s2.drop_last() =~= s1);
        assert(s1.drop_last() =~= Seq::<Op>::empty());
        assert(s.last() == Op::Close);
        assert(s2.last() == Op::Tok);
        assert(s1.last() == Op::Open(k));
        assert(bal(Seq::<Op>::empty()) == 0);
        assert(bal(s1) == 1);
        assert(bal(s2) == 1);
    }
    assert(seq![Op::Open(k)].last() == Op::Open(k));
    assert forall|j: int| 0 < j < 3 implies bal(#[trigger] s.take(j)) >= 1 by {
        let s2 = seq![Op::Open(k), Op::Tok];
        let s1 = seq![Op::Open(k)];
        assert(s1.drop_last() =~= Seq::<Op>::empty());
        assert(s1.last() == Op::Open(k));
        assert(bal(Seq::<Op>::empty()) == 0);
        assert(bal(s1) == 1);
        if j == 1 {
            assert(s.take(1) =~= s1);
        } else {
            assert(s.take(2) =~= s2);
            assert(s2.drop_last() =~= s1);
            assert(s2.last() == Op::Tok);
        }
    }
}


/// An open, a forest inside, and a close make a single tree.
pub proof fn lemma_wrap_forest(k: SyntaxKind, f: Seq<Op>)
    requires
        is_forest(f),
    ensures
        is_tree_ops(seq![Op::Open(k)] + f + seq![Op::Close]),
{
    let w = seq![Op::Open(k)] + f + seq![Op::Close];
    assert(bal(seq![Op::Open(k)]) == 1) by {
        assert(seq![Op::Open(k)].len() == 1);
        assert(seq![Op::Open(k)].drop_last() =~= Seq::<Op>::empty());
        assert(seq![Op::Open(k)].last() == Op::Open(k));
        assert(bal(Seq::<Op>::empty()) == 0);
    }
    assert(bal(seq![Op::Close]) == -1) by {
        assert(seq![Op::Close].len() == 1);
        assert(seq![Op::Close].drop_last() =~= Seq::<Op>::empty());
        assert(seq![Op::Close].last() == Op::Close);
        assert(bal(Seq::<Op>::empty()) == 0);
    }
    lemma_counts_concat(seq![Op::Open(k)], f);
    lemma_counts_concat(seq![Op::Open(k)] + f, seq![Op::Close]);
    assert forall|j: int| 0 < j < w.len() implies bal(#[trigger] w.take(j)) >= 1 by {
        if j == 1 {
            assert(w.take(1) =~= seq![Op::Open(k)]);
        } else if j <= 1 + f.len() {
            assert(w.take(j) =~= seq![Op::Open(k)] + f.take(j - 1));
            lemma_counts_concat(seq![Op::Open(k)], f.take(j - 1));
            assert(bal(f.take(j - 1)) >= 0);
        } else {
            assert(false);
        }
    }
}

/// Chaining chunk prefixes: if `b` extends `a` and `c` extends `b`, then
/// `c` extends `a`, and the new part splits into the two chunks.
pub proof fn lemma_prefix_trans<T>(a: Seq<T>, b: Seq<T>, c: Seq<T>)
    requires
        a.len() <= b.len(),
        b.take(a.len() as int) == a,
        b.len() <= c.len(),
        c.take(b.len() as int) == b,
    ensures
        c.take(a.len() as int) == a,
        c.skip(a.len() as int) == b.skip(a.len() as int) + c.skip(b.len() as int),
{
    assert(c.take(a.len() as int) =~= b.take(a.len() as int));
    assert(c.skip(a.len() as int) =~= b.skip(a.len() as int) + c.skip(b.len() as int));
}


/// Everything the parser knows about a prefix boundary it never writes
/// below: the resolved operations, targets and chains below the boundary do
/// not move.
pub proof fn lemma_boundary_frame(e1: Seq<Event>, e2: Seq<Event>, k: int)
    requires
        0 <= k <= e1.len(),
        k <= e2.len(),
        forall|i: int| 0 <= i < k ==> e1[i] == e2[i],
        closed_upto(e1, k),
        fps_forward(e1),
        fps_forward(e2),
    ensures
        forall|m: int| 0 <= m <= k ==> ops_upto(e1, m) == ops_upto(e2, m),
        forall|j: int| 0 <= j < k ==> is_target(e1, j) == is_target(e2, j),
        forall|j: int| 0 <= j < k ==> chain(e1, j) == chain(e2, j),
        closed_upto(e2, k),
        forall|o: int, j: int|
            0 <= o < k && 0 <= j < k ==> #[trigger] on_chain(e1, o, j) == on_chain(e2, o, j),
{
    lemma_ops_frame(e1, e2, k);
    assert forall|j: int| 0 <= j < k implies chain(e1, j) == chain(e2, j) by {
        lemma_chain_frame(e1, e2, k, j);
    }
    assert forall|o: int, j: int|
        0 <= o < k && 0 <= j < k implies #[trigger] on_chain(e1, o, j) == on_chain(e2, o, j) by {
        lemma_on_chain_frame(e1, e2, k, o, j);
    }
    assert forall|i: int|
        0 <= i < k implies match #[trigger] fp_target(e2, i) {
        Some(t) => t < k,
        None => true,
    } by {
        assert(e1[i] == e2[i]);
        assert(fp_target(e1, i) == fp_target(e2, i));
    }
}


/// The diagnostics of a prefix of the log are a prefix of its diagnostics.
pub proof fn lemma_err_prefix(events: Seq<Event>, i: int)
    requires
        0 <= i <= events.len(),
    ensures
        err_list(events.take(i)).len() <= err_list(events).len(),
        err_list(events).take(err_list(events.take(i)).len() as int) == err_list(events.take(i)),
    decreases events.len() - i,
{
    if i == events.len() {
        assert(events.take(i) =~= events);
        assert(err_list(events).take(err_list(events).len() as int) =~= err_list(events));
    } else {
        lemma_err_prefix(events, i + 1);
        assert(events.take(i + 1).drop_last() =~= events.take(i));
        assert(events.take(i + 1).last() == events[i]);
        assert(err_list(events.take(i + 1)) == err_list(events.take(i)) + (match events[i] {
            Event::Error(e) => seq![e],
            _ => Seq::<ParseError>::empty(),
        }));
        assert(err_list(events).take(err_list(events.take(i)).len() as int) =~= err_list(
            events.take(i),
        ));
    }
}


/// Each entry closes at most one node, so the closes (opens minus balance)
/// of a prefix never outnumber its entries.
pub proof fn lemma_close_bound(events: Seq<Event>, k: int)
    requires
        0 <= k <= events.len(),
    ensures
        open_count(ops_upto(events, k)) - bal(ops_upto(events, k)) <= k,
    decreases k,
{
    if k > 0 {
        lemma_close_bound(events, k - 1);
        lemma_counts_concat(ops_upto(events, k - 1), op_at(events, k - 1));
        let blk = op_at(events, k - 1);
        assert(open_count(Seq::<Op>::empty()) == 0 && bal(Seq::<Op>::empty()) == 0);
        assert(open_count(blk) - bal(blk) <= 1) by {
            if is_target(events, k - 1) {
                assert(blk =~= Seq::<Op>::empty());
            } else {
                match events[k - 1] {
                    Event::StartNode { .. } => {
                        assert(blk == chain(events, k - 1).map_values(
                            |kk: SyntaxKind| Op::Open(kk),
                        ));
                        lemma_bal_all_opens(chain(events, k - 1));
                    },
                    Event::AddToken => {
                        assert(blk =~= seq![Op::Tok]);
                        assert(blk.len() == 1);
                        assert(blk.drop_last() =~= Seq::<Op>::empty());
                        assert(blk.last() == Op::Tok);
                    },
                    Event::FinishNode => {
                        assert(blk =~= seq![Op::Close]);
                        assert(blk.len() == 1);
                        assert(blk.drop_last() =~= Seq::<Op>::empty());
                        assert(blk.last() == Op::Close);
                    },
                    _ => {
                        assert(blk =~= Seq::<Op>::empty());
                    },
                }
            }
        }
    }
}

} // verus!
