use crate::syntax::SyntaxKind;
use vstd::prelude::*;
use vstd::string::*;

verus! {

broadcast use vstd::seq::group_seq_axioms, vstd::std_specs::vec::group_vec_axioms;

/// A leaf of the tree: one token, carrying its exact source text.
#[derive(Debug)]
pub struct SyntaxToken {
    pub kind: SyntaxKind,
    pub text: String,
}

/// An interior node: a kind and the children, in source order.
#[derive(Debug)]
pub struct SyntaxNode {
    pub kind: SyntaxKind,
    pub children: Vec<SyntaxElement>,
}

/// One child of a node. The tree is immutable once built: the offsets of its
/// leaves are implied by their order, since the leaves cover the source text
/// from left to right with no gaps.
#[derive(Debug)]
pub enum SyntaxElement {
    Node(SyntaxNode),
    Token(SyntaxToken),
}

/// The mathematical shadow of a leaf.
pub ghost struct LeafModel {
    pub kind: SyntaxKind,
    pub text: Seq<char>,
}

// ---------------------------------------------------------------------------
// Leaves, text and node count of a tree.
// ---------------------------------------------------------------------------

/// The leaves under one element, in source order.
pub open spec fn element_leaves(e: SyntaxElement) -> Seq<LeafModel>
    decreases e,
{
    match e {
        SyntaxElement::Token(t) => seq![LeafModel { kind: t.kind, text: t.text@ }],
        SyntaxElement::Node(n) => children_leaves(n.children@),
    }
}

/// The leaves under a sequence of elements, in source order.
pub open spec fn children_leaves(es: Seq<SyntaxElement>) -> Seq<LeafModel>
    decreases es,
{
    if es.len() == 0 {
        Seq::empty()
    } else {
        element_leaves(es[0]) + children_leaves(es.subrange(1, es.len() as int))
    }
}

/// The leaves of a whole tree, in source order.
pub open spec fn node_leaves(n: SyntaxNode) -> Seq<LeafModel> {
    children_leaves(n.children@)
}

/// The source text under one element: its leaf texts, concatenated.
pub open spec fn element_text(e: SyntaxElement) -> Seq<char>
    decreases e,
{
    match e {
        SyntaxElement::Token(t) => t.text@,
        SyntaxElement::Node(n) => children_text(n.children@),
    }
}

pub open spec fn children_text(es: Seq<SyntaxElement>) -> Seq<char>
    decreases es,
{
    if es.len() == 0 {
        Seq::empty()
    } else {
        element_text(es[0]) + children_text(es.subrange(1, es.len() as int))
    }
}

/// The source text a whole tree stands for.
pub open spec fn node_text(n: SyntaxNode) -> Seq<char> {
    children_text(n.children@)
}

/// How many nodes (the element itself included, leaves not counted) an
/// element holds.
pub open spec fn element_node_count(e: SyntaxElement) -> nat
    decreases e,
{
    match e {
        SyntaxElement::Token(_) => 0,
        SyntaxElement::Node(n) => 1 + children_node_count(n.children@),
    }
}

pub open spec fn children_node_count(es: Seq<SyntaxElement>) -> nat
    decreases es,
{
    if es.len() == 0 {
        0
    } else {
        element_node_count(es[0]) + children_node_count(es.subrange(1, es.len() as int))
    }
}

/// Splitting off the last element splits its text off the end.
pub proof fn lemma_children_text_snoc(es: Seq<SyntaxElement>, e: SyntaxElement)
    ensures
        children_text(es.push(e)) == children_text(es) + element_text(e),
    decreases es.len(),
{
    let s = es.push(e);
    if es.len() == 0 {
        assert(s[0] == e);
        assert(s.subrange(1, 1) =~= Seq::<SyntaxElement>::empty());
        assert(children_text(Seq::<SyntaxElement>::empty()) == Seq::<char>::empty());
        assert(children_text(s) == element_text(e) + Seq::<char>::empty());
        assert(children_text(es) == Seq::<char>::empty());
        assert(children_text(s) =~= children_text(es) + element_text(e));
    } else {
        assert(s[0] == es[0]);
        assert(s.subrange(1, s.len() as int) =~= es.subrange(1, es.len() as int).push(e));
        lemma_children_text_snoc(es.subrange(1, es.len() as int), e);
        assert(children_text(s) == element_text(es[0]) + children_text(s.subrange(1, s.len() as int)));
        assert(children_text(s) =~= children_text(es) + element_text(e));
    }
}

pub proof fn lemma_children_leaves_snoc(es: Seq<SyntaxElement>, e: SyntaxElement)
    ensures
        children_leaves(es.push(e)) == children_leaves(es) + element_leaves(e),
    decreases es.len(),
{
    let s = es.push(e);
    if es.len() == 0 {
        assert(s[0] == e);
        assert(s.subrange(1, 1) =~= Seq::<SyntaxElement>::empty());
        assert(children_leaves(Seq::<SyntaxElement>::empty()) == Seq::<LeafModel>::empty());
        assert(children_leaves(s) == element_leaves(e) + Seq::<LeafModel>::empty());
        assert(children_leaves(es) == Seq::<LeafModel>::empty());
        assert(children_leaves(s) =~= children_leaves(es) + element_leaves(e));
    } else {
        assert(s[0] == es[0]);
        assert(s.subrange(1, s.len() as int) =~= es.subrange(1, es.len() as int).push(e));
        lemma_children_leaves_snoc(es.subrange(1, es.len() as int), e);
        assert(children_leaves(s) == element_leaves(es[0]) + children_leaves(s.subrange(1, s.len() as int)));
        assert(children_leaves(s) =~= children_leaves(es) + element_leaves(e));
    }
}

pub proof fn lemma_children_node_count_snoc(es: Seq<SyntaxElement>, e: SyntaxElement)
    ensures
        children_node_count(es.push(e)) == children_node_count(es) + element_node_count(e),
    decreases es.len(),
{
    let s = es.push(e);
    if es.len() == 0 {
        assert(s[0] == e);
        assert(s.subrange(1, 1) =~= Seq::<SyntaxElement>::empty());
        assert(children_node_count(Seq::<SyntaxElement>::empty()) == 0);
        assert(children_node_count(s) == element_node_count(e) + 0);
        assert(children_node_count(es) == 0);
    } else {
        assert(s[0] == es[0]);
        assert(s.subrange(1, s.len() as int) =~= es.subrange(1, es.len() as int).push(e));
        lemma_children_node_count_snoc(es.subrange(1, es.len() as int), e);
        assert(children_node_count(s) == element_node_count(es[0]) + children_node_count(s.subrange(1, s.len() as int)));
    }
}

/// A prefix never has more text than the whole.
pub proof fn lemma_children_text_prefix(es: Seq<SyntaxElement>, i: int)
    requires
        0 <= i <= es.len(),
    ensures
        children_text(es.take(i)).len() + element_text_from(es, i).len() == children_text(es).len(),
        children_text(es.take(i)).len() <= children_text(es).len(),
    decreases es.len() - i,
{
    if i == es.len() {
        assert(es.take(i) =~= es);
        assert(es.subrange(i, es.len() as int) =~= Seq::<SyntaxElement>::empty());
        assert(children_text(Seq::<SyntaxElement>::empty()) == Seq::<char>::empty());
    } else {
        lemma_children_text_prefix(es, i + 1);
        assert(es.take(i + 1) =~= es.take(i).push(es[i]));
        lemma_children_text_snoc(es.take(i), es[i]);
        let sub = es.subrange(i, es.len() as int);
        assert(sub[0] == es[i]);
        assert(sub.subrange(1, sub.len() as int) =~= es.subrange(i + 1, es.len() as int));
        assert(children_text(sub) == element_text(es[i]) + children_text(
            es.subrange(i + 1, es.len() as int),
        ));
    }
}

/// Any one element holds no more nodes than the whole sequence.
pub proof fn lemma_children_node_count_at(es: Seq<SyntaxElement>, i: int)
    requires
        0 <= i < es.len(),
    ensures
        element_node_count(es[i]) <= children_node_count(es),
    decreases i,
{
    if i == 0 {
    } else {
        let rest = es.subrange(1, es.len() as int);
        assert(rest[i - 1] == es[i]);
        lemma_children_node_count_at(rest, i - 1);
    }
}

/// The text of the elements from position `i` on.
pub open spec fn element_text_from(es: Seq<SyntaxElement>, i: int) -> Seq<char>
    recommends
        0 <= i <= es.len(),
{
    children_text(es.subrange(i, es.len() as int))
}

// ---------------------------------------------------------------------------
// The debug rendering: each node as `Kind@start..end`, children indented two
// more spaces beneath it, leaves also showing their text in quotes. Offsets
// count characters. Quotes, backslashes and line breaks inside a leaf's text
// are escaped, so every leaf renders on one line.
// ---------------------------------------------------------------------------

/// The decimal digits of `n`.
pub open spec fn dec_spec(n: nat) -> Seq<char>
    decreases n,
{
    if n < 10 {
        seq![digit_char(n)]
    } else {
        dec_spec(n / 10) + seq![digit_char(n % 10)]
    }
}

pub open spec fn digit_char(d: nat) -> char
    recommends
        d < 10,
{
    if d == 0 {
        '0'
    } else if d == 1 {
        '1'
    } else if d == 2 {
        '2'
    } else if d == 3 {
        '3'
    } else if d == 4 {
        '4'
    } else if d == 5 {
        '5'
    } else if d == 6 {
        '6'
    } else if d == 7 {
        '7'
    } else if d == 8 {
        '8'
    } else {
        '9'
    }
}

/// Two spaces per level.
pub open spec fn indent_spec(depth: nat) -> Seq<char>
    decreases depth,
{
    if depth == 0 {
        Seq::empty()
    } else {
        seq![' ', ' '] + indent_spec((depth - 1) as nat)
    }
}

/// One escaped character of a leaf's text.
pub open spec fn escape_char(c: char) -> Seq<char> {
    if c == '\\' {
        seq!['\\', '\\']
    } else if c == '"' {
        seq!['\\', '"']
    } else if c == '\n' {
        seq!['\\', 'n']
    } else {
        seq![c]
    }
}

pub open spec fn escape_spec(t: Seq<char>) -> Seq<char>
    decreases t.len(),
{
    if t.len() == 0 {
        Seq::empty()
    } else {
        escape_char(t[0]) + escape_spec(t.subrange(1, t.len() as int))
    }
}

/// The rendering of one element placed at `offset`, indented `depth` levels,
/// without a trailing line break; each child stands on a line of its own.
pub open spec fn render_element(e: SyntaxElement, offset: int, depth: nat) -> Seq<char>
    decreases e,
{
    match e {
        SyntaxElement::Token(t) => indent_spec(depth) + SyntaxKind::spec_name(t.kind) + seq!['@']
            + dec_spec(offset as nat) + seq!['.', '.'] + dec_spec((offset + t.text@.len()) as nat)
            + seq![' ', '"'] + escape_spec(t.text@) + seq!['"'],
        SyntaxElement::Node(n) => indent_spec(depth) + SyntaxKind::spec_name(n.kind) + seq!['@']
            + dec_spec(offset as nat) + seq!['.', '.'] + dec_spec(
            (offset + children_text(n.children@).len()) as nat,
        ) + render_children(n.children@, offset, depth + 1),
    }
}

/// The renderings of the elements in order, each on a new line, with the
/// offset running left to right.
pub open spec fn render_children(es: Seq<SyntaxElement>, offset: int, depth: nat) -> Seq<char>
    decreases es,
{
    if es.len() == 0 {
        Seq::empty()
    } else {
        seq!['\n'] + render_element(es[0], offset, depth) + render_children(
            es.subrange(1, es.len() as int),
            offset + element_text(es[0]).len(),
            depth,
        )
    }
}

/// The rendering of a whole tree, its root at offset zero.
pub open spec fn render_root(n: SyntaxNode) -> Seq<char> {
    render_element(SyntaxElement::Node(n), 0, 0)
}

pub proof fn lemma_render_children_snoc(
    es: Seq<SyntaxElement>,
    e: SyntaxElement,
    offset: int,
    depth: nat,
)
    ensures
        render_children(es.push(e), offset, depth) == render_children(es, offset, depth) + (seq![
            '\n',
        ] + render_element(e, offset + children_text(es).len(), depth)),
    decreases es.len(),
{
    let s = es.push(e);
    if es.len() == 0 {
        assert(s[0] == e);
        assert(s.subrange(1, 1) =~= Seq::<SyntaxElement>::empty());
        assert(render_children(Seq::<SyntaxElement>::empty(), offset + element_text(e).len(), depth)
            == Seq::<char>::empty());
        assert(render_children(s, offset, depth) == seq!['\n'] + render_element(e, offset, depth)
            + Seq::<char>::empty());
        assert(children_text(es) == Seq::<char>::empty());
        assert(render_children(es, offset, depth) == Seq::<char>::empty());
        assert(render_children(s, offset, depth) =~= render_children(es, offset, depth) + (seq![
            '\n',
        ] + render_element(e, offset + children_text(es).len(), depth)));
    } else {
        assert(s[0] == es[0]);
        assert(s.subrange(1, s.len() as int) =~= es.subrange(1, es.len() as int).push(e));
        lemma_render_children_snoc(
            es.subrange(1, es.len() as int),
            e,
            offset + element_text(es[0]).len(),
            depth,
        );
        assert(children_text(es) == element_text(es[0]) + children_text(
            es.subrange(1, es.len() as int),
        ));
        assert(render_children(s, offset, depth) == seq!['\n'] + render_element(
            es[0],
            offset,
            depth,
        ) + render_children(
            s.subrange(1, s.len() as int),
            offset + element_text(es[0]).len(),
            depth,
        ));
        assert(render_children(s, offset, depth) =~= render_children(es, offset, depth) + (seq![
            '\n',
        ] + render_element(e, offset + children_text(es).len(), depth)));
    }
}

// ---------------------------------------------------------------------------
// The executable renderer.
// ---------------------------------------------------------------------------

/// Relies on String::push: appends exactly the one character.
#[verifier::external_body]
pub(crate) fn push_char(s: &mut String, c: char)
    ensures
        final (s)@ == old(s)@ + seq![c],
{
    s.push(c);
}

fn push_digit(out: &mut String, d: usize)
    requires
        d < 10,
    ensures
        final (out)@ == old(out)@ + seq![digit_char(d as nat)],
{
    let c: char = if d == 0 {
        '0'
    } else if d == 1 {
        '1'
    } else if d == 2 {
        '2'
    } else if d == 3 {
        '3'
    } else if d == 4 {
        '4'
    } else if d == 5 {
        '5'
    } else if d == 6 {
        '6'
    } else if d == 7 {
        '7'
    } else if d == 8 {
        '8'
    } else {
        '9'
    };
    push_char(out, c);
}

/// Appends the decimal form of `n`.
pub(crate) fn push_dec(out: &mut String, n: usize)
    ensures
        final (out)@ == old(out)@ + dec_spec(n as nat),
    decreases n,
{
    if n < 10 {
        push_digit(out, n);
    } else {
        push_dec(out, n / 10);
        push_digit(out, n % 10);
    }
}

/// Appends `depth` levels of indentation.
fn push_indent(out: &mut String, depth: usize)
    ensures
        final (out)@ == old(out)@ + indent_spec(depth as nat),
{
    let mut i: usize = 0;
    while i < depth
        invariant
            0 <= i <= depth,
            out@ == old(out)@ + indent_spec(i as nat),
        decreases depth - i,
    {
        proof {
            lemma_indent_snoc((i + 1) as nat);
        }
        out.append("  ");
        proof {
            reveal_strlit("  ");
        }
        i = i + 1;
    }
}

proof fn lemma_indent_snoc(depth: nat)
    requires
        depth > 0,
    ensures
        indent_spec(depth) == indent_spec((depth - 1) as nat) + seq![' ', ' '],
    decreases depth,
{
    if depth == 1 {
        assert(indent_spec(1) =~= indent_spec(0) + seq![' ', ' ']);
    } else {
        lemma_indent_snoc((depth - 1) as nat);
        assert(indent_spec(depth) =~= indent_spec((depth - 1) as nat) + seq![' ', ' ']);
    }
}

/// Appends the text with quotes, backslashes and line breaks escaped.
fn push_escaped(out: &mut String, t: &str)
    ensures
        final (out)@ == old(out)@ + escape_spec(t@),
{
    let n = t.unicode_len();
    let mut i: usize = 0;
    proof {
        assert(escape_prefix(t@, 0) =~= Seq::<char>::empty());
    }
    while i < n
        invariant
            0 <= i <= n,
            n == t@.len(),
            out@ == old(out)@ + escape_prefix(t@, i as int),
        decreases n - i,
    {
        let c = t.get_char(i);
        if c == '\\' {
            push_char(out, '\\');
            push_char(out, '\\');
        } else if c == '"' {
            push_char(out, '\\');
            push_char(out, '"');
        } else if c == '\n' {
            push_char(out, '\\');
            push_char(out, 'n');
        } else {
            push_char(out, c);
        }
        proof {
            lemma_escape_prefix_snoc(t@, i as int);
        }
        i = i + 1;
    }
    proof {
        lemma_escape_prefix_all(t@);
    }
}

/// The escaped form of the first `i` characters.
pub open spec fn escape_prefix(t: Seq<char>, i: int) -> Seq<char> {
    escape_spec(t.take(i))
}

proof fn lemma_escape_snoc(t: Seq<char>, c: char)
    ensures
        escape_spec(t.push(c)) == escape_spec(t) + escape_char(c),
    decreases t.len(),
{
    let s = t.push(c);
    if t.len() == 0 {
        assert(s[0] == c);
        assert(s.subrange(1, 1) =~= Seq::<char>::empty());
        assert(escape_spec(Seq::<char>::empty()) == Seq::<char>::empty());
        assert(escape_spec(s) == escape_char(c) + Seq::<char>::empty());
        assert(escape_spec(t) == Seq::<char>::empty());
        assert(escape_spec(s) =~= escape_spec(t) + escape_char(c));
    } else {
        assert(s[0] == t[0]);
        assert(s.subrange(1, s.len() as int) =~= t.subrange(1, t.len() as int).push(c));
        lemma_escape_snoc(t.subrange(1, t.len() as int), c);
        assert(escape_spec(s) == escape_char(t[0]) + escape_spec(s.subrange(1, s.len() as int)));
        assert(escape_spec(s) =~= escape_spec(t) + escape_char(c));
    }
}

proof fn lemma_escape_prefix_snoc(t: Seq<char>, i: int)
    requires
        0 <= i < t.len(),
    ensures
        escape_prefix(t, i + 1) == escape_prefix(t, i) + escape_char(t[i]),
{
    assert(t.take(i + 1) =~= t.take(i).push(t[i]));
    lemma_escape_snoc(t.take(i), t[i]);
}

proof fn lemma_escape_prefix_all(t: Seq<char>)
    ensures
        escape_prefix(t, t.len() as int) == escape_spec(t),
{
    assert(t.take(t.len() as int) =~= t);
}

/// The length in characters of the text under one element, computed
/// bottom-up.
fn element_width(e: &SyntaxElement) -> (w: usize)
    requires
        element_text(*e).len() <= usize::MAX,
    ensures
        w == element_text(*e).len(),
    decreases *e,
{
    match e {
        SyntaxElement::Token(t) => t.text.as_str().unicode_len(),
        SyntaxElement::Node(n) => {
            let mut sum: usize = 0;
            let mut i: usize = 0;
            let k = n.children.len();
            proof {
                assert(n.children@.take(0) =~= Seq::<SyntaxElement>::empty());
            }
            while i < k
                invariant
                    *e == SyntaxElement::Node(*n),
                    0 <= i <= k,
                    k == n.children@.len(),
                    sum == children_text(n.children@.take(i as int)).len(),
                    children_text(n.children@).len() <= usize::MAX,
                decreases k - i,
            {
                proof {
                    lemma_children_text_prefix(n.children@, i + 1);
                    assert(n.children@.take(i + 1) =~= n.children@.take(i as int).push(
                        n.children@[i as int],
                    ));
                    lemma_children_text_snoc(n.children@.take(i as int), n.children@[i as int]);
                }
                proof {
                    assert(*e == SyntaxElement::Node(*n));
                    assert(decreases_to!(*e => (*e)->Node_0));
                    assert((*e)->Node_0 == *n);
                    assert(decreases_to!(*n => n.children));
                    assert(decreases_to!(n.children => n.children@));
                    assert(decreases_to!(n.children@ => n.children@[i as int]));
                }
                let w = element_width(&n.children[i]);
                sum = sum + w;
                i = i + 1;
            }
            proof {
                assert(n.children@.take(k as int) =~= n.children@);
            }
            sum
        },
    }
}

/// Appends the rendering of `e`, placed at `offset`, `depth` levels deep.
#[verifier::rlimit(60)]
fn render_element_exec(e: &SyntaxElement, offset: usize, depth: usize, out: &mut String)
    requires
        offset + element_text(*e).len() <= usize::MAX,
        depth + element_node_count(*e) <= usize::MAX,
    ensures
        final (out)@ == old(out)@ + render_element(*e, offset as int, depth as nat),
    decreases *e,
{
    push_indent(out, depth);
    match e {
        SyntaxElement::Token(t) => {
            out.append(t.kind.name());
            push_char(out, '@');
            push_dec(out, offset);
            push_char(out, '.');
            push_char(out, '.');
            let w = t.text.as_str().unicode_len();
            push_dec(out, offset + w);
            push_char(out, ' ');
            push_char(out, '"');
            push_escaped(out, t.text.as_str());
            push_char(out, '"');
            proof {
                assert(out@ =~= old(out)@ + render_element(*e, offset as int, depth as nat));
            }
        },
        SyntaxElement::Node(n) => {
            out.append(n.kind.name());
            push_char(out, '@');
            push_dec(out, offset);
            push_char(out, '.');
            push_char(out, '.');
            let w = element_width(e);
            push_dec(out, offset + w);
            let ghost header = out@;
            let mut off: usize = offset;
            let mut i: usize = 0;
            let k = n.children.len();
            proof {
                assert(n.children@.take(0) =~= Seq::<SyntaxElement>::empty());
                assert(header + render_children_prefix(n.children@, offset as int, (depth + 1) as nat, 0)
                    =~= header);
            }
            while i < k
                invariant
                    *e == SyntaxElement::Node(*n),
                    0 <= i <= k,
                    k == n.children@.len(),
                    offset + children_text(n.children@).len() <= usize::MAX,
                    depth + 1 + children_node_count(n.children@) <= usize::MAX,
                    off == offset + children_text(n.children@.take(i as int)).len(),
                    out@ == header + render_children_prefix(
                        n.children@,
                        offset as int,
                        (depth + 1) as nat,
                        i as int,
                    ),
                decreases k - i,
            {
                proof {
                    lemma_children_text_prefix(n.children@, i + 1);
                    assert(n.children@.take(i + 1) =~= n.children@.take(i as int).push(
                        n.children@[i as int],
                    ));
                    lemma_children_text_snoc(n.children@.take(i as int), n.children@[i as int]);
                }
                push_char(out, '\n');
                proof {
                    lemma_children_node_count_at(n.children@, i as int);
                    assert(*e == SyntaxElement::Node(*n));
                    assert(decreases_to!(*e => (*e)->Node_0));
                    assert((*e)->Node_0 == *n);
                    assert(decreases_to!(*n => n.children));
                    assert(decreases_to!(n.children => n.children@));
                    assert(decreases_to!(n.children@ => n.children@[i as int]));
                }
                render_element_exec(&n.children[i], off, depth + 1, out);
                proof {
                    lemma_render_children_prefix_snoc(
                        n.children@,
                        offset as int,
                        (depth + 1) as nat,
                        i as int,
                    );
                }
                let w = element_width(&n.children[i]);
                off = off + w;
                i = i + 1;
            }
            proof {
                lemma_render_children_prefix_all(n.children@, offset as int, (depth + 1) as nat);
                assert(out@ =~= old(out)@ + render_element(*e, offset as int, depth as nat));
            }
        },
    }
}

/// The rendering of the first `i` children.
pub open spec fn render_children_prefix(
    es: Seq<SyntaxElement>,
    offset: int,
    depth: nat,
    i: int,
) -> Seq<char> {
    render_children(es.take(i), offset, depth)
}

proof fn lemma_render_children_prefix_snoc(es: Seq<SyntaxElement>, offset: int, depth: nat, i: int)
    requires
        0 <= i < es.len(),
    ensures
        render_children_prefix(es, offset, depth, i + 1) == render_children_prefix(
            es,
            offset,
            depth,
            i,
        ) + (seq!['\n'] + render_element(
            es[i],
            offset + children_text(es.take(i)).len(),
            depth,
        )),
{
    assert(es.take(i + 1) =~= es.take(i).push(es[i]));
    lemma_render_children_snoc(es.take(i), es[i], offset, depth);
}

proof fn lemma_render_children_prefix_all(es: Seq<SyntaxElement>, offset: int, depth: nat)
    ensures
        render_children_prefix(es, offset, depth, es.len() as int) == render_children(
            es,
            offset,
            depth,
        ),
{
    assert(es.take(es.len() as int) =~= es);
}

/// Renders a whole tree, its root at offset zero: the golden textual form,
/// one line per node or leaf.
pub fn render_tree(root: &SyntaxNode) -> (s: String)
    requires
        node_text(*root).len() <= usize::MAX,
        children_node_count(root.children@) < usize::MAX,
    ensures
        s@ == render_root(*root),
{
    let mut out = String::new();
    render_element_ref(root, &mut out);
    out
}

/// Renders the root node. A helper that borrows the node, so the caller
/// keeps the tree.
fn render_element_ref(root: &SyntaxNode, out: &mut String)
    requires
        node_text(*root).len() <= usize::MAX,
        children_node_count(root.children@) < usize::MAX,
    ensures
        final (out)@ == old(out)@ + render_root(*root),
{
    push_indent(out, 0);
    out.append(root.kind.name());
    push_char(out, '@');
    push_dec(out, 0);
    push_char(out, '.');
    push_char(out, '.');
    let mut sum: usize = 0;
    let mut i: usize = 0;
    let k = root.children.len();
    proof {
        assert(root.children@.take(0) =~= Seq::<SyntaxElement>::empty());
    }
    while i < k
        invariant
            0 <= i <= k,
            k == root.children@.len(),
            sum == children_text(root.children@.take(i as int)).len(),
            children_text(root.children@).len() <= usize::MAX,
        decreases k - i,
    {
        proof {
            lemma_children_text_prefix(root.children@, i + 1);
            assert(root.children@.take(i + 1) =~= root.children@.take(i as int).push(
                root.children@[i as int],
            ));
            lemma_children_text_snoc(root.children@.take(i as int), root.children@[i as int]);
        }
        let w = element_width(&root.children[i]);
        sum = sum + w;
        i = i + 1;
    }
    proof {
        assert(root.children@.take(k as int) =~= root.children@);
    }
    push_dec(out, sum);
    let ghost header = out@;
    let mut off: usize = 0;
    let mut j: usize = 0;
    proof {
        assert(root.children@.take(0) =~= Seq::<SyntaxElement>::empty());
        assert(header + render_children_prefix(root.children@, 0, 1, 0) =~= header);
    }
    while j < k
        invariant
            0 <= j <= k,
            k == root.children@.len(),
            children_text(root.children@).len() <= usize::MAX,
            children_node_count(root.children@) < usize::MAX,
            off == children_text(root.children@.take(j as int)).len(),
            out@ == header + render_children_prefix(root.children@, 0, 1, j as int),
        decreases k - j,
    {
        proof {
            lemma_children_text_prefix(root.children@, j + 1);
            assert(root.children@.take(j + 1) =~= root.children@.take(j as int).push(
                root.children@[j as int],
            ));
            lemma_children_text_snoc(root.children@.take(j as int), root.children@[j as int]);
        }
        push_char(out, '\n');
        proof {
            lemma_children_node_count_at(root.children@, j as int);
        }
        render_element_exec(&root.children[j], off, 1, out);
        proof {
            lemma_render_children_prefix_snoc(root.children@, 0, 1, j as int);
        }
        let w = element_width(&root.children[j]);
        off = off + w;
        j = j + 1;
    }
    proof {
        lemma_render_children_prefix_all(root.children@, 0, 1);
        assert(out@ =~= old(out)@ + render_root(*root));
    }
}


/// The texts of a sequence of leaves, concatenated.
pub open spec fn leaves_text(ls: Seq<LeafModel>) -> Seq<char>
    decreases ls.len(),
{
    if ls.len() == 0 {
        Seq::empty()
    } else {
        ls[0].text + leaves_text(ls.subrange(1, ls.len() as int))
    }
}

pub proof fn lemma_leaves_text_concat(a: Seq<LeafModel>, b: Seq<LeafModel>)
    ensures
        leaves_text(a + b) == leaves_text(a) + leaves_text(b),
    decreases a.len(),
{
    if a.len() == 0 {
        assert(a + b =~= b);
        assert(leaves_text(a) =~= Seq::<char>::empty());
        assert(leaves_text(a) + leaves_text(b) =~= leaves_text(b));
    } else {
        assert((a + b)[0] == a[0]);
        assert((a + b).subrange(1, (a + b).len() as int) =~= a.subrange(1, a.len() as int) + b);
        lemma_leaves_text_concat(a.subrange(1, a.len() as int), b);
        assert(leaves_text(a + b) =~= leaves_text(a) + leaves_text(b));
    }
}

/// A tree's text is the concatenation of its leaves' texts.
pub proof fn lemma_element_text_is_leaves(e: SyntaxElement)
    ensures
        element_text(e) == leaves_text(element_leaves(e)),
    decreases e,
{
    match e {
        SyntaxElement::Token(t) => {
            assert(element_leaves(e) =~= seq![LeafModel { kind: t.kind, text: t.text@ }]);
            assert(leaves_text(element_leaves(e)) =~= t.text@) by {
                let ls = element_leaves(e);
                assert(ls.subrange(1, 1) =~= Seq::<LeafModel>::empty());
                assert(leaves_text(Seq::<LeafModel>::empty()) == Seq::<char>::empty());
                assert(leaves_text(ls) == ls[0].text + Seq::<char>::empty());
                assert(ls[0].text + Seq::<char>::empty() =~= t.text@);
            }
        },
        SyntaxElement::Node(n) => {
            lemma_children_text_is_leaves(n.children@);
        },
    }
}

pub proof fn lemma_children_text_is_leaves(es: Seq<SyntaxElement>)
    ensures
        children_text(es) == leaves_text(children_leaves(es)),
    decreases es,
{
    if es.len() == 0 {
        assert(children_text(es) =~= Seq::<char>::empty());
        assert(children_leaves(es) =~= Seq::<LeafModel>::empty());
        assert(leaves_text(Seq::<LeafModel>::empty()) =~= Seq::<char>::empty());
    } else {
        lemma_element_text_is_leaves(es[0]);
        lemma_children_text_is_leaves(es.subrange(1, es.len() as int));
        lemma_leaves_text_concat(
            element_leaves(es[0]),
            children_leaves(es.subrange(1, es.len() as int)),
        );
    }
}


/// A childless count and no leaves leave no children at all.
pub proof fn lemma_children_empty(es: Seq<SyntaxElement>)
    requires
        children_node_count(es) == 0,
        children_leaves(es) == Seq::<LeafModel>::empty(),
    ensures
        es == Seq::<SyntaxElement>::empty(),
{
    if es.len() > 0 {
        match es[0] {
            SyntaxElement::Token(t) => {
                assert(children_leaves(es).len() >= 1) by {
                    assert(element_leaves(es[0]).len() == 1);
                }
            },
            SyntaxElement::Node(n) => {
                assert(element_node_count(es[0]) >= 1);
            },
        }
        assert(false);
    }
    assert(es =~= Seq::<SyntaxElement>::empty());
}


/// The mathematical shadow of a finished tree: the same shape, with ghost
/// sequences for children and text, so that contracts can pin the nesting.
pub ghost enum TreeModel {
    Node { kind: SyntaxKind, children: Seq<TreeModel> },
    Leaf { kind: SyntaxKind, text: Seq<char> },
}

/// The shadow of one element.
pub open spec fn element_model(e: SyntaxElement) -> TreeModel
    decreases e,
{
    match e {
        SyntaxElement::Token(t) => TreeModel::Leaf { kind: t.kind, text: t.text@ },
        SyntaxElement::Node(n) => TreeModel::Node {
            kind: n.kind,
            children: children_models(n.children@),
        },
    }
}

/// The shadows of the children, in order.
pub open spec fn children_models(es: Seq<SyntaxElement>) -> Seq<TreeModel>
    decreases es,
{
    if es.len() == 0 {
        Seq::empty()
    } else {
        seq![element_model(es[0])] + children_models(es.subrange(1, es.len() as int))
    }
}

/// The shadow of a whole tree.
pub open spec fn node_model(n: SyntaxNode) -> TreeModel {
    TreeModel::Node { kind: n.kind, children: children_models(n.children@) }
}

pub proof fn lemma_children_models_snoc(es: Seq<SyntaxElement>, e: SyntaxElement)
    ensures
        children_models(es.push(e)) == children_models(es).push(element_model(e)),
    decreases es.len(),
{
    let s = es.push(e);
    if es.len() == 0 {
        assert(s[0] == e);
        assert(s.subrange(1, 1) =~= Seq::<SyntaxElement>::empty());
        assert(children_models(Seq::<SyntaxElement>::empty()) == Seq::<TreeModel>::empty());
        assert(children_models(s) =~= children_models(es).push(element_model(e)));
    } else {
        assert(s[0] == es[0]);
        assert(s.subrange(1, s.len() as int) =~= es.subrange(1, es.len() as int).push(e));
        lemma_children_models_snoc(es.subrange(1, es.len() as int), e);
        assert(children_models(s) =~= children_models(es).push(element_model(e)));
    }
}

} // verus!
