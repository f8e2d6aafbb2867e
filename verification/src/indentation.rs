//! The width of the indentation does not matter: only which line is deeper
//! than which decides the tree.

use vstd::prelude::*;
use crate::grammar::{
    lemma_span_is, spec_elements, spec_get_depth, spec_node_line, without_empty_words, ParseError,
};
use crate::lexer::{is_char, not_char, not_space};
use crate::parser::{line_built, spec_children, spec_node};
use crate::registry::PendingView;
use crate::render::spaces;
use crate::tree::{child_pushed, TreeView};

verus! {

/// A node line: the number of spaces before the marker, and the content
/// segment between the marker and the line feed.
pub struct Line {
    pub indent: nat,
    pub content: Seq<char>,
}

/// The text of one node line.
pub open spec fn line_text(l: Line) -> Seq<char> {
    spaces(l.indent) + seq!['-'] + l.content + seq!['\n']
}

/// The text of a document: its node lines one after the other.
pub open spec fn layout(d: Seq<Line>) -> Seq<char>
    decreases d.len(),
{
    if d.len() == 0 {
        Seq::empty()
    } else {
        line_text(d[0]) + layout(d.skip(1))
    }
}

/// The content segment holds no line feed, and the indentation can be counted.
pub open spec fn line_ok(l: Line) -> bool {
    &&& l.indent <= usize::MAX
    &&& forall|i: int| 0 <= i < l.content.len() ==> l.content[i] != '\n'
}

/// Two documents with the same content line by line, in which the same
/// lines are deeper than the same lines.
pub open spec fn same_nesting(a: Seq<Line>, b: Seq<Line>) -> bool {
    &&& a.len() == b.len()
    &&& forall|i: int|
        0 <= i < a.len() ==> line_ok(#[trigger] a[i]) && line_ok(b[i]) && a[i].content == b[i].content
    &&& forall|i: int, j: int|
        0 <= i < a.len() && 0 <= j < a.len() ==> ((#[trigger] a[i]).indent < (#[trigger] a[j]).indent
            <==> b[i].indent < b[j].indent)
}

/// A depth stands to the lines of one document as another depth stands to
/// the lines of the other.
pub open spec fn same_level(a: Seq<Line>, b: Seq<Line>, depth_a: usize, depth_b: usize) -> bool {
    forall|j: int| 0 <= j < a.len() ==> (depth_a < (#[trigger] a[j]).indent <==> depth_b < b[j].indent)
}

/// The document with every indentation `factor` times as wide.
pub open spec fn widened(d: Seq<Line>, factor: nat) -> Seq<Line> {
    d.map_values(|l: Line| Line { indent: l.indent * factor, content: l.content })
}

/// Each line takes at least two characters, and only the empty document
/// has an empty text.
proof fn lemma_layout_len(d: Seq<Line>, k: int)
    requires
        0 <= k <= d.len(),
    ensures
        layout(d.skip(k)).len() + 2 * k <= layout(d).len(),
        d.len() == 0 <==> layout(d).len() == 0,
    decreases k,
{
    if k > 0 {
        lemma_layout_len(d.skip(1), k - 1);
        assert(d.skip(1).skip(k - 1) =~= d.skip(k));
    } else {
        assert(d.skip(0) =~= d);
    }
}

/// Two documents of the same nesting stay so when the same number of
/// lines is taken off both.
proof fn lemma_same_nesting_skip(a: Seq<Line>, b: Seq<Line>, k: int)
    requires
        same_nesting(a, b),
        0 <= k <= a.len(),
    ensures
        same_nesting(a.skip(k), b.skip(k)),
{
    let x = a.skip(k);
    let y = b.skip(k);
    assert forall|i: int| 0 <= i < x.len() implies line_ok(#[trigger] x[i]) && line_ok(y[i]) && x[i].content
        == y[i].content by {
        assert(line_ok(a[i + k]));
    }
    assert forall|i: int, j: int| 0 <= i < x.len() && 0 <= j < x.len() implies ((#[trigger] x[i]).indent
        < (#[trigger] x[j]).indent <==> y[i].indent < y[j].indent) by {
        assert(a[i + k].indent < a[j + k].indent <==> b[i + k].indent < b[j + k].indent);
    }
}

/// Two depths that stand alike to two documents stay so when the same
/// number of lines is taken off both.
proof fn lemma_same_level_skip(a: Seq<Line>, b: Seq<Line>, depth_a: usize, depth_b: usize, k: int)
    requires
        a.len() == b.len(),
        same_level(a, b, depth_a, depth_b),
        0 <= k <= a.len(),
    ensures
        same_level(a.skip(k), b.skip(k), depth_a, depth_b),
{
    let x = a.skip(k);
    let y = b.skip(k);
    assert forall|j: int| 0 <= j < x.len() implies (depth_a < (#[trigger] x[j]).indent <==> depth_b
        < y[j].indent) by {
        assert(depth_a < a[j + k].indent <==> depth_b < b[j + k].indent);
    }
}

/// The depth read off the text of a document is the indentation of its
/// first line.
proof fn lemma_layout_depth(d: Seq<Line>)
    requires
        d.len() > 0,
        line_ok(d[0]),
    ensures
        spec_get_depth(layout(d)) == Ok::<(Seq<char>, usize), ParseError>((layout(d), d[0].indent as usize)),
{
    let text = layout(d);
    let n = d[0].indent as int;
    assert(text[0] != '\n');
    lemma_span_is(text, not_char('\n'), 0);
    assert(text.skip(0) =~= text);
    assert forall|i: int| 0 <= i < n implies !not_char(' ')(#[trigger] text[i]) by {
        assert(text[i] == ' ');
    }
    assert(text[n] == '-');
    lemma_span_is(text, not_char(' '), n);
}

/// The node line read off the text of a document is its first line, and
/// the text of the other lines is left.
proof fn lemma_layout_line(d: Seq<Line>)
    requires
        d.len() > 0,
        line_ok(d[0]),
    ensures
        spec_node_line(layout(d)) == Ok::<(Seq<char>, Seq<crate::node::ElementView>), ParseError>(
            (layout(d.skip(1)), without_empty_words(spec_elements(d[0].content).1)),
        ),
{
    let text = layout(d);
    let n = d[0].indent as int;
    let content = d[0].content;
    assert forall|i: int| 0 <= i < n implies !not_space()(#[trigger] text[i]) by {
        assert(text[i] == ' ');
    }
    assert(text[n] == '-');
    lemma_span_is(text, not_space(), n);
    let line = text.skip(n);
    assert(line[0] == '-');
    let body = line.skip(1);
    assert(body =~= content + seq!['\n'] + layout(d.skip(1)));
    assert forall|i: int| 0 <= i < content.len() implies !is_char('\n')(#[trigger] body[i]) by {
        assert(body[i] == content[i]);
    }
    assert(body[content.len() as int] == '\n');
    lemma_span_is(body, is_char('\n'), content.len() as int);
    assert(body.take(content.len() as int) =~= content);
    assert(body.skip(content.len() as int).skip(1) =~= layout(d.skip(1)));
}

/// A node and its subtree come out the same from two documents of the
/// same nesting, and the same number of lines is read.
proof fn lemma_node_same(
    a: Seq<Line>,
    b: Seq<Line>,
    t: TreeView,
    pending: Seq<PendingView>,
    parent: Option<usize>,
) -> (k: int)
    requires
        same_nesting(a, b),
        a.len() > 0,
    ensures
        1 <= k <= a.len(),
        spec_node(layout(a), t, pending, parent) matches Ok(x) && spec_node(
            layout(b),
            t,
            pending,
            parent,
        ) matches Ok(y) && x.tree == y.tree && x.pending == y.pending && x.node == y.node && x.rest
            == layout(a.skip(k)) && y.rest == layout(b.skip(k)),
    decreases a.len(), 0nat,
{
    lemma_layout_depth(a);
    lemma_layout_depth(b);
    lemma_layout_line(a);
    lemma_layout_line(b);
    lemma_layout_len(a, 1);
    lemma_layout_len(b, 1);
    lemma_same_nesting_skip(a, b, 1);
    let elements = without_empty_words(spec_elements(a[0].content).1);
    let made = line_built(t, pending, parent, elements);
    assert(same_level(a.skip(1), b.skip(1), a[0].indent as usize, b[0].indent as usize)) by {
        assert forall|j: int| 0 <= j < a.skip(1).len() implies (a[0].indent as usize) < (
        #[trigger] a.skip(1)[j]).indent <==> (b[0].indent as usize) < b.skip(1)[j].indent by {
            assert(a[0].indent < a[j + 1].indent <==> b[0].indent < b[j + 1].indent);
        }
    }
    let m = lemma_children_same(
        a.skip(1),
        b.skip(1),
        made.0,
        made.1,
        t.len() as usize,
        a[0].indent as usize,
        b[0].indent as usize,
    );
    assert(a.skip(1).skip(m) =~= a.skip(m + 1));
    assert(b.skip(1).skip(m) =~= b.skip(m + 1));
    m + 1
}

/// The children of a node come out the same from two documents of the
/// same nesting, and the same number of lines is read.
proof fn lemma_children_same(
    a: Seq<Line>,
    b: Seq<Line>,
    t: TreeView,
    pending: Seq<PendingView>,
    node: usize,
    depth_a: usize,
    depth_b: usize,
) -> (k: int)
    requires
        same_nesting(a, b),
        same_level(a, b, depth_a, depth_b),
    ensures
        0 <= k <= a.len(),
        spec_children(layout(a), t, pending, node, depth_a) matches Ok(x) && spec_children(
            layout(b),
            t,
            pending,
            node,
            depth_b,
        ) matches Ok(y) && x.tree == y.tree && x.pending == y.pending && x.node == y.node && x.rest
            == layout(a.skip(k)) && y.rest == layout(b.skip(k)),
    decreases a.len(), 1nat,
{
    lemma_layout_len(a, 0);
    lemma_layout_len(b, 0);
    assert(a.skip(0) =~= a);
    assert(b.skip(0) =~= b);
    if a.len() == 0 {
        0
    } else {
        lemma_layout_depth(a);
        lemma_layout_depth(b);
        assert(depth_a < a[0].indent <==> depth_b < b[0].indent);
        if depth_a < a[0].indent {
            let m = lemma_node_same(a, b, t, pending, Some(node));
            let x = spec_node(layout(a), t, pending, Some(node))->Ok_0;
            lemma_layout_len(a, m);
            lemma_layout_len(b, m);
            lemma_same_nesting_skip(a, b, m);
            lemma_same_level_skip(a, b, depth_a, depth_b, m);
            let n = lemma_children_same(
                a.skip(m),
                b.skip(m),
                child_pushed(x.tree, node as int, x.node),
                x.pending,
                node,
                depth_a,
                depth_b,
            );
            assert(a.skip(m).skip(n) =~= a.skip(m + n));
            assert(b.skip(m).skip(n) =~= b.skip(m + n));
            m + n
        } else {
            0
        }
    }
}

/// Two documents with the same content line by line, in which the same
/// lines are deeper than the same lines, give the same tree, with the same
/// addresses, contents, order and links, and the same pending resolutions;
/// and the same number `k` of lines is read.
pub proof fn depth_width_independence(
    a: Seq<Line>,
    b: Seq<Line>,
    t: TreeView,
    pending: Seq<PendingView>,
    parent: Option<usize>,
) -> (k: int)
    requires
        same_nesting(a, b),
        a.len() > 0,
    ensures
        1 <= k <= a.len(),
        spec_node(layout(a), t, pending, parent) matches Ok(x) && spec_node(
            layout(b),
            t,
            pending,
            parent,
        ) matches Ok(y) && x.tree == y.tree && x.pending == y.pending && x.node == y.node && x.rest
            == layout(a.skip(k)) && y.rest == layout(b.skip(k)),
{
    lemma_node_same(a, b, t, pending, parent)
}

/// A document indented by one space for each level and the same document
/// indented by `factor` spaces for each level, such as four, give the same
/// tree.
pub proof fn indentation_width_independence(
    d: Seq<Line>,
    factor: nat,
    t: TreeView,
    pending: Seq<PendingView>,
    parent: Option<usize>,
) -> (k: int)
    requires
        d.len() > 0,
        factor >= 1,
        forall|i: int| 0 <= i < d.len() ==> line_ok(#[trigger] d[i]) && d[i].indent * factor <= usize::MAX,
    ensures
        1 <= k <= d.len(),
        spec_node(layout(d), t, pending, parent) matches Ok(x) && spec_node(
            layout(widened(d, factor)),
            t,
            pending,
            parent,
        ) matches Ok(y) && x.tree == y.tree && x.pending == y.pending && x.node == y.node && x.rest
            == layout(d.skip(k)) && y.rest == layout(widened(d, factor).skip(k)),
{
    let w = widened(d, factor);
    assert forall|i: int| 0 <= i < d.len() implies line_ok(#[trigger] d[i]) && line_ok(w[i]) && d[i].content
        == w[i].content by {}
    assert forall|i: int, j: int| 0 <= i < d.len() && 0 <= j < d.len() implies ((#[trigger] d[i]).indent
        < (#[trigger] d[j]).indent <==> w[i].indent < w[j].indent) by {
        let x = d[i].indent;
        let y = d[j].indent;
        assert((x < y) <==> (x * factor < y * factor)) by (nonlinear_arith)
            requires
                factor >= 1,
        ;
    }
    lemma_node_same(d, w, t, pending, parent)
}

} // verus!
