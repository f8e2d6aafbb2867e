//! The diagnostic rendering of addresses and of trees.

use vstd::prelude::*;
use vstd::string::StringExecFns;
use crate::node::{Arena, Node, NodeProperty};
use crate::node_content::{ContentView, NodeContent};
use crate::tree::{link_ok, path, path_of, sons_ok, wf, PropertyView, TreeView, UUID};

verus! {

/// The character that writes a digit.
pub open spec fn digit_char(d: nat) -> char {
    if d == 0 {
        '0'
    } else if d == 1 {
        '1'
    } else if d == 2 {
        '2'
    } else if d == 3 {
        '3'
    } else if d == 4 {
        '4'
    } else if d == 5 {
        '5'
    } else if d == 6 {
        '6'
    } else if d == 7 {
        '7'
    } else if d == 8 {
        '8'
    } else {
        '9'
    }
}

/// A number in decimal digits, without leading zeros.
pub open spec fn decimal_digits(n: nat) -> Seq<char>
    decreases n,
{
    if n < 10 {
        seq![digit_char(n)]
    } else {
        decimal_digits(n / 10).push(digit_char(n % 10))
    }
}

/// An address as text: its indices in decimal, joined by dots.
pub open spec fn dotted(p: Seq<usize>) -> Seq<char>
    decreases p.len(),
{
    if p.len() == 0 {
        Seq::empty()
    } else if p.len() == 1 {
        decimal_digits(p[0] as nat)
    } else {
        dotted(p.drop_last()) + seq!['.'] + decimal_digits(p.last() as nat)
    }
}

/// What is written in place of the target of an open link.
pub open spec fn unresolved_text() -> Seq<char> {
    seq!['u', 'n', 'r', 'e', 's', 'o', 'l', 'v', 'e', 'd']
}

/// The target of a link as text: the address of the node it names, or
/// `unresolved` for an open link and for one that names no node.
pub open spec fn link_text(t: TreeView, link: Option<usize>) -> Seq<char> {
    match link {
        Some(h) => if h < t.len() {
            dotted(path(t, h as int))
        } else {
            unresolved_text()
        },
        None => unresolved_text(),
    }
}

/// One content element as text, with the space that follows it.
pub open spec fn content_text(t: TreeView, c: ContentView) -> Seq<char> {
    match c {
        ContentView::Text(text) => text + seq![' '],
        ContentView::Blob(text, link) => seq!['{'] + text + seq!['}', '('] + link_text(t, link) + seq![
            ')',
            ' ',
        ],
        ContentView::Reference(link) => seq!['#', '('] + link_text(t, link) + seq![')', ' '],
    }
}

/// The content elements of a node as text, in their order.
pub open spec fn contents_text(t: TreeView, cont: Seq<ContentView>) -> Seq<char>
    decreases cont.len(),
{
    if cont.len() == 0 {
        Seq::empty()
    } else {
        contents_text(t, cont.drop_last()) + content_text(t, cont.last())
    }
}

/// One property as text, with the space that follows it.
pub open spec fn property_text(p: PropertyView) -> Seq<char> {
    match p {
        PropertyView::Blob => seq!['<', 'b', 'l', 'o', 'b', '>', ' '],
        PropertyView::Color => seq!['<', 'c', 'o', 'l', 'o', 'r', 'e', 'd', '>', ' '],
        PropertyView::Rbind(_) => seq!['<', 'r', 'b', 'i', 'n', 'd', '>', ' '],
    }
}

/// The properties of a node as text, in their order.
pub open spec fn properties_text(prop: Seq<PropertyView>) -> Seq<char>
    decreases prop.len(),
{
    if prop.len() == 0 {
        Seq::empty()
    } else {
        properties_text(prop.drop_last()) + property_text(prop.last())
    }
}

/// The line of one node: the marker, the address in parentheses, the
/// content elements, the properties, a line feed.
pub open spec fn line_text(t: TreeView, h: int) -> Seq<char> {
    seq!['-', ' ', '('] + dotted(path(t, h)) + seq![')', ' '] + contents_text(t, t[h].cont)
        + properties_text(t[h].prop) + seq!['\n']
}

/// A run of `n` spaces.
pub open spec fn spaces(n: nat) -> Seq<char> {
    Seq::new(n, |i: int| ' ')
}

/// A node and its subtree as text, in pre-order: the line of the node,
/// then each child's subtree, the child's line indented by one space for
/// each node on the way from the root to its parent.
pub open spec fn rendered(t: TreeView, h: int) -> Seq<char>
    decreases t.len() - h, t[h].sons.len() + 1,
{
    line_text(t, h) + sons_text(t, h, t[h].sons.len())
}

/// The subtrees of the first `k` children of a node as text.
pub open spec fn sons_text(t: TreeView, h: int, k: nat) -> Seq<char>
    decreases t.len() - h, k,
{
    if k == 0 {
        Seq::empty()
    } else {
        let c = t[h].sons[k - 1] as int;
        sons_text(t, h, (k - 1) as nat) + spaces(path(t, h).len()) + if h < c < t.len() {
            rendered(t, c)
        } else {
            Seq::empty()
        }
    }
}

/// The text that writes one digit.
fn digit_str(d: usize) -> (s: &'static str)
    requires
        d < 10,
    ensures
        s@ == seq![digit_char(d as nat)],
{
    proof {
        reveal_strlit("0");
        reveal_strlit("1");
        reveal_strlit("2");
        reveal_strlit("3");
        reveal_strlit("4");
        reveal_strlit("5");
        reveal_strlit("6");
        reveal_strlit("7");
        reveal_strlit("8");
        reveal_strlit("9");
    }
    let s = if d == 0 {
        "0"
    } else if d == 1 {
        "1"
    } else if d == 2 {
        "2"
    } else if d == 3 {
        "3"
    } else if d == 4 {
        "4"
    } else if d == 5 {
        "5"
    } else if d == 6 {
        "6"
    } else if d == 7 {
        "7"
    } else if d == 8 {
        "8"
    } else {
        "9"
    };
    assert(s@ =~= seq![digit_char(d as nat)]);
    s
}

/// Appends a number in decimal digits.
fn write_decimal(out: &mut String, n: usize)
    ensures
        final(out)@ == old(out)@ + decimal_digits(n as nat),
    decreases n,
{
    if n >= 10 {
        write_decimal(out, n / 10);
    }
    out.append(digit_str(n % 10));
    proof {
        if n >= 10 {
            assert(out@ =~= old(out)@ + decimal_digits(n as nat));
        }
    }
}

/// Appends an address as text.
fn write_dotted(out: &mut String, p: &Vec<usize>)
    ensures
        final(out)@ == old(out)@ + dotted(p@),
{
    proof {
        assert(p@.take(0) =~= Seq::<usize>::empty());
        assert(out@ =~= old(out)@ + dotted(p@.take(0)));
    }
    let mut i: usize = 0;
    while i < p.len()
        invariant
            i <= p@.len(),
            out@ == old(out)@ + dotted(p@.take(i as int)),
        decreases p@.len() - i,
    {
        let ghost before = out@;
        proof {
            reveal_strlit(".");
            assert(p@.take(i as int + 1).drop_last() =~= p@.take(i as int));
            assert(p@.take(i as int + 1).last() == p@[i as int]);
        }
        if i > 0 {
            out.append(".");
        }
        write_decimal(out, p[i]);
        proof {
            let now = dotted(p@.take(i as int + 1));
            if i > 0 {
                assert("."@ =~= seq!['.']);
                assert(out@ =~= old(out)@ + now);
            } else {
                assert(p@.take(1)[0] == p@[0]);
                assert(out@ =~= old(out)@ + now);
            }
        }
        i += 1;
    }
    proof {
        assert(p@.take(p@.len() as int) =~= p@);
    }
}

/// Appends the target of a link as text.
fn write_link(out: &mut String, arena: &Arena, link: Option<usize>)
    requires
        arena.wf(),
    ensures
        final(out)@ == old(out)@ + link_text(arena@, link),
{
    proof {
        reveal_strlit("unresolved");
        assert("unresolved"@ =~= unresolved_text());
    }
    match link {
        Some(h) => match arena.get(h) {
            Some(target) => {
                proof {
                    assert(link_ok(arena@, h as int));
                }
                let p = target.uuid.to_vec_id(arena);
                write_dotted(out, &p);
            },
            None => {
                out.append("unresolved");
            },
        },
        None => {
            out.append("unresolved");
        },
    }
}

impl UUID {
    /// The address as text: its indices in decimal, joined by dots.
    pub fn fmt(&self, arena: &Arena) -> (text: String)
        requires
            arena.wf(),
        ensures
            text@ == dotted(path_of(arena@, *self)),
    {
        let mut text = String::new();
        let p = self.to_vec_id(arena);
        write_dotted(&mut text, &p);
        proof {
            assert(Seq::<char>::empty() + dotted(p@) =~= dotted(p@));
        }
        text
    }
}

/// Appends one content element as text.
fn write_content(out: &mut String, arena: &Arena, content: &NodeContent)
    requires
        arena.wf(),
    ensures
        final(out)@ == old(out)@ + content_text(arena@, content@),
{
    proof {
        reveal_strlit(" ");
        reveal_strlit("{");
        reveal_strlit("}(");
        reveal_strlit(") ");
        reveal_strlit("#(");
    }
    match content {
        NodeContent::Text(text) => {
            out.append(text.as_str());
            out.append(" ");
            proof {
                assert(out@ =~= old(out)@ + (text@ + seq![' ']));
            }
        },
        NodeContent::Blob(blob) => {
            out.append("{");
            out.append(blob.text.as_str());
            out.append("}(");
            write_link(out, arena, blob.link);
            out.append(") ");
            proof {
                assert(out@ =~= old(out)@ + (seq!['{'] + blob.text@ + seq!['}', '('] + link_text(
                    arena@,
                    blob.link,
                ) + seq![')', ' ']));
            }
        },
        NodeContent::Reference(reference) => {
            out.append("#(");
            write_link(out, arena, reference.link);
            out.append(") ");
            proof {
                assert(out@ =~= old(out)@ + (seq!['#', '('] + link_text(arena@, reference.link) + seq![
                    ')',
                    ' ',
                ]));
            }
        },
    }
}

/// Appends one property as text.
fn write_property(out: &mut String, property: &NodeProperty)
    ensures
        final(out)@ == old(out)@ + property_text(property@),
{
    proof {
        reveal_strlit("<blob> ");
        reveal_strlit("<colored> ");
        reveal_strlit("<rbind> ");
    }
    match property {
        NodeProperty::Blob => {
            out.append("<blob> ");
            assert("<blob> "@ =~= property_text(PropertyView::Blob));
        },
        NodeProperty::Color => {
            out.append("<colored> ");
            assert("<colored> "@ =~= property_text(PropertyView::Color));
        },
        NodeProperty::Rbind(_) => {
            out.append("<rbind> ");
            assert("<rbind> "@ =~= property_text(property@));
        },
    }
}

/// Appends the line of one node.
fn write_line(out: &mut String, arena: &Arena, node: &Node)
    requires
        arena.wf(),
    ensures
        final(out)@ == old(out)@ + (seq!['-', ' ', '('] + dotted(path_of(arena@, node.uuid)) + seq![
            ')',
            ' ',
        ] + contents_text(arena@, node@.cont) + properties_text(node@.prop) + seq!['\n']),
{
    proof {
        reveal_strlit("- (");
        reveal_strlit(") ");
        reveal_strlit("\n");
    }
    let p = node.uuid.to_vec_id(arena);
    out.append("- (");
    write_dotted(out, &p);
    out.append(") ");
    let ghost head = old(out)@ + (seq!['-', ' ', '('] + dotted(p@) + seq![')', ' ']);
    proof {
        assert(out@ =~= head);
        assert(node@.cont.take(0) =~= Seq::<ContentView>::empty());
        assert(out@ =~= head + contents_text(arena@, node@.cont.take(0)));
    }
    let mut i: usize = 0;
    while i < node.cont.len()
        invariant
            arena.wf(),
            i <= node.cont@.len(),
            node@.cont.len() == node.cont@.len(),
            out@ == head + contents_text(arena@, node@.cont.take(i as int)),
        decreases node.cont@.len() - i,
    {
        proof {
            assert(node@.cont.take(i as int + 1).drop_last() =~= node@.cont.take(i as int));
            assert(node@.cont.take(i as int + 1).last() == node.cont@[i as int]@);
        }
        write_content(out, arena, &node.cont[i]);
        proof {
            assert(out@ =~= head + contents_text(arena@, node@.cont.take(i as int + 1)));
        }
        i += 1;
    }
    let ghost body = head + contents_text(arena@, node@.cont);
    proof {
        assert(node@.cont.take(node@.cont.len() as int) =~= node@.cont);
        assert(node@.prop.take(0) =~= Seq::<PropertyView>::empty());
        assert(out@ =~= body + properties_text(node@.prop.take(0)));
    }
    let mut j: usize = 0;
    while j < node.prop.len()
        invariant
            j <= node.prop@.len(),
            node@.prop.len() == node.prop@.len(),
            out@ == body + properties_text(node@.prop.take(j as int)),
        decreases node.prop@.len() - j,
    {
        proof {
            assert(node@.prop.take(j as int + 1).drop_last() =~= node@.prop.take(j as int));
            assert(node@.prop.take(j as int + 1).last() == node.prop@[j as int]@);
        }
        write_property(out, &node.prop[j]);
        proof {
            assert(out@ =~= body + properties_text(node@.prop.take(j as int + 1)));
        }
        j += 1;
    }
    proof {
        assert(node@.prop.take(node@.prop.len() as int) =~= node@.prop);
    }
    out.append("\n");
    proof {
        assert("\n"@ =~= seq!['\n']);
        assert(out@ =~= old(out)@ + (seq!['-', ' ', '('] + dotted(p@) + seq![')', ' '] + contents_text(
            arena@,
            node@.cont,
        ) + properties_text(node@.prop) + seq!['\n']));
    }
}

/// Appends a node and its subtree as text.
fn write_node(out: &mut String, arena: &Arena, this: usize)
    requires
        arena.wf(),
        this < arena@.len(),
    ensures
        final(out)@ == old(out)@ + rendered(arena@, this as int),
    decreases arena@.len() - this,
{
    let ghost t = arena@;
    let node = match arena.get(this) {
        Some(node) => node,
        None => {
            return ;
        },
    };
    proof {
        assert(link_ok(t, this as int));
        assert(sons_ok(t, this as int));
    }
    write_line(out, arena, node);
    let depth = Node::get_depth(arena, this);
    let ghost head = old(out)@ + line_text(t, this as int);
    proof {
        assert(out@ =~= head + sons_text(t, this as int, 0));
    }
    let mut k: usize = 0;
    while k < node.sons.len()
        invariant
            t == arena@,
            wf(t),
            this < t.len(),
            node@ == t[this as int],
            k <= node.sons@.len(),
            depth == path(t, this as int).len(),
            out@ == head + sons_text(t, this as int, k as nat),
        decreases node.sons@.len() - k,
    {
        let ghost before = out@;
        let child = node.sons[k];
        proof {
            assert(sons_ok(t, this as int));
            assert(child == t[this as int].sons[k as int]);
            assert(link_ok(t, child as int));
        }
        let mut i: usize = 0;
        while i < depth
            invariant
                i <= depth,
                out@ == before + spaces(i as nat),
            decreases depth - i,
        {
            proof {
                reveal_strlit(" ");
            }
            out.append(" ");
            proof {
                assert(out@ =~= before + spaces((i + 1) as nat));
            }
            i += 1;
        }
        write_node(out, arena, child);
        proof {
            assert(out@ =~= head + sons_text(t, this as int, (k + 1) as nat));
        }
        k += 1;
    }
    proof {
        assert(out@ =~= old(out)@ + rendered(t, this as int));
    }
}

impl Node {
    /// The node and its subtree as text, one line for each node, in
    /// pre-order: `- (address) ` , the content elements, the properties.
    /// Text is written as it is, a blob as `{text}(target)`, a reference as
    /// `#(target)`, a property as `<blob>`, `<colored>` or `<rbind>`, each
    /// followed by a space. The target is the address of the node that the
    /// link names, or `unresolved`. The line of a child is indented by one
    /// space for each node on the way from the root to its parent.
    pub fn fmt(arena: &Arena, this: usize) -> (text: String)
        requires
            arena.wf(),
            this < arena@.len(),
        ensures
            text@ == rendered(arena@, this as int),
    {
        let mut text = String::new();
        write_node(&mut text, arena, this);
        proof {
            assert(Seq::<char>::empty() + rendered(arena@, this as int) =~= rendered(
                arena@,
                this as int,
            ));
        }
        text
    }
}

} // verus!
