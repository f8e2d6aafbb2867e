//! Nodes, their table, and the operations that build and walk the tree.

use vstd::prelude::*;
use crate::laws::{lemma_ancestor, lemma_descend_path, locate_is_sound};
use crate::node_content::{ContentView, NodeContent};
use crate::tree::{
    ancestor, attached, child_inserted, child_pushed, descend, fits, fresh,
    lemma_child_inserted_structured, lemma_fresh_wf, lemma_child_pushed_wf, lemma_renumbered_step,
    lemma_renumbered_wf, lemma_same_shape_wf, lemma_shared_len, link_ok, locate, numbered, path,
    path_of, renumbered, renumbered_upto, rest_path, sons_ok, structured, wf, with_cont, with_id,
    with_prop, with_sons, NodeView, PropertyView, TreeView,
};

pub use crate::tree::UUID;

verus! {

/// A structural tag on a node.
#[derive(Debug, Clone, PartialEq, Eq)]
pub enum NodeProperty {
    Color,
    Rbind(Vec<usize>),
    Blob,
}

impl View for NodeProperty {
    type V = PropertyView;

    open spec fn view(&self) -> PropertyView {
        match *self {
            NodeProperty::Color => PropertyView::Color,
            NodeProperty::Rbind(v) => PropertyView::Rbind(v@),
            NodeProperty::Blob => PropertyView::Blob,
        }
    }
}

/// One element of a node line as the grammar reads it, before references are linked.
#[derive(Debug, PartialEq, Eq)]
pub enum NodeElement<'s> {
    Word(&'s str),
    TempBlob((String, Vec<usize>)),
    TempRef(Vec<usize>),
    Property(NodeProperty),
}

/// The mathematical value of a [`NodeElement`].
pub enum ElementView {
    Word(Seq<char>),
    TempBlob(Seq<char>, Seq<usize>),
    TempRef(Seq<usize>),
    Property(PropertyView),
}

impl<'s> View for NodeElement<'s> {
    type V = ElementView;

    open spec fn view(&self) -> ElementView {
        match *self {
            NodeElement::Word(w) => ElementView::Word(w@),
            NodeElement::TempBlob(b) => ElementView::TempBlob(b.0@, b.1@),
            NodeElement::TempRef(a) => ElementView::TempRef(a@),
            NodeElement::Property(p) => ElementView::Property(p@),
        }
    }
}

/// A vertex of the tree. Parent and children are handles into the table
/// that holds the node.
#[derive(Debug)]
pub struct Node {
    pub parent: Option<usize>,
    pub uuid: UUID,
    pub cont: Vec<NodeContent>,
    pub sons: Vec<usize>,
    pub prop: Vec<NodeProperty>,
}

impl View for Node {
    type V = NodeView;

    open spec fn view(&self) -> NodeView {
        NodeView {
            parent: self.parent,
            uuid: self.uuid,
            cont: self.cont@.map_values(|c: NodeContent| c@),
            sons: self.sons@,
            prop: self.prop@.map_values(|p: NodeProperty| p@),
        }
    }
}

/// The table of all nodes. A handle is the index of a node in it; nodes are
/// only ever added, so a handle stays good.
#[derive(Debug)]
pub struct Arena {
    nodes: Vec<Node>,
}

impl View for Arena {
    type V = TreeView;

    closed spec fn view(&self) -> TreeView {
        self.nodes@.map_values(|n: Node| n@)
    }
}

impl Arena {
    /// The table is well formed.
    pub open spec fn wf(&self) -> bool {
        wf(self@)
    }

    /// A table in memory is one that a machine can hold.
    pub proof fn lemma_fits(&self)
        ensures
            fits(self@),
    {
        assert(self.nodes.len() <= usize::MAX);
        assert forall|h: int| 0 <= h < self@.len() implies (#[trigger] self@[h]).cont.len() <= usize::MAX by {
            assert(self.nodes@[h].cont.len() <= usize::MAX);
        }
    }

    /// A table without nodes.
    pub fn new() -> (arena: Arena)
        ensures
            arena@ == Seq::<NodeView>::empty(),
            arena.wf(),
    {
        let arena = Arena { nodes: Vec::new() };
        assert(arena@ =~= Seq::<NodeView>::empty());
        arena
    }

    /// The number of nodes made so far.
    pub fn len(&self) -> (n: usize)
        ensures
            n == self@.len(),
    {
        self.nodes.len()
    }

    /// The node behind a handle, or `None` for a handle that names no node.
    pub fn get(&self, h: usize) -> (node: Option<&Node>)
        ensures
            match node {
                Some(n) => h < self@.len() && n@ == self@[h as int],
                None => h >= self@.len(),
            },
    {
        if h < self.nodes.len() {
            Some(&self.nodes[h])
        } else {
            None
        }
    }
}

impl Node {
    /// Makes a node below `parent`, or a root. Its address is the parent's
    /// address extended by the number of children the parent has now. The
    /// node is not yet among the parent's children.
    pub fn new(arena: &mut Arena, parent: Option<usize>) -> (this: usize)
        requires
            old(arena).wf(),
            parent matches Some(p) ==> p < old(arena)@.len(),
        ensures
            this == old(arena)@.len(),
            final(arena)@ == old(arena)@.push(fresh(old(arena)@, parent)),
            final(arena).wf(),
            !attached(final(arena)@, this as int),
    {
        let ghost t = arena@;
        let id = match parent {
            Some(p) => arena.nodes[p].sons.len(),
            None => 0,
        };
        let this = arena.nodes.len();
        arena.nodes.push(
            Node {
                parent,
                uuid: UUID { parent, id },
                cont: Vec::new(),
                sons: Vec::new(),
                prop: Vec::new(),
            },
        );
        let grown = arena.nodes.len();
        proof {
            let u = arena@;
            assert(grown == this + 1);
            assert(u[this as int].cont =~= Seq::<ContentView>::empty());
            assert(u[this as int].prop =~= Seq::<PropertyView>::empty());
            assert(u =~= t.push(fresh(t, parent)));
            lemma_fresh_wf(t, parent);
        }
        this
    }

    /// Puts `new_content` into slot `id`. The other slots keep their places.
    pub fn replace_content(arena: &mut Arena, this: usize, id: usize, new_content: NodeContent)
        requires
            this < old(arena)@.len(),
            id < old(arena)@[this as int].cont.len(),
        ensures
            final(arena)@ == with_cont(
                old(arena)@,
                this as int,
                old(arena)@[this as int].cont.update(id as int, new_content@),
            ),
            old(arena).wf() ==> final(arena).wf(),
    {
        let ghost t = arena@;
        arena.nodes[this].cont[id] = new_content;
        proof {
            let u = with_cont(t, this as int, t[this as int].cont.update(id as int, new_content@));
            assert(arena@[this as int].cont =~= u[this as int].cont);
            assert(arena@ =~= u);
            lemma_same_shape_wf(t, u);
        }
    }

    /// The number of content slots of the node.
    pub fn get_cont_len(arena: &Arena, this: usize) -> (n: usize)
        requires
            this < arena@.len(),
        ensures
            n == arena@[this as int].cont.len(),
    {
        arena.nodes[this].cont.len()
    }

    /// Appends `contents`, in their order, to the content of the node.
    pub fn append_contents(arena: &mut Arena, this: usize, contents: Vec<NodeContent>)
        requires
            this < old(arena)@.len(),
        ensures
            final(arena)@ == with_cont(
                old(arena)@,
                this as int,
                old(arena)@[this as int].cont + contents@.map_values(|c: NodeContent| c@),
            ),
            old(arena).wf() ==> final(arena).wf(),
    {
        let ghost t = arena@;
        let mut contents = contents;
        let ghost added = contents@;
        arena.nodes[this].cont.append(&mut contents);
        proof {
            let u = with_cont(
                t,
                this as int,
                t[this as int].cont + added.map_values(|c: NodeContent| c@),
            );
            assert(arena@[this as int].cont =~= u[this as int].cont);
            assert(arena@ =~= u);
            lemma_same_shape_wf(t, u);
        }
    }

    /// Appends one element to the content of the node.
    pub fn push_content(arena: &mut Arena, this: usize, content: NodeContent)
        requires
            this < old(arena)@.len(),
        ensures
            final(arena)@ == with_cont(
                old(arena)@,
                this as int,
                old(arena)@[this as int].cont.push(content@),
            ),
            old(arena).wf() ==> final(arena).wf(),
    {
        let ghost t = arena@;
        arena.nodes[this].cont.push(content);
        proof {
            let u = with_cont(t, this as int, t[this as int].cont.push(content@));
            assert(arena@[this as int].cont =~= u[this as int].cont);
            assert(arena@ =~= u);
            lemma_same_shape_wf(t, u);
        }
    }

    /// Appends one property to the node.
    pub fn push_property(arena: &mut Arena, this: usize, property: NodeProperty)
        requires
            this < old(arena)@.len(),
        ensures
            final(arena)@ == with_prop(
                old(arena)@,
                this as int,
                old(arena)@[this as int].prop.push(property@),
            ),
            old(arena).wf() ==> final(arena).wf(),
    {
        let ghost t = arena@;
        arena.nodes[this].prop.push(property);
        proof {
            let u = with_prop(t, this as int, t[this as int].prop.push(property@));
            assert(arena@[this as int].prop =~= u[this as int].prop);
            assert(arena@ =~= u);
            lemma_same_shape_wf(t, u);
        }
    }

    /// Appends `child` to the children of the node. The child takes its
    /// place as its local index.
    pub fn push_child(arena: &mut Arena, this: usize, child: usize)
        requires
            old(arena).wf(),
            this < old(arena)@.len(),
            child < old(arena)@.len(),
            old(arena)@[child as int].parent == Some(this),
            !attached(old(arena)@, child as int),
        ensures
            final(arena)@ == child_pushed(old(arena)@, this as int, child),
            final(arena)@[this as int].sons == old(arena)@[this as int].sons.push(child),
            numbered(final(arena)@, this as int),
            final(arena).wf(),
    {
        let ghost t = arena@;
        let n = arena.nodes[this].sons.len();
        proof {
            assert(link_ok(t, child as int));
        }
        arena.nodes[this].sons.push(child);
        let grown = arena.nodes[this].sons.len();
        arena.nodes[child].uuid.id = n;
        proof {
            assert(grown == n + 1);
            let u = child_pushed(t, this as int, child);
            assert(arena@ =~= u);
            lemma_child_pushed_wf(t, this as int, child);
        }
    }

    /// Inserts `child` among the children of the node at place `idx`. The
    /// children from `idx` on move one place up, and each child then has its
    /// place as its local index. Their own descendants are not touched.
    pub fn insert_child(arena: &mut Arena, this: usize, idx: usize, child: usize)
        requires
            old(arena).wf(),
            this < old(arena)@.len(),
            child < old(arena)@.len(),
            old(arena)@[child as int].parent == Some(this),
            !attached(old(arena)@, child as int),
            idx <= old(arena)@[this as int].sons.len(),
        ensures
            final(arena)@ == child_inserted(old(arena)@, this as int, idx as int, child),
            final(arena)@[this as int].sons == old(arena)@[this as int].sons.insert(idx as int, child),
            numbered(final(arena)@, this as int),
            final(arena).wf(),
    {
        let ghost t = arena@;
        arena.nodes[this].sons.insert(idx, child);
        let grown = arena.nodes[this].sons.len();
        proof {
            t[this as int].sons.insert_ensures(idx as int, child);
            assert(grown == t[this as int].sons.len() + 1);
            let u = with_sons(t, this as int, t[this as int].sons.insert(idx as int, child));
            assert(arena@ =~= u);
            lemma_child_inserted_structured(t, this as int, idx as int, child);
        }
        Node::update_child_ids(arena, this);
    }

    /// The number of nodes on the way from the root to the node, both counted.
    pub fn get_depth(arena: &Arena, this: usize) -> (depth: usize)
        requires
            arena.wf(),
            this < arena@.len(),
        ensures
            depth == path(arena@, this as int).len(),
    {
        let ghost t = arena@;
        let mut cur = this;
        let mut depth: usize = 0;
        loop
            invariant
                t == arena@,
                wf(t),
                cur < t.len(),
                depth + cur < t.len(),
                path(t, this as int).len() == depth + path(t, cur as int).len(),
            decreases cur,
        {
            proof {
                assert(link_ok(t, cur as int));
            }
            match arena.nodes[cur].parent {
                Some(p) => {
                    cur = p;
                    depth += 1;
                },
                None => {
                    return depth + 1;
                },
            }
        }
    }

    /// Gives each child of the node its place as its local index.
    pub fn update_child_ids(arena: &mut Arena, this: usize)
        requires
            structured(old(arena)@),
            this < old(arena)@.len(),
        ensures
            final(arena)@ == renumbered(old(arena)@, this as int),
            structured(final(arena)@),
            numbered(final(arena)@, this as int),
            (forall|h: int| 0 <= h < old(arena)@.len() && h != this ==> numbered(old(arena)@, h))
                ==> final(arena).wf(),
    {
        let ghost t = arena@;
        let n = arena.nodes[this].sons.len();
        let mut i: usize = 0;
        proof {
            assert(arena@ =~= renumbered_upto(t, this as int, 0));
        }
        while i < n
            invariant
                i <= n,
                n == t[this as int].sons.len(),
                this < t.len(),
                structured(t),
                arena@ == renumbered_upto(t, this as int, i as int),
            decreases n - i,
        {
            proof {
                assert(sons_ok(t, this as int));
                assert(arena@.len() == t.len());
                assert(arena@[this as int].sons == t[this as int].sons);
            }
            let c = arena.nodes[this].sons[i];
            proof {
                assert(c == t[this as int].sons[i as int]);
                assert(link_ok(t, c as int));
            }
            arena.nodes[c].uuid.id = i;
            proof {
                lemma_renumbered_step(t, this as int, i as int);
                assert(arena@ =~= with_id(renumbered_upto(t, this as int, i as int), c as int, i));
            }
            i += 1;
        }
        proof {
            assert(t[this as int].sons.take(n as int) =~= t[this as int].sons);
            assert(arena@ =~= renumbered(t, this as int));
            lemma_renumbered_wf(t, this as int);
            if forall|h: int| 0 <= h < t.len() && h != this ==> numbered(t, h) {
                assert forall|h: int| 0 <= h < arena@.len() implies #[trigger] numbered(arena@, h) by {
                    if h != this {
                        assert(numbered(t, h));
                    }
                }
            }
        }
    }

    /// The node `amount` levels above this one; the node itself for 0.
    /// `None` where the chain of ancestors is shorter than `amount`.
    pub fn go_up(arena: &Arena, this: usize, amount: usize) -> (r: Option<usize>)
        requires
            arena.wf(),
            this < arena@.len(),
        ensures
            r == ancestor(arena@, this as int, amount as nat),
            r is Some <==> amount < path(arena@, this as int).len(),
            r matches Some(a) ==> a < arena@.len() && path(arena@, a as int) == path(
                arena@,
                this as int,
            ).take(path(arena@, this as int).len() - amount),
    {
        let ghost t = arena@;
        proof {
            lemma_ancestor(t, this as int, amount as nat);
        }
        let mut cur = this;
        let mut left = amount;
        while left > 0
            invariant
                t == arena@,
                wf(t),
                cur < t.len(),
                left <= amount,
                ancestor(t, this as int, amount as nat) == ancestor(t, cur as int, left as nat),
                path(t, this as int).len() == (amount - left) + path(t, cur as int).len(),
            decreases left,
        {
            proof {
                assert(link_ok(t, cur as int));
            }
            match arena.nodes[cur].parent {
                Some(p) => {
                    cur = p;
                    left -= 1;
                },
                None => {
                    return None;
                },
            }
        }
        proof {
            assert(link_ok(t, cur as int));
        }
        Some(cur)
    }

    /// The node reached by following the child indices in `addr`; the node
    /// itself for an empty `addr`. `None` where an index names no child.
    pub fn go_down(arena: &Arena, this: usize, addr: Vec<usize>) -> (r: Option<usize>)
        requires
            arena.wf(),
            this < arena@.len(),
        ensures
            r == descend(arena@, this as int, addr@),
            r matches Some(d) ==> d < arena@.len() && path(arena@, d as int) == path(arena@, this as int)
                + addr@,
    {
        proof {
            assert(addr@.skip(0) =~= addr@);
            lemma_descend_path(arena@, this as int, addr@);
        }
        Node::descend_from(arena, this, &addr, 0)
    }

    /// Follows the child indices of `addr` from place `start` on.
    fn descend_from(arena: &Arena, this: usize, addr: &Vec<usize>, start: usize) -> (r: Option<usize>)
        requires
            arena.wf(),
            this < arena@.len(),
            start <= addr@.len(),
        ensures
            r == descend(arena@, this as int, addr@.skip(start as int)),
            r matches Some(d) ==> d < arena@.len(),
    {
        let ghost t = arena@;
        let mut cur = this;
        let mut i = start;
        while i < addr.len()
            invariant
                t == arena@,
                wf(t),
                cur < t.len(),
                start <= i <= addr@.len(),
                descend(t, this as int, addr@.skip(start as int)) == descend(
                    t,
                    cur as int,
                    addr@.skip(i as int),
                ),
            decreases addr@.len() - i,
        {
            let k = addr[i];
            proof {
                assert(sons_ok(t, cur as int));
                assert(addr@.skip(i as int)[0] == k);
                assert(addr@.skip(i as int).skip(1) =~= addr@.skip(i as int + 1));
            }
            if k < arena.nodes[cur].sons.len() {
                cur = arena.nodes[cur].sons[k];
            } else {
                return None;
            }
            i += 1;
        }
        Some(cur)
    }

    /// The node whose address is that of `uuid`, found from this node.
    pub fn search_by_uuid(arena: &Arena, this: usize, uuid: &UUID) -> (r: Option<usize>)
        requires
            arena.wf(),
            this < arena@.len(),
        ensures
            r == locate(arena@, this as int, path_of(arena@, *uuid)),
            r matches Some(d) ==> d < arena@.len() && path(arena@, d as int) == path_of(arena@, *uuid),
    {
        let v_id_other = uuid.to_vec_id(arena);
        Node::search_by_vec_id(arena, this, &v_id_other)
    }

    /// The node with address `addr`, found from this node: up to the deepest
    /// node whose address is a prefix of both addresses, then down along the
    /// rest of `addr`. `None` where no such node is in reach.
    pub fn search_by_vec_id(arena: &Arena, this: usize, addr: &Vec<usize>) -> (r: Option<usize>)
        requires
            arena.wf(),
            this < arena@.len(),
        ensures
            r == locate(arena@, this as int, addr@),
            r matches Some(d) ==> d < arena@.len() && path(arena@, d as int) == addr@,
    {
        let ghost t = arena@;
        proof {
            assert(link_ok(t, this as int));
            locate_is_sound(t, this as int, addr@);
        }
        let v_id_self = arena.nodes[this].uuid.to_vec_id(arena);
        let mut shared: usize = 0;
        while shared < v_id_self.len() && shared < addr.len() && v_id_self[shared] == addr[shared]
            invariant
                shared <= v_id_self@.len(),
                shared <= addr@.len(),
                forall|j: int| 0 <= j < shared ==> v_id_self@[j] == addr@[j],
            decreases v_id_self@.len() - shared,
        {
            shared += 1;
        }
        proof {
            lemma_shared_len(v_id_self@, addr@, shared as nat);
        }
        let distance = v_id_self.len() - shared;
        match Node::go_up(arena, this, distance) {
            Some(start) => Node::descend_from(arena, start, addr, shared),
            None => None,
        }
    }
}

impl UUID {
    /// The address with local index `id` below the address of node `parent`.
    pub fn new(parent: Option<usize>, id: usize) -> (uuid: UUID)
        ensures
            uuid.parent == parent,
            uuid.id == id,
    {
        UUID { parent, id }
    }

    /// Overwrites the local index.
    pub fn update_id(&mut self, new_id: usize)
        ensures
            final(self).id == new_id,
            final(self).parent == old(self).parent,
    {
        self.id = new_id;
    }

    /// The address as a sequence of local indices, root first.
    pub fn to_vec_id(&self, arena: &Arena) -> (id: Vec<usize>)
        requires
            arena.wf(),
        ensures
            id@ == path_of(arena@, *self),
    {
        let ghost t = arena@;
        let ghost full = path_of(t, *self);
        let mut rev: Vec<usize> = Vec::new();
        rev.push(self.id);
        let mut p = self.parent;
        loop
            invariant
                t == arena@,
                wf(t),
                full.len() == rev@.len() + rest_path(t, p).len(),
                forall|j: int| 0 <= j < rev@.len() ==> rev@[j] == full[full.len() - 1 - j],
                forall|j: int| 0 <= j < rest_path(t, p).len() ==> rest_path(t, p)[j] == full[j],
            ensures
                rest_path(t, p).len() == 0,
            decreases
                    match p {
                        Some(q) => q + 1,
                        None => 0,
                    },
        {
            match p {
                Some(q) => {
                    if q < arena.nodes.len() {
                        proof {
                            assert(link_ok(t, q as int));
                        }
                        rev.push(arena.nodes[q].uuid.id);
                        p = arena.nodes[q].uuid.parent;
                    } else {
                        break;
                    }
                },
                None => {
                    break;
                },
            }
        }
        let n = rev.len();
        let mut id: Vec<usize> = Vec::new();
        let mut i: usize = 0;
        while i < n
            invariant
                i <= n,
                n == rev@.len(),
                n == full.len(),
                id@.len() == i,
                forall|j: int| 0 <= j < n ==> rev@[j] == full[n - 1 - j],
                forall|j: int| 0 <= j < i ==> id@[j] == full[j],
            decreases n - i,
        {
            id.push(rev[n - 1 - i]);
            i += 1;
        }
        proof {
            assert(id@ =~= full);
        }
        id
    }

    /// Whether two addresses are the same path from the root.
    pub fn same_path(&self, other: &UUID, arena: &Arena) -> (same: bool)
        requires
            arena.wf(),
        ensures
            same == (path_of(arena@, *self) == path_of(arena@, *other)),
    {
        let a = self.to_vec_id(arena);
        let b = other.to_vec_id(arena);
        same_ids(&a, &b)
    }
}

/// Whether two addresses are the same sequence.
pub fn same_ids(a: &Vec<usize>, b: &Vec<usize>) -> (same: bool)
    ensures
        same == (a@ == b@),
{
    if a.len() != b.len() {
        return false;
    }
    let mut i: usize = 0;
    while i < a.len()
        invariant
            a@.len() == b@.len(),
            i <= a@.len(),
            forall|j: int| 0 <= j < i ==> a@[j] == b@[j],
        decreases a@.len() - i,
    {
        if a[i] != b[i] {
            return false;
        }
        i += 1;
    }
    proof {
        assert(a@ =~= b@);
    }
    true
}

/// A copy of an address.
pub fn copy_ids(a: &Vec<usize>) -> (copy: Vec<usize>)
    ensures
        copy@ == a@,
{
    let mut copy: Vec<usize> = Vec::new();
    let mut i: usize = 0;
    while i < a.len()
        invariant
            i <= a@.len(),
            copy@ == a@.take(i as int),
        decreases a@.len() - i,
    {
        copy.push(a[i]);
        proof {
            assert(a@.take(i as int).push(a@[i as int]) =~= a@.take(i as int + 1));
        }
        i += 1;
    }
    proof {
        assert(a@.take(a@.len() as int) =~= a@);
    }
    copy
}

} // verus!
