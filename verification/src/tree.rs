//! The mathematical model of the node table: what a well-formed table is,
//! what the address of a node is, and what each lookup returns.

use vstd::prelude::*;
use vstd::set_lib::{lemma_int_range, lemma_len_subset, set_int_range};
use crate::node_content::ContentView;

verus! {

/// An address: the local index of a node among its siblings, and the handle
/// of the node that owns the parent address.
#[derive(Debug, Clone, Copy)]
pub struct UUID {
    pub parent: Option<usize>,
    pub id: usize,
}

/// The mathematical value of a property.
pub enum PropertyView {
    Color,
    Rbind(Seq<usize>),
    Blob,
}

/// The mathematical value of one entry of the node table.
pub struct NodeView {
    pub parent: Option<usize>,
    pub uuid: UUID,
    pub cont: Seq<ContentView>,
    pub sons: Seq<usize>,
    pub prop: Seq<PropertyView>,
}

/// The mathematical value of the node table: entry `h` is the node with handle `h`.
pub type TreeView = Seq<NodeView>;

/// The handle names a node of the table.
pub open spec fn valid(t: TreeView, h: int) -> bool {
    0 <= h < t.len()
}

/// The address of a node hangs below the address of the node's parent, a
/// parent was made before its children, and a root has index 0.
pub open spec fn link_ok(t: TreeView, h: int) -> bool {
    &&& t[h].uuid.parent == t[h].parent
    &&& match t[h].parent {
        Some(p) => p < h,
        None => t[h].uuid.id == 0,
    }
}

/// The children of a node are nodes of the table that name it as their
/// parent, and none is listed twice.
pub open spec fn sons_ok(t: TreeView, h: int) -> bool {
    &&& forall|i: int|
        0 <= i < t[h].sons.len() ==> {
            let c = #[trigger] t[h].sons[i];
            c < t.len() && t[c as int].parent == Some(h as usize)
        }
    &&& t[h].sons.no_duplicates()
    &&& t[h].sons.len() <= usize::MAX
}

/// Child `i` of the node has local index `i`.
pub open spec fn numbered(t: TreeView, h: int) -> bool {
    forall|i: int| 0 <= i < t[h].sons.len() ==> t[(#[trigger] t[h].sons[i]) as int].uuid.id == i
}

/// Everything a well-formed table needs but the numbering of the children.
pub open spec fn structured(t: TreeView) -> bool {
    &&& t.len() <= usize::MAX
    &&& forall|h: int| 0 <= h < t.len() ==> #[trigger] link_ok(t, h)
    &&& forall|h: int| 0 <= h < t.len() ==> #[trigger] sons_ok(t, h)
}

/// A well-formed table: the parent links run backwards and agree with the
/// addresses, the child lists agree with the parent links, and child `i` of
/// every node has local index `i`.
pub open spec fn wf(t: TreeView) -> bool {
    &&& structured(t)
    &&& forall|h: int| 0 <= h < t.len() ==> #[trigger] numbered(t, h)
}

/// A table that a machine can hold: its nodes and the slots of each node
/// can be counted.
pub open spec fn fits(t: TreeView) -> bool {
    &&& t.len() <= usize::MAX
    &&& forall|h: int| 0 <= h < t.len() ==> (#[trigger] t[h]).cont.len() <= usize::MAX
}

/// The node is in the child list of its parent.
pub open spec fn attached(t: TreeView, c: int) -> bool {
    match t[c].parent {
        Some(p) => p < t.len() && t[p as int].sons.contains(c as usize),
        None => false,
    }
}

/// The node and each of its ancestors but the root is in the child list of
/// its parent: the node can be reached from its root.
pub open spec fn linked(t: TreeView, h: int) -> bool
    decreases h,
{
    &&& valid(t, h)
    &&& match t[h].parent {
        Some(p) => p < h && attached(t, h) && linked(t, p as int),
        None => true,
    }
}

/// Every node made after `root` hangs in the child list of its parent, and
/// that parent is `root` or was made after it: the nodes from `root` on
/// are one complete subtree.
pub open spec fn complete_below(t: TreeView, root: int) -> bool {
    forall|h: int|
        root < h < t.len() ==> #[trigger] attached(t, h) && match t[h].parent {
            Some(p) => root <= p,
            None => false,
        }
}

/// The root above a node.
pub open spec fn root_of(t: TreeView, h: int) -> int
    decreases h,
{
    if valid(t, h) {
        match t[h].parent {
            Some(p) => if p < h { root_of(t, p as int) } else { h },
            None => h,
        }
    } else {
        h
    }
}

/// The address of node `h` as a sequence: the local indices along the chain
/// of parent addresses, root first.
pub open spec fn path(t: TreeView, h: int) -> Seq<usize>
    decreases h,
{
    if valid(t, h) {
        match t[h].uuid.parent {
            Some(p) => if p < h { path(t, p as int).push(t[h].uuid.id) } else { seq![t[h].uuid.id] },
            None => seq![t[h].uuid.id],
        }
    } else {
        Seq::empty()
    }
}

/// The address `u` as a sequence, for an address that may belong to no node.
/// A parent handle that names no node counts as no parent.
pub open spec fn path_of(t: TreeView, u: UUID) -> Seq<usize> {
    match u.parent {
        Some(p) => if p < t.len() { path(t, p as int).push(u.id) } else { seq![u.id] },
        None => seq![u.id],
    }
}

/// The place of a node among its siblings; 0 for a root.
pub open spec fn position(t: TreeView, h: int) -> int {
    match t[h].parent {
        Some(p) => t[p as int].sons.index_of(h as usize),
        None => 0,
    }
}

/// The places met on the way from the root down to the node, the root's own first.
pub open spec fn position_path(t: TreeView, h: int) -> Seq<int>
    decreases h,
{
    if valid(t, h) {
        match t[h].parent {
            Some(p) => if p < h { position_path(t, p as int).push(position(t, h)) } else { seq![position(t, h)] },
            None => seq![position(t, h)],
        }
    } else {
        Seq::empty()
    }
}

/// The node `k` levels above `h`; `h` itself for `k == 0`.
pub open spec fn ancestor(t: TreeView, h: int, k: nat) -> Option<usize>
    decreases k,
{
    if k == 0 {
        Some(h as usize)
    } else {
        match t[h].parent {
            Some(p) => ancestor(t, p as int, (k - 1) as nat),
            None => None,
        }
    }
}

/// The node reached from `h` by following the child indices in `p`.
pub open spec fn descend(t: TreeView, h: int, p: Seq<usize>) -> Option<usize>
    decreases p.len(),
{
    if p.len() == 0 {
        Some(h as usize)
    } else if p[0] < t[h].sons.len() {
        descend(t, t[h].sons[p[0] as int] as int, p.skip(1))
    } else {
        None
    }
}

/// The length of the longest common prefix of two addresses.
pub open spec fn shared_len(a: Seq<usize>, b: Seq<usize>) -> nat
    decreases a.len(),
{
    if a.len() > 0 && b.len() > 0 && a[0] == b[0] {
        1 + shared_len(a.skip(1), b.skip(1))
    } else {
        0
    }
}

/// The node with address `target`, as seen from node `h`: up from `h` to the
/// deepest node whose address is a prefix of both, then down along the rest
/// of `target`.
pub open spec fn locate(t: TreeView, h: int, target: Seq<usize>) -> Option<usize> {
    let own = path(t, h);
    let n = shared_len(own, target);
    match ancestor(t, h, (own.len() - n) as nat) {
        Some(a) => descend(t, a as int, target.skip(n as int)),
        None => None,
    }
}

/// Two tables of one shape: the same nodes with the same parents, addresses
/// and children. Contents and properties may differ.
pub open spec fn same_shape(t: TreeView, u: TreeView) -> bool {
    &&& t.len() == u.len()
    &&& forall|h: int|
        0 <= h < t.len() ==> (#[trigger] u[h]).parent == t[h].parent && u[h].uuid == t[h].uuid
            && u[h].sons == t[h].sons
}

/// A node as it is made: below `parent`, with the next free local index
/// there, and empty.
pub open spec fn fresh(t: TreeView, parent: Option<usize>) -> NodeView {
    NodeView {
        parent,
        uuid: UUID {
            parent,
            id: match parent {
                Some(p) => t[p as int].sons.len() as usize,
                None => 0,
            },
        },
        cont: Seq::empty(),
        sons: Seq::empty(),
        prop: Seq::empty(),
    }
}

/// The table with the content of node `h` replaced.
pub open spec fn with_cont(t: TreeView, h: int, cont: Seq<ContentView>) -> TreeView {
    t.update(h, NodeView { cont, ..t[h] })
}

/// The table with the properties of node `h` replaced.
pub open spec fn with_prop(t: TreeView, h: int, prop: Seq<PropertyView>) -> TreeView {
    t.update(h, NodeView { prop, ..t[h] })
}

/// The table with the child list of node `h` replaced.
pub open spec fn with_sons(t: TreeView, h: int, sons: Seq<usize>) -> TreeView {
    t.update(h, NodeView { sons, ..t[h] })
}

/// The table with the local index of node `h` replaced.
pub open spec fn with_id(t: TreeView, h: int, id: usize) -> TreeView {
    t.update(h, NodeView { uuid: UUID { id, ..t[h].uuid }, ..t[h] })
}

/// The table after `c` was appended to the children of `h`: `c` is the last
/// child and its local index is its place.
pub open spec fn child_pushed(t: TreeView, h: int, c: usize) -> TreeView {
    with_id(with_sons(t, h, t[h].sons.push(c)), c as int, t[h].sons.len() as usize)
}

/// The table in which each child of `h` has its place as its local index.
pub open spec fn renumbered(t: TreeView, h: int) -> TreeView {
    Seq::new(
        t.len(),
        |k: int|
            if t[h].sons.contains(k as usize) {
                NodeView { uuid: UUID { id: t[h].sons.index_of(k as usize) as usize, ..t[k].uuid }, ..t[k] }
            } else {
                t[k]
            },
    )
}

/// The table after `c` was inserted among the children of `h` at place `idx`.
pub open spec fn child_inserted(t: TreeView, h: int, idx: int, c: usize) -> TreeView {
    renumbered(with_sons(t, h, t[h].sons.insert(idx, c)), h)
}

/// A change that keeps the shape keeps the table well formed.
pub proof fn lemma_same_shape_wf(t: TreeView, u: TreeView)
    requires
        same_shape(t, u),
    ensures
        structured(t) ==> structured(u),
        wf(t) ==> wf(u),
{
    if structured(t) {
        assert forall|h: int| 0 <= h < u.len() implies #[trigger] link_ok(u, h) by {
            assert(link_ok(t, h));
        }
        assert forall|h: int| 0 <= h < u.len() implies #[trigger] sons_ok(u, h) by {
            assert(sons_ok(t, h));
            assert forall|i: int| 0 <= i < u[h].sons.len() implies ({
                let c = #[trigger] u[h].sons[i];
                c < u.len() && u[c as int].parent == Some(h as usize)
            }) by {
                let c = t[h].sons[i];
                assert(c < t.len() && t[c as int].parent == Some(h as usize));
            }
        }
    }
    if wf(t) {
        assert forall|h: int| 0 <= h < u.len() implies #[trigger] numbered(u, h) by {
            assert(numbered(t, h));
            assert(sons_ok(t, h));
            assert forall|i: int| 0 <= i < u[h].sons.len() implies u[(#[trigger] u[h].sons[i]) as int].uuid.id == i by {
                let c = t[h].sons[i];
                assert(t[c as int].uuid.id == i);
            }
        }
    }
}

/// The second table holds every node of the first with the parent, address
/// and children it had, and maybe more nodes after them.
pub open spec fn extends(t: TreeView, u: TreeView) -> bool {
    &&& t.len() <= u.len()
    &&& forall|h: int|
        0 <= h < t.len() ==> (#[trigger] u[h]).parent == t[h].parent && u[h].uuid == t[h].uuid
            && u[h].sons == t[h].sons
}

/// Keeping the shape carries over two steps.
pub proof fn lemma_same_shape_trans(a: TreeView, b: TreeView, c: TreeView)
    requires
        same_shape(a, b),
        same_shape(b, c),
    ensures
        same_shape(a, c),
{
    assert forall|h: int| 0 <= h < a.len() implies (#[trigger] c[h]).parent == a[h].parent && c[h].uuid
        == a[h].uuid && c[h].sons == a[h].sons by {
        assert(b[h].parent == a[h].parent);
    }
}

/// Growing carries over two steps.
pub proof fn lemma_extends_trans(a: TreeView, b: TreeView, c: TreeView)
    requires
        extends(a, b),
        extends(b, c),
    ensures
        extends(a, c),
{
    assert forall|h: int| 0 <= h < a.len() implies (#[trigger] c[h]).parent == a[h].parent && c[h].uuid
        == a[h].uuid && c[h].sons == a[h].sons by {
        assert(b[h].parent == a[h].parent);
    }
}

/// A change that keeps the shape keeps which nodes hang in their parent's
/// child list.
pub proof fn lemma_same_shape_attached(t: TreeView, u: TreeView, c: int)
    requires
        same_shape(t, u),
        valid(t, c),
    ensures
        attached(u, c) == attached(t, c),
{
    assert(u[c].parent == t[c].parent);
    if let Some(p) = t[c].parent {
        if p < t.len() {
            assert(u[p as int].sons == t[p as int].sons);
        }
    }
}

/// A change that keeps the shape keeps every address.
pub proof fn lemma_same_shape_path(t: TreeView, u: TreeView, h: int)
    requires
        same_shape(t, u),
    ensures
        path(u, h) == path(t, h),
    decreases h,
{
    if valid(t, h) {
        assert(u[h].uuid == t[h].uuid);
        if let Some(p) = t[h].uuid.parent {
            if p < h {
                lemma_same_shape_path(t, u, p as int);
            }
        }
    }
}

/// The address of the node behind `p`; empty where `p` names no node.
pub open spec fn rest_path(t: TreeView, p: Option<usize>) -> Seq<usize> {
    match p {
        Some(q) => if q < t.len() { path(t, q as int) } else { Seq::empty() },
        None => Seq::empty(),
    }
}

/// The table in which the first `i` children of `h` have their places as
/// local indices.
pub open spec fn renumbered_upto(t: TreeView, h: int, i: int) -> TreeView {
    Seq::new(
        t.len(),
        |k: int|
            if t[h].sons.take(i).contains(k as usize) {
                NodeView { uuid: UUID { id: t[h].sons.index_of(k as usize) as usize, ..t[k].uuid }, ..t[k] }
            } else {
                t[k]
            },
    )
}

/// Numbering one more child is one more local index set.
pub proof fn lemma_renumbered_step(t: TreeView, h: int, i: int)
    requires
        structured(t),
        valid(t, h),
        0 <= i < t[h].sons.len(),
    ensures
        renumbered_upto(t, h, i + 1) == with_id(renumbered_upto(t, h, i), t[h].sons[i] as int, i as usize),
{
    let sons = t[h].sons;
    let c = sons[i];
    assert(sons_ok(t, h));
    let a = renumbered_upto(t, h, i + 1);
    let b = with_id(renumbered_upto(t, h, i), c as int, i as usize);
    assert(sons.take(i + 1)[i] == c);
    assert(sons.contains(c));
    assert(sons.index_of(c) == i);
    assert forall|k: int| 0 <= k < t.len() implies a[k] == b[k] by {
        if k == c {
            assert(sons.take(i + 1).contains(c));
        } else {
            let longer = sons.take(i + 1);
            let shorter = sons.take(i);
            if longer.contains(k as usize) {
                let j = longer.index_of(k as usize);
                assert(shorter[j] == k as usize);
            }
            if shorter.contains(k as usize) {
                let j = shorter.index_of(k as usize);
                assert(longer[j] == k as usize);
            }
        }
    }
    assert(a =~= b);
}

/// Renumbering the children of one node keeps the structure, numbers that
/// node, and leaves the numbering of every other node as it was.
pub proof fn lemma_renumbered_wf(t: TreeView, h: int)
    requires
        structured(t),
        valid(t, h),
    ensures
        structured(renumbered(t, h)),
        numbered(renumbered(t, h), h),
        forall|g: int| 0 <= g < t.len() && g != h && numbered(t, g) ==> numbered(renumbered(t, h), g),
{
    let u = renumbered(t, h);
    let sons = t[h].sons;
    assert(sons_ok(t, h));
    assert forall|g: int| 0 <= g < u.len() implies #[trigger] link_ok(u, g) by {
        assert(link_ok(t, g));
        if sons.contains(g as usize) {
            let j = sons.index_of(g as usize);
            assert(sons[j] == g as usize);
        }
    }
    assert forall|g: int| 0 <= g < u.len() implies #[trigger] sons_ok(u, g) by {
        assert(sons_ok(t, g));
        assert forall|i: int| 0 <= i < u[g].sons.len() implies ({
            let c = #[trigger] u[g].sons[i];
            c < u.len() && u[c as int].parent == Some(g as usize)
        }) by {
            let c = t[g].sons[i];
            assert(c < t.len() && t[c as int].parent == Some(g as usize));
        }
    }
    assert forall|i: int| 0 <= i < u[h].sons.len() implies u[(#[trigger] u[h].sons[i]) as int].uuid.id == i by {
        let c = sons[i];
        assert(sons.contains(c));
        assert(sons.index_of(c) == i);
    }
    assert forall|g: int| 0 <= g < t.len() && g != h && numbered(t, g) implies numbered(u, g) by {
        assert(sons_ok(t, g));
        assert forall|i: int| 0 <= i < u[g].sons.len() implies u[(#[trigger] u[g].sons[i]) as int].uuid.id == i by {
            let c = t[g].sons[i];
            assert(t[c as int].parent == Some(g as usize));
            if sons.contains(c) {
                let j = sons.index_of(c);
                assert(sons[j] == c);
                assert(t[sons[j] as int].parent == Some(h as usize));
            }
            assert(t[c as int].uuid.id == i);
        }
    }
}

/// Appending a loose child of `h` to the children of `h` keeps the table
/// well formed.
pub proof fn lemma_child_pushed_wf(t: TreeView, h: int, c: usize)
    requires
        wf(t),
        valid(t, h),
        valid(t, c as int),
        t[c as int].parent == Some(h as usize),
        !attached(t, c as int),
        t[h].sons.len() < usize::MAX,
    ensures
        wf(child_pushed(t, h, c)),
{
    let u = child_pushed(t, h, c);
    let n = t[h].sons.len();
    assert(link_ok(t, c as int));
    assert(sons_ok(t, h));
    assert forall|g: int| 0 <= g < u.len() implies #[trigger] link_ok(u, g) by {
        assert(link_ok(t, g));
    }
    assert forall|g: int| 0 <= g < u.len() implies #[trigger] sons_ok(u, g) by {
        assert(sons_ok(t, g));
        assert forall|i: int| 0 <= i < u[g].sons.len() implies ({
            let d = #[trigger] u[g].sons[i];
            d < u.len() && u[d as int].parent == Some(g as usize)
        }) by {
            if g == h && i == n {
            } else {
                let d = t[g].sons[i];
                assert(d < t.len() && t[d as int].parent == Some(g as usize));
            }
        }
    }
    assert forall|g: int| 0 <= g < u.len() implies #[trigger] numbered(u, g) by {
        assert(numbered(t, g));
        assert(sons_ok(t, g));
        assert forall|i: int| 0 <= i < u[g].sons.len() implies u[(#[trigger] u[g].sons[i]) as int].uuid.id == i by {
            if g == h && i == n {
            } else {
                let d = t[g].sons[i];
                assert(t[d as int].parent == Some(g as usize));
                assert(t[d as int].uuid.id == i);
                if d == c {
                    assert(t[h].sons.contains(c));
                }
            }
        }
    }
}

/// Inserting a loose child of `h` among the children of `h` keeps the
/// structure, and the numbering of every other node.
pub proof fn lemma_child_inserted_structured(t: TreeView, h: int, idx: int, c: usize)
    requires
        wf(t),
        valid(t, h),
        valid(t, c as int),
        t[c as int].parent == Some(h as usize),
        !attached(t, c as int),
        0 <= idx <= t[h].sons.len(),
        t[h].sons.len() < usize::MAX,
    ensures
        structured(with_sons(t, h, t[h].sons.insert(idx, c))),
        forall|g: int|
            0 <= g < t.len() && g != h ==> numbered(with_sons(t, h, t[h].sons.insert(idx, c)), g),
{
    let sons = t[h].sons;
    let ins = sons.insert(idx, c);
    let u = with_sons(t, h, ins);
    assert(sons_ok(t, h));
    sons.insert_ensures(idx, c);
    assert forall|g: int| 0 <= g < u.len() implies #[trigger] link_ok(u, g) by {
        assert(link_ok(t, g));
    }
    assert forall|i: int, j: int| 0 <= i < ins.len() && 0 <= j < ins.len() && i != j implies ins[i] != ins[j] by {
        let oi = if i < idx { i } else { i - 1 };
        let oj = if j < idx { j } else { j - 1 };
        if i == idx {
            assert(ins[j] == sons[oj]);
            if sons[oj] == c {
                assert(sons.contains(c));
            }
        } else if j == idx {
            assert(ins[i] == sons[oi]);
            if sons[oi] == c {
                assert(sons.contains(c));
            }
        } else {
            assert(ins[i] == sons[oi]);
            assert(ins[j] == sons[oj]);
        }
    }
    assert forall|g: int| 0 <= g < u.len() implies #[trigger] sons_ok(u, g) by {
        assert(sons_ok(t, g));
        assert forall|i: int| 0 <= i < u[g].sons.len() implies ({
            let d = #[trigger] u[g].sons[i];
            d < u.len() && u[d as int].parent == Some(g as usize)
        }) by {
            if g == h {
                if i != idx {
                    let oi = if i < idx { i } else { i - 1 };
                    assert(ins[i] == sons[oi]);
                    assert(sons[oi] < t.len() && t[sons[oi] as int].parent == Some(h as usize));
                }
            } else {
                let d = t[g].sons[i];
                assert(d < t.len() && t[d as int].parent == Some(g as usize));
            }
        }
    }
    assert forall|g: int| 0 <= g < t.len() && g != h implies numbered(u, g) by {
        assert(numbered(t, g));
        assert(sons_ok(t, g));
        assert forall|i: int| 0 <= i < u[g].sons.len() implies u[(#[trigger] u[g].sons[i]) as int].uuid.id == i by {
            let d = t[g].sons[i];
            assert(t[d as int].uuid.id == i);
        }
    }
}

/// A number is the length of the longest common prefix of two sequences
/// when they agree before it and part ways at it.
pub proof fn lemma_shared_len(a: Seq<usize>, b: Seq<usize>, n: nat)
    requires
        n <= a.len(),
        n <= b.len(),
        forall|j: int| 0 <= j < n ==> a[j] == b[j],
        n < a.len() && n < b.len() ==> a[n as int] != b[n as int],
    ensures
        shared_len(a, b) == n,
    decreases n,
{
    if n > 0 {
        lemma_shared_len(a.skip(1), b.skip(1), (n - 1) as nat);
    }
}

/// A node that has a loose node beside its children has fewer children
/// than the table has nodes.
pub proof fn lemma_sons_room(t: TreeView, h: int, c: int)
    requires
        wf(t),
        valid(t, h),
        valid(t, c),
        !t[h].sons.contains(c as usize),
    ensures
        t[h].sons.len() < t.len(),
{
    let sons = t[h].sons;
    let handles = Seq::new(sons.len(), |i: int| sons[i] as int);
    assert(sons_ok(t, h));
    assert(handles.no_duplicates()) by {
        assert forall|i: int, j: int|
            0 <= i < handles.len() && 0 <= j < handles.len() && i != j implies handles[i] != handles[j] by {
            assert(sons[i] != sons[j]);
        }
    }
    handles.unique_seq_to_set();
    let all = set_int_range(0, t.len() as int);
    lemma_int_range(0, t.len() as int);
    let others = all.remove(c);
    assert forall|v: int| handles.to_set().contains(v) implies others.contains(v) by {
        let i = choose|i: int| 0 <= i < handles.len() && handles[i] == v;
        assert(sons[i] < t.len());
        if v == c {
            assert(sons[i] == c as usize);
        }
    }
    lemma_len_subset(handles.to_set(), others);
}

/// Making a node keeps the table well formed, and the node is loose.
pub proof fn lemma_fresh_wf(t: TreeView, parent: Option<usize>)
    requires
        wf(t),
        t.len() < usize::MAX,
        parent matches Some(p) ==> p < t.len(),
    ensures
        wf(t.push(fresh(t, parent))),
        extends(t, t.push(fresh(t, parent))),
        !attached(t.push(fresh(t, parent)), t.len() as int),
{
    let u = t.push(fresh(t, parent));
    let this = t.len() as int;
    assert forall|h: int| 0 <= h < u.len() implies #[trigger] link_ok(u, h) by {
        if h < t.len() {
            assert(link_ok(t, h));
        }
    }
    assert forall|h: int| 0 <= h < u.len() implies #[trigger] sons_ok(u, h) by {
        if h < t.len() {
            assert(sons_ok(t, h));
        }
    }
    assert forall|h: int| 0 <= h < u.len() implies #[trigger] numbered(u, h) by {
        if h < t.len() {
            assert(numbered(t, h));
            assert(sons_ok(t, h));
        }
    }
    if let Some(p) = parent {
        assert(sons_ok(t, p as int));
        if u[p as int].sons.contains(this as usize) {
            let i = t[p as int].sons.index_of(this as usize);
            assert(t[p as int].sons[i] < t.len());
        }
    }
}

} // verus!
