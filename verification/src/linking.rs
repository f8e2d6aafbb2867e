//! Lazy linking is right. While a tree is under construction every node
//! made so far can be found from the node that is being filled, so a
//! reference is queued only for an address that no node has yet; what is
//! still queued at the end waits for addresses that no node has; and for
//! every link that is still open at the end a resolution is queued.

use vstd::prelude::*;
use crate::grammar::{spec_get_depth, spec_node_line};
use crate::laws::{lemma_attached_child, lemma_descend_push};
use crate::node::ElementView;
use crate::node_content::ContentView;
use crate::parser::{line_built, spec_children, spec_node};
use crate::registry::{applied, fired, lemma_applied_wf, others, placed, populated, PendingView};
use crate::tree::{
    ancestor, attached, child_pushed, descend, extends, fits, fresh, lemma_child_pushed_wf,
    lemma_fresh_wf, lemma_same_shape_attached, lemma_same_shape_path, lemma_same_shape_trans,
    lemma_same_shape_wf, lemma_shared_len, lemma_sons_room, link_ok, locate, path, same_shape,
    sons_ok, valid, wf, with_sons, TreeView,
};

verus! {

/// `h` is `x` or one of the ancestors of `x`.
pub open spec fn on_chain(t: TreeView, x: int, h: int) -> bool
    decreases x,
{
    valid(t, x) && (h == x || match t[x].parent {
        Some(p) => p < x && on_chain(t, p as int, h),
        None => false,
    })
}

/// The nodes from `root` down to `x` are under construction: each of them
/// below `root` is not yet among the children of its parent, and has the
/// local index that it will have there.
pub open spec fn chain_ok(t: TreeView, root: int, x: int) -> bool
    decreases x,
{
    valid(t, x) && root <= x && (x == root || match t[x].parent {
        Some(p) => root <= p < x && !attached(t, x) && t[x].uuid.id == t[p as int].sons.len()
            && chain_ok(t, root, p as int),
        None => false,
    })
}

/// Every node made from `root` on that is not under construction hangs in
/// the child list of its parent, which was made from `root` on too.
pub open spec fn hung(t: TreeView, root: int, x: int) -> bool {
    forall|h: int|
        root <= h < t.len() && !on_chain(t, x, h) ==> #[trigger] attached(t, h) && match t[h].parent {
            Some(p) => root <= p,
            None => false,
        }
}

/// A tree under construction, with `x` the node that is being filled.
pub open spec fn frontier(t: TreeView, root: int, x: int) -> bool {
    0 <= root && wf(t) && chain_ok(t, root, x) && hung(t, root, x)
}

/// `h` is `a`, or hangs below `a` by child lists all the way.
pub open spec fn hangs_from(t: TreeView, a: int, h: int) -> bool
    decreases h,
{
    valid(t, h) && (h == a || match t[h].parent {
        Some(p) => p < h && attached(t, h) && hangs_from(t, a, p as int),
        None => false,
    })
}

/// A node that hangs below another has an address that starts with the
/// other's, the rest of it leads down from the other to the node, and it
/// starts with the index of a child that the other has.
proof fn lemma_hangs_from(t: TreeView, a: int, h: int)
    requires
        wf(t),
        valid(t, a),
        hangs_from(t, a, h),
    ensures
        path(t, a).len() <= path(t, h).len(),
        path(t, h).take(path(t, a).len() as int) == path(t, a),
        descend(t, a, path(t, h).skip(path(t, a).len() as int)) == Some(h as usize),
        h != a ==> path(t, a).len() < path(t, h).len() && path(t, h)[path(t, a).len() as int] < t[a].sons.len(),
    decreases h,
{
    let n = path(t, a).len() as int;
    if h == a {
        assert(path(t, h).take(n) =~= path(t, a));
        assert(path(t, h).skip(n) =~= Seq::<usize>::empty());
    } else {
        assert(link_ok(t, h));
        let p = t[h].parent->0 as int;
        lemma_hangs_from(t, a, p);
        lemma_attached_child(t, h);
        let up = path(t, p);
        let own = path(t, h);
        assert(own == up.push(t[h].uuid.id));
        assert(own.take(n) =~= up.take(n));
        lemma_descend_push(t, a, up.skip(n), t[h].uuid.id);
        assert(up.skip(n).push(t[h].uuid.id) =~= own.skip(n));
        if p != a {
            assert(own[n] == up[n]);
        }
    }
}

/// A node under construction is so many levels above the node being
/// filled as its address is shorter, and where it is not that node itself,
/// the address of that node goes on with an index that is no child yet.
proof fn lemma_on_chain(t: TreeView, root: int, x: int, a: int)
    requires
        wf(t),
        chain_ok(t, root, x),
        on_chain(t, x, a),
        root <= a,
    ensures
        path(t, a).len() <= path(t, x).len(),
        ancestor(t, x, (path(t, x).len() - path(t, a).len()) as nat) == Some(a as usize),
        path(t, x).take(path(t, a).len() as int) == path(t, a),
        a != x ==> path(t, a).len() < path(t, x).len() && path(t, x)[path(t, a).len() as int]
            == t[a].sons.len(),
    decreases x,
{
    let own = path(t, x);
    let n = path(t, a).len() as int;
    assert(link_ok(t, x));
    if a == x {
        assert(own.take(n) =~= own);
    } else {
        let p = t[x].parent->0 as int;
        assert(chain_ok(t, root, p)) by {
            if x == root {
                lemma_chain_above_root(t, x, a);
            }
        }
        lemma_on_chain(t, root, p, a);
        let up = path(t, p);
        assert(own == up.push(t[x].uuid.id));
        assert(own.take(n) =~= up.take(n));
        if a != p {
            assert(own[n] == up[n]);
        }
    }
}

/// An ancestor of a node was made before the node.
proof fn lemma_chain_above_root(t: TreeView, x: int, a: int)
    requires
        wf(t),
        on_chain(t, x, a),
    ensures
        a <= x,
        valid(t, a),
    decreases x,
{
    assert(link_ok(t, x));
    if a != x {
        lemma_chain_above_root(t, t[x].parent->0 as int, a);
    }
}

/// Each node made from the root on hangs below a node under construction;
/// the lemma hands back that node.
proof fn lemma_anchor(t: TreeView, root: int, x: int, h: int) -> (a: int)
    requires
        frontier(t, root, x),
        root <= h < t.len(),
    ensures
        root <= a,
        on_chain(t, x, a),
        hangs_from(t, a, h),
    decreases h,
{
    if on_chain(t, x, h) {
        h
    } else {
        assert(attached(t, h));
        assert(link_ok(t, h));
        lemma_anchor(t, root, x, t[h].parent->0 as int)
    }
}

/// While a tree is under construction, the lookup of the address of any
/// node made so far, from the node that is being filled, finds that node.
pub proof fn lemma_visible(t: TreeView, root: int, x: int, h: int)
    requires
        frontier(t, root, x),
        root <= h < t.len(),
    ensures
        locate(t, x, path(t, h)) == Some(h as usize),
{
    let a = lemma_anchor(t, root, x, h);
    lemma_chain_above_root(t, x, a);
    lemma_on_chain(t, root, x, a);
    lemma_hangs_from(t, a, h);
    let own = path(t, x);
    let target = path(t, h);
    let n = path(t, a).len();
    assert forall|j: int| 0 <= j < n implies own[j] == target[j] by {
        assert(own.take(n as int)[j] == target.take(n as int)[j]);
    }
    assert(sons_ok(t, a));
    lemma_shared_len(own, target, n);
}

/// Among the nodes made from `root` on, none but `except` has an address
/// that a resolution waits for.
pub open spec fn unmet(t: TreeView, pending: Seq<PendingView>, root: int, except: int) -> bool {
    forall|i: int, h: int|
        #![trigger pending[i], path(t, h)]
        0 <= i < pending.len() && root <= h < t.len() && h != except ==> path(t, h) != pending[i].target
}

/// A table that grew keeps the addresses of the nodes it had.
proof fn lemma_extends_path(t: TreeView, u: TreeView, h: int)
    requires
        wf(t),
        extends(t, u),
        valid(t, h),
    ensures
        path(u, h) == path(t, h),
    decreases h,
{
    assert(link_ok(t, h));
    assert(u[h].uuid == t[h].uuid);
    if let Some(p) = t[h].parent {
        lemma_extends_path(t, u, p as int);
    }
}

/// A table that grew keeps which of the nodes it had are under construction.
proof fn lemma_extends_chain(t: TreeView, u: TreeView, root: int, x: int, h: int)
    requires
        wf(t),
        wf(u),
        extends(t, u),
        valid(t, x),
    ensures
        on_chain(u, x, h) == on_chain(t, x, h),
        chain_ok(u, root, x) == chain_ok(t, root, x),
    decreases x,
{
    assert(link_ok(t, x));
    assert(u[x].parent == t[x].parent && u[x].uuid == t[x].uuid);
    if let Some(p) = t[x].parent {
        lemma_extends_chain(t, u, root, p as int, h);
        assert(u[p as int].sons == t[p as int].sons);
    }
}

/// A change that keeps the shape keeps a tree under construction as it is.
proof fn lemma_shape_frontier(t: TreeView, u: TreeView, root: int, x: int)
    requires
        same_shape(t, u),
        frontier(t, root, x),
    ensures
        frontier(u, root, x),
        forall|h: int| path(u, h) == #[trigger] path(t, h),
{
    lemma_same_shape_wf(t, u);
    assert(extends(t, u));
    lemma_extends_chain(t, u, root, x, x);
    assert forall|h: int| root <= h < u.len() && !on_chain(u, x, h) implies #[trigger] attached(u, h) && match u[h].parent {
        Some(p) => root <= p,
        None => false,
    } by {
        lemma_extends_chain(t, u, root, x, h);
        assert(attached(t, h));
        lemma_same_shape_attached(t, u, h);
        assert(u[h].parent == t[h].parent);
    }
    assert forall|h: int| path(u, h) == #[trigger] path(t, h) by {
        lemma_same_shape_path(t, u, h);
    }
}

/// Filling a node queues resolutions only for addresses that no node has.
proof fn lemma_populated_unmet(
    t: TreeView,
    pending: Seq<PendingView>,
    root: int,
    x: int,
    elements: Seq<ElementView>,
)
    requires
        frontier(t, root, x),
        unmet(t, pending, root, x),
    ensures
        same_shape(t, populated(t, pending, x, elements).0),
        frontier(populated(t, pending, x, elements).0, root, x),
        unmet(populated(t, pending, x, elements).0, populated(t, pending, x, elements).1, root, x),
    decreases elements.len(),
{
    if elements.len() == 0 {
        lemma_shape_frontier(t, t, root, x);
    } else {
        lemma_populated_unmet(t, pending, root, x, elements.drop_last());
        let before = populated(t, pending, x, elements.drop_last());
        let after = placed(before.0, before.1, x, elements.last());
        assert(same_shape(before.0, after.0));
        lemma_same_shape_trans(t, before.0, after.0);
        lemma_shape_frontier(before.0, after.0, root, x);
        assert forall|i: int, h: int|
            #![trigger after.1[i], path(after.0, h)]
            0 <= i < after.1.len() && root <= h < after.0.len() && h != x implies path(after.0, h)
                != after.1[i].target by {
            assert(path(after.0, h) == path(before.0, h));
            if i < before.1.len() {
                assert(after.1[i] == before.1[i]);
                assert(path(before.0, h) != before.1[i].target);
            } else {
                lemma_visible(before.0, root, x, h);
            }
        }
    }
}

/// Carrying out resolutions keeps the shape of the table.
proof fn lemma_fired_shape(t: TreeView, pending: Seq<PendingView>, target: Seq<usize>, link: usize)
    ensures
        same_shape(t, fired(t, pending, target, link)),
    decreases pending.len(),
{
    if pending.len() > 0 {
        lemma_fired_shape(t, pending.drop_last(), target, link);
        let before = fired(t, pending.drop_last(), target, link);
        lemma_applied_wf(before, pending.last(), link);
        lemma_same_shape_trans(t, before, fired(t, pending, target, link));
    }
}

/// What is left after resolutions were taken off was there before, and
/// does not wait for the address they waited for.
proof fn lemma_others_were_there(pending: Seq<PendingView>, target: Seq<usize>, i: int) -> (j: int)
    requires
        0 <= i < others(pending, target).len(),
    ensures
        0 <= j < pending.len(),
        pending[j] == others(pending, target)[i],
        pending[j].target != target,
    decreases pending.len(),
{
    let before = others(pending.drop_last(), target);
    if pending.last().target != target && i == before.len() {
        pending.len() - 1
    } else {
        lemma_others_were_there(pending.drop_last(), target, i)
    }
}

/// Appending the node that was being filled to its parent, which is then
/// the one being filled, keeps a tree under construction, and changes no
/// address.
proof fn lemma_push_frontier(t: TreeView, root: int, x: int, c: int)
    requires
        frontier(t, root, c),
        c != root,
        valid(t, x),
        t[c].parent == Some(x as usize),
    ensures
        frontier(child_pushed(t, x, c as usize), root, x),
        child_pushed(t, x, c as usize).len() == t.len(),
        forall|h: int| path(child_pushed(t, x, c as usize), h) == #[trigger] path(t, h),
{
    let u = child_pushed(t, x, c as usize);
    assert(link_ok(t, c));
    assert(sons_ok(t, x));
    lemma_sons_room(t, x, c);
    lemma_child_pushed_wf(t, x, c as usize);
    assert(u =~= with_sons(t, x, t[x].sons.push(c as usize)));
    assert forall|h: int| path(u, h) == #[trigger] path(t, h) by {
        lemma_sons_path(t, u, h);
    }
    lemma_sons_chain(t, u, root, x, x, x);
    assert forall|h: int| root <= h < u.len() && !on_chain(u, x, h) implies #[trigger] attached(u, h) && match u[h].parent {
        Some(p) => root <= p,
        None => false,
    } by {
        lemma_sons_chain(t, u, root, x, x, h);
        if h == c {
            assert(u[x].sons[t[x].sons.len() as int] == c);
        } else {
            assert(!on_chain(t, c, h));
            assert(attached(t, h));
            let p = t[h].parent->0 as int;
            let i = t[p].sons.index_of(h as usize);
            assert(u[p].sons[i] == h);
        }
    }
}

/// A change of one child list changes no address.
proof fn lemma_sons_path(t: TreeView, u: TreeView, h: int)
    requires
        t.len() == u.len(),
        forall|g: int| 0 <= g < t.len() ==> (#[trigger] u[g]).parent == t[g].parent && u[g].uuid == t[g].uuid,
    ensures
        path(u, h) == path(t, h),
    decreases h,
{
    if valid(t, h) {
        assert(u[h].uuid == t[h].uuid);
        if let Some(p) = t[h].uuid.parent {
            if p < h {
                lemma_sons_path(t, u, p as int);
            }
        }
    }
}

/// Appending a child to the node `x` leaves the nodes from the root down
/// to `x` under construction.
proof fn lemma_sons_chain(t: TreeView, u: TreeView, root: int, x: int, y: int, h: int)
    requires
        wf(t),
        valid(t, x),
        valid(t, y),
        y <= x,
        u == with_sons(t, x, t[x].sons.push(u[x].sons.last())),
    ensures
        on_chain(u, y, h) == on_chain(t, y, h),
        chain_ok(u, root, y) == chain_ok(t, root, y),
    decreases y,
{
    assert(link_ok(t, y));
    if let Some(p) = t[y].parent {
        lemma_sons_chain(t, u, root, x, p as int, h);
        if attached(u, y) && !attached(t, y) {
            let i = u[p as int].sons.index_of(y as usize);
            assert(u[p as int].sons[i] == y);
        }
        if attached(t, y) {
            let i = t[p as int].sons.index_of(y as usize);
            assert(u[p as int].sons[i] == y);
        }
    }
}

/// Filling a node keeps the shape of the table.
proof fn lemma_populated_shape(t: TreeView, pending: Seq<PendingView>, x: int, elements: Seq<ElementView>)
    requires
        valid(t, x),
    ensures
        same_shape(t, populated(t, pending, x, elements).0),
    decreases elements.len(),
{
    if elements.len() > 0 {
        lemma_populated_shape(t, pending, x, elements.drop_last());
        let before = populated(t, pending, x, elements.drop_last());
        let after = placed(before.0, before.1, x, elements.last());
        assert(same_shape(before.0, after.0));
        lemma_same_shape_trans(t, before.0, after.0);
    }
}

/// A node line adds one node to the table.
proof fn lemma_line_grows(
    t: TreeView,
    pending: Seq<PendingView>,
    parent: Option<usize>,
    elements: Seq<ElementView>,
)
    ensures
        line_built(t, pending, parent, elements).0.len() == t.len() + 1,
{
    let made = t.push(fresh(t, parent));
    let filled = populated(made, pending, t.len() as int, elements);
    lemma_populated_shape(made, pending, t.len() as int, elements);
    lemma_fired_shape(filled.0, filled.1, path(filled.0, t.len() as int), t.len() as usize);
}

/// The construction of a node makes the node next in the table, and the
/// table only grows.
proof fn lemma_node_grows(s: Seq<char>, t: TreeView, pending: Seq<PendingView>, parent: Option<usize>)
    ensures
        spec_node(s, t, pending, parent) matches Ok(b) ==> t.len() < b.tree.len() && b.node < b.tree.len()
            && b.node == t.len() as usize,
    decreases s.len(), 0nat,
{
    if let Ok((_, depth)) = spec_get_depth(s) {
        if let Ok((rest, elements)) = spec_node_line(s) {
            let made = line_built(t, pending, parent, elements);
            lemma_line_grows(t, pending, parent, elements);
            if rest.len() < s.len() {
                lemma_children_grows(rest, made.0, made.1, t.len() as usize, depth);
            }
        }
    }
}

/// The construction of the children only lets the table grow.
proof fn lemma_children_grows(
    s: Seq<char>,
    t: TreeView,
    pending: Seq<PendingView>,
    node: usize,
    depth: usize,
)
    requires
        node < t.len(),
    ensures
        spec_children(s, t, pending, node, depth) matches Ok(b) ==> t.len() <= b.tree.len() && b.node == node,
    decreases s.len(), 1nat,
{
    if s.len() > 0 {
        if let Ok((_, next_depth)) = spec_get_depth(s) {
            if depth < next_depth {
                if let Ok(child) = spec_node(s, t, pending, Some(node)) {
                    lemma_node_grows(s, t, pending, Some(node));
                    if child.rest.len() < s.len() {
                        lemma_children_grows(
                            child.rest,
                            child_pushed(child.tree, node as int, child.node),
                            child.pending,
                            node,
                            depth,
                        );
                    }
                }
            }
        }
    }
}

/// The state in which a node can be made below `parent`: the tree from
/// `root` on is under construction with `parent` being filled, or there is
/// no tree yet and the node will be its root.
pub open spec fn ready(t: TreeView, root: int, parent: Option<usize>) -> bool {
    wf(t) && match parent {
        Some(x) => frontier(t, root, x as int),
        None => root == t.len(),
    }
}

/// After a node line was made into a node, that node is the one being
/// filled in a tree under construction, and no resolution waits for an
/// address that a node has.
proof fn lemma_line_links(
    t: TreeView,
    pending: Seq<PendingView>,
    parent: Option<usize>,
    root: int,
    elements: Seq<ElementView>,
)
    requires
        ready(t, root, parent),
        unmet(t, pending, root, -1),
        t.len() < usize::MAX,
    ensures
        frontier(line_built(t, pending, parent, elements).0, root, t.len() as int),
        unmet(line_built(t, pending, parent, elements).0, line_built(t, pending, parent, elements).1, root, -1),
        line_built(t, pending, parent, elements).0[t.len() as int].parent == parent,
{
    let node = t.len() as int;
    let made = t.push(fresh(t, parent));
    lemma_fresh_wf(t, parent);
    assert(chain_ok(made, root, node)) by {
        if let Some(x) = parent {
            lemma_extends_chain(t, made, root, x as int, x as int);
            assert(sons_ok(t, x as int));
        }
    }
    assert(hung(made, root, node)) by {
        assert forall|h: int| root <= h < made.len() && !on_chain(made, node, h) implies #[trigger] attached(
            made,
            h,
        ) && match made[h].parent {
            Some(p) => root <= p,
            None => false,
        } by {
            if let Some(x) = parent {
                lemma_extends_chain(t, made, root, x as int, h);
                assert(attached(t, h));
                assert(link_ok(t, h));
                assert(made[t[h].parent->0 as int].sons == t[t[h].parent->0 as int].sons);
            }
        }
    }
    assert(unmet(made, pending, root, node)) by {
        assert forall|i: int, h: int|
            #![trigger pending[i], path(made, h)]
            0 <= i < pending.len() && root <= h < made.len() && h != node implies path(made, h)
                != pending[i].target by {
            lemma_extends_path(t, made, h);
            assert(path(t, h) != pending[i].target);
        }
    }
    lemma_populated_unmet(made, pending, root, node, elements);
    let filled = populated(made, pending, node, elements);
    let own = path(filled.0, node);
    let linked = fired(filled.0, filled.1, own, node as usize);
    let left = others(filled.1, own);
    lemma_fired_shape(filled.0, filled.1, own, node as usize);
    lemma_shape_frontier(filled.0, linked, root, node);
    assert(linked[node].parent == made[node].parent);
    assert forall|i: int, h: int|
        #![trigger left[i], path(linked, h)]
        0 <= i < left.len() && root <= h < linked.len() implies path(linked, h) != left[i].target by {
        let j = lemma_others_were_there(filled.1, own, i);
        assert(path(linked, h) == path(filled.0, h));
        if h != node {
            assert(path(filled.0, h) != filled.1[j].target);
        }
    }
}

/// The construction of a node leaves a tree under construction in which
/// that node is the one being filled, and no resolution waits for an
/// address that a node has.
proof fn lemma_node_links(
    s: Seq<char>,
    t: TreeView,
    pending: Seq<PendingView>,
    parent: Option<usize>,
    root: int,
)
    requires
        ready(t, root, parent),
        unmet(t, pending, root, -1),
        spec_node(s, t, pending, parent) matches Ok(b) && b.tree.len() <= usize::MAX,
    ensures
        spec_node(s, t, pending, parent) matches Ok(b) && frontier(b.tree, root, t.len() as int) && unmet(
            b.tree,
            b.pending,
            root,
            -1,
        ) && b.node == t.len() && b.tree[t.len() as int].parent == parent,
    decreases s.len(), 0nat,
{
    let depth = spec_get_depth(s)->Ok_0.1;
    let rest = spec_node_line(s)->Ok_0.0;
    let elements = spec_node_line(s)->Ok_0.1;
    let made = line_built(t, pending, parent, elements);
    lemma_line_grows(t, pending, parent, elements);
    lemma_children_grows(rest, made.0, made.1, t.len() as usize, depth);
    lemma_node_grows(s, t, pending, parent);
    lemma_line_links(t, pending, parent, root, elements);
    lemma_children_links(rest, made.0, made.1, t.len() as usize, depth, root);
}

/// The construction of the children of the node being filled leaves the
/// tree under construction with that node still the one being filled, and
/// no resolution waits for an address that a node has.
proof fn lemma_children_links(
    s: Seq<char>,
    t: TreeView,
    pending: Seq<PendingView>,
    node: usize,
    depth: usize,
    root: int,
)
    requires
        frontier(t, root, node as int),
        unmet(t, pending, root, -1),
        spec_children(s, t, pending, node, depth) matches Ok(b) && b.tree.len() <= usize::MAX,
    ensures
        spec_children(s, t, pending, node, depth) matches Ok(b) && frontier(b.tree, root, node as int)
            && unmet(b.tree, b.pending, root, -1) && b.tree[node as int].parent == t[node as int].parent,
    decreases s.len(), 1nat,
{
    if s.len() > 0 {
        let next_depth = spec_get_depth(s)->Ok_0.1;
        if depth < next_depth {
            let child = spec_node(s, t, pending, Some(node))->Ok_0;
            let pushed = child_pushed(child.tree, node as int, child.node);
            lemma_node_grows(s, t, pending, Some(node));
            lemma_children_grows(child.rest, pushed, child.pending, node, depth);
            lemma_node_links(s, t, pending, Some(node), root);
            lemma_push_frontier(child.tree, root, node as int, child.node as int);
            assert(unmet(pushed, child.pending, root, -1)) by {
                assert forall|i: int, h: int|
                    #![trigger child.pending[i], path(pushed, h)]
                    0 <= i < child.pending.len() && root <= h < pushed.len() implies path(pushed, h)
                        != child.pending[i].target by {
                    assert(path(pushed, h) == path(child.tree, h));
                    assert(path(child.tree, h) != child.pending[i].target);
                }
            }
            lemma_children_links(child.rest, pushed, child.pending, node, depth, root);
            lemma_node_keeps_parent(s, t, pending, node);
        }
    }
}

/// The construction of a child changes the parent link of no node that was
/// there.
proof fn lemma_node_keeps_parent(s: Seq<char>, t: TreeView, pending: Seq<PendingView>, node: usize)
    requires
        wf(t),
        node < t.len(),
        spec_node(s, t, pending, Some(node)) matches Ok(b) && b.tree.len() <= usize::MAX,
    ensures
        spec_node(s, t, pending, Some(node)) matches Ok(b) && child_pushed(
            b.tree,
            node as int,
            b.node,
        )[node as int].parent == t[node as int].parent,
{
    lemma_node_grows(s, t, pending, Some(node));
    lemma_node_extends(s, t, pending, Some(node));
}

/// The construction of a node leaves the nodes that were there with the
/// parent link they had.
proof fn lemma_node_extends(s: Seq<char>, t: TreeView, pending: Seq<PendingView>, parent: Option<usize>)
    ensures
        spec_node(s, t, pending, parent) matches Ok(b) ==> forall|h: int|
            0 <= h < t.len() ==> (#[trigger] b.tree[h]).parent == t[h].parent && b.tree[h].cont.len()
                == t[h].cont.len(),
    decreases s.len(), 0nat,
{
    if let Ok((_, depth)) = spec_get_depth(s) {
        if let Ok((rest, elements)) = spec_node_line(s) {
            let made = line_built(t, pending, parent, elements);
            let grown = t.push(fresh(t, parent));
            let filled = populated(grown, pending, t.len() as int, elements);
            lemma_populated_shape(grown, pending, t.len() as int, elements);
            lemma_populated_frame(grown, pending, t.len() as int, elements);
            lemma_fired_shape(filled.0, filled.1, path(filled.0, t.len() as int), t.len() as usize);
            lemma_fired_only_sets(filled.0, filled.1, path(filled.0, t.len() as int), t.len() as usize);
            if rest.len() < s.len() {
                lemma_children_extends(rest, made.0, made.1, t.len() as usize, depth);
                if let Ok(b) = spec_node(s, t, pending, parent) {
                    assert forall|h: int| 0 <= h < t.len() implies (#[trigger] b.tree[h]).parent == t[h].parent
                        && b.tree[h].cont.len() == t[h].cont.len() by {
                        assert(made.0[h].parent == filled.0[h].parent);
                        assert(filled.0[h].parent == grown[h].parent);
                        assert(made.0[h].cont.len() == filled.0[h].cont.len());
                        assert(filled.0[h].cont == grown[h].cont);
                    }
                }
            }
        }
    }
}

/// The construction of the children leaves the nodes that were there with
/// the parent link they had.
proof fn lemma_children_extends(
    s: Seq<char>,
    t: TreeView,
    pending: Seq<PendingView>,
    node: usize,
    depth: usize,
)
    requires
        node < t.len(),
    ensures
        spec_children(s, t, pending, node, depth) matches Ok(b) ==> t.len() <= b.tree.len() && forall|h: int|
            0 <= h < t.len() ==> (#[trigger] b.tree[h]).parent == t[h].parent && b.tree[h].cont.len()
                == t[h].cont.len(),
    decreases s.len(), 1nat,
{
    if s.len() > 0 {
        if let Ok((_, next_depth)) = spec_get_depth(s) {
            if depth < next_depth {
                if let Ok(child) = spec_node(s, t, pending, Some(node)) {
                    if child.rest.len() < s.len() {
                        let pushed = child_pushed(child.tree, node as int, child.node);
                        lemma_node_extends(s, t, pending, Some(node));
                        lemma_node_grows(s, t, pending, Some(node));
                        lemma_children_extends(child.rest, pushed, child.pending, node, depth);
                        if let Ok(b) = spec_children(s, t, pending, node, depth) {
                            assert forall|h: int| 0 <= h < t.len() implies (#[trigger] b.tree[h]).parent
                                == t[h].parent && b.tree[h].cont.len() == t[h].cont.len() by {
                                assert(pushed[h].parent == child.tree[h].parent);
                                assert(pushed[h].cont == child.tree[h].cont);
                            }
                        }
                    }
                }
            }
        }
    }
}

/// What is left waiting when a tree has been built waits for addresses
/// that no node of the tree has: every reference and blob whose target was
/// made, before it or after it, has been linked.
pub proof fn unresolved_are_absent(s: Seq<char>, t: TreeView, pending: Seq<PendingView>)
    requires
        wf(t),
        spec_node(s, t, pending, None) matches Ok(b) && b.tree.len() <= usize::MAX,
    ensures
        spec_node(s, t, pending, None) matches Ok(b) && forall|i: int, h: int|
            #![trigger b.pending[i], path(b.tree, h)]
            0 <= i < b.pending.len() && t.len() <= h < b.tree.len() ==> path(b.tree, h) != b.pending[i].target,
{
    lemma_node_links(s, t, pending, None, t.len() as int);
}

/// The slot of a resolution holds an element of the kind that the
/// resolution waits to rewrite.
pub open spec fn slot_ok(t: TreeView, c: PendingView) -> bool {
    &&& c.slot.node < t.len()
    &&& c.slot.id < t[c.slot.node as int].cont.len()
    &&& t[c.slot.node as int].cont[c.slot.id as int].kind() == Some(c.kind)
}

/// Every resolution waits for a slot that holds an element of its kind.
pub open spec fn slots_ok(t: TreeView, pending: Seq<PendingView>) -> bool {
    forall|i: int| 0 <= i < pending.len() ==> slot_ok(t, #[trigger] pending[i])
}

/// A reference or a blob whose link is open.
pub open spec fn is_open(c: ContentView) -> bool {
    c.kind() is Some && c.link() is None
}

/// A resolution waits for slot `k` of node `h`.
pub open spec fn waits(pending: Seq<PendingView>, h: int, k: int) -> bool {
    exists|i: int| 0 <= i < pending.len() && (#[trigger] pending[i]).slot.node == h && pending[i].slot.id == k
}

/// For every open link in the nodes made from `root` on, a resolution
/// waits.
pub open spec fn open_links_wait(t: TreeView, pending: Seq<PendingView>, root: int) -> bool {
    forall|h: int, k: int|
        root <= h < t.len() && 0 <= k < t[h].cont.len() && is_open(#[trigger] t[h].cont[k]) ==> waits(
            pending,
            h,
            k,
        )
}

/// The second table has the contents of the first but for links that were
/// set: the same slots with the same kinds, and no link that was set is
/// open.
pub open spec fn settled(t: TreeView, u: TreeView) -> bool {
    &&& t.len() == u.len()
    &&& forall|h: int| 0 <= h < t.len() ==> (#[trigger] u[h].cont).len() == t[h].cont.len()
    &&& forall|h: int, k: int|
        0 <= h < t.len() && 0 <= k < t[h].cont.len() ==> (#[trigger] u[h].cont[k]).kind() == t[h].cont[k].kind()
            && (is_open(u[h].cont[k]) ==> is_open(t[h].cont[k]))
}

/// Carrying out one resolution only sets a link, and sets the link of its
/// slot where the slot holds an element of its kind.
proof fn lemma_applied_settles(t: TreeView, c: PendingView, link: usize)
    ensures
        settled(t, applied(t, c, link)),
        slot_ok(t, c) ==> !is_open(applied(t, c, link)[c.slot.node as int].cont[c.slot.id as int]),
{
    let u = applied(t, c, link);
    assert forall|h: int| 0 <= h < t.len() implies (#[trigger] u[h].cont).len() == t[h].cont.len() by {}
    assert forall|h: int, k: int| 0 <= h < t.len() && 0 <= k < t[h].cont.len() implies (#[trigger] u[h].cont[k]).kind()
        == t[h].cont[k].kind() && (is_open(u[h].cont[k]) ==> is_open(t[h].cont[k])) by {}
}

/// Setting links goes on setting links.
proof fn lemma_settled_trans(a: TreeView, b: TreeView, c: TreeView)
    requires
        settled(a, b),
        settled(b, c),
    ensures
        settled(a, c),
{
    assert forall|h: int| 0 <= h < a.len() implies (#[trigger] c[h].cont).len() == a[h].cont.len() by {
        assert(b[h].cont.len() == a[h].cont.len());
    }
    assert forall|h: int, k: int| 0 <= h < a.len() && 0 <= k < a[h].cont.len() implies (#[trigger] c[h].cont[k]).kind()
        == a[h].cont[k].kind() && (is_open(c[h].cont[k]) ==> is_open(a[h].cont[k])) by {
        assert(b[h].cont.len() == a[h].cont.len());
        assert(b[h].cont[k].kind() == a[h].cont[k].kind());
    }
}

/// Carrying out resolutions only sets links.
proof fn lemma_fired_only_sets(t: TreeView, pending: Seq<PendingView>, target: Seq<usize>, link: usize)
    ensures
        settled(t, fired(t, pending, target, link)),
    decreases pending.len(),
{
    if pending.len() == 0 {
        assert(settled(t, t)) by {
            assert forall|h: int, k: int| 0 <= h < t.len() && 0 <= k < t[h].cont.len() implies (
            #[trigger] t[h].cont[k]).kind() == t[h].cont[k].kind() by {}
        }
    } else {
        lemma_fired_only_sets(t, pending.drop_last(), target, link);
        let before = fired(t, pending.drop_last(), target, link);
        lemma_applied_settles(before, pending.last(), link);
        lemma_settled_trans(t, before, fired(t, pending, target, link));
    }
}

/// Carrying out the resolutions that wait for an address sets the link of
/// the slot of each of them.
proof fn lemma_fired_settles(t: TreeView, pending: Seq<PendingView>, target: Seq<usize>, link: usize)
    requires
        slots_ok(t, pending),
    ensures
        settled(t, fired(t, pending, target, link)),
        forall|i: int|
            0 <= i < pending.len() && (#[trigger] pending[i]).target == target ==> !is_open(
                fired(t, pending, target, link)[pending[i].slot.node as int].cont[pending[i].slot.id as int],
            ),
    decreases pending.len(),
{
    let after = fired(t, pending, target, link);
    lemma_fired_only_sets(t, pending, target, link);
    if pending.len() > 0 {
        let rest = pending.drop_last();
        let last = pending.last();
        assert(slots_ok(t, rest)) by {
            assert forall|i: int| 0 <= i < rest.len() implies slot_ok(t, #[trigger] rest[i]) by {
                assert(rest[i] == pending[i]);
            }
        }
        lemma_fired_settles(t, rest, target, link);
        let before = fired(t, rest, target, link);
        lemma_applied_settles(before, last, link);
        assert(slot_ok(t, last));
        assert(before[last.slot.node as int].cont.len() == t[last.slot.node as int].cont.len());
        assert(before[last.slot.node as int].cont[last.slot.id as int].kind() == t[last.slot.node as int].cont[last.slot.id as int].kind());
        assert forall|i: int| 0 <= i < pending.len() && (#[trigger] pending[i]).target == target implies !is_open(
            after[pending[i].slot.node as int].cont[pending[i].slot.id as int],
        ) by {
            let c = pending[i];
            assert(slot_ok(t, c));
            if i < rest.len() {
                assert(rest[i] == c);
                let node = c.slot.node as int;
                let id = c.slot.id as int;
                assert(before[node].cont.len() == t[node].cont.len());
                assert(!is_open(before[node].cont[id]));
                assert(is_open(after[node].cont[id]) ==> is_open(before[node].cont[id]));
            }
        }
    }
}

/// After the resolutions that waited for an address were carried out and
/// taken off, every resolution still waits for a slot of its kind, and a
/// resolution still waits for every open link.
proof fn lemma_fired_surfaces(
    t: TreeView,
    pending: Seq<PendingView>,
    target: Seq<usize>,
    link: usize,
    root: int,
)
    requires
        0 <= root,
        slots_ok(t, pending),
        open_links_wait(t, pending, root),
    ensures
        slots_ok(fired(t, pending, target, link), others(pending, target)),
        open_links_wait(fired(t, pending, target, link), others(pending, target), root),
{
    let after = fired(t, pending, target, link);
    let left = others(pending, target);
    lemma_fired_settles(t, pending, target, link);
    assert forall|i: int| 0 <= i < left.len() implies slot_ok(after, #[trigger] left[i]) by {
        let j = lemma_others_were_there(pending, target, i);
        assert(slot_ok(t, pending[j]));
        let node = left[i].slot.node as int;
        assert(after[node].cont.len() == t[node].cont.len());
        assert(after[node].cont[left[i].slot.id as int].kind() == t[node].cont[left[i].slot.id as int].kind());
    }
    assert forall|h: int, k: int|
        root <= h < after.len() && 0 <= k < after[h].cont.len() && is_open(
            #[trigger] after[h].cont[k],
        ) implies waits(left, h, k) by {
        assert(after[h].cont.len() == t[h].cont.len());
        assert(is_open(t[h].cont[k]));
        let j = choose|j: int| 0 <= j < pending.len() && (#[trigger] pending[j]).slot.node == h && pending[j].slot.id == k;
        assert(pending[j].target != target);
        lemma_others_keep(pending, target, j);
        let i = left.index_of(pending[j]);
        assert(left[i].slot.node == h);
    }
}

/// A resolution that waits for another address is still there after those
/// that waited for an address were taken off.
proof fn lemma_others_keep(pending: Seq<PendingView>, target: Seq<usize>, j: int)
    requires
        0 <= j < pending.len(),
        pending[j].target != target,
    ensures
        others(pending, target).contains(pending[j]),
    decreases pending.len(),
{
    let left = others(pending, target);
    if j == pending.len() - 1 {
        assert(left[left.len() - 1] == pending[j]);
    } else {
        lemma_others_keep(pending.drop_last(), target, j);
        let before = others(pending.drop_last(), target);
        let i = before.index_of(pending[j]);
        assert(left[i] == pending[j]);
    }
}

/// After an element was added to a node, every resolution still waits for
/// a slot of its kind, and a resolution waits for every open link.
proof fn lemma_placed_surfaces(t: TreeView, pending: Seq<PendingView>, x: int, e: ElementView, root: int)
    requires
        0 <= root,
        0 <= x < t.len() <= usize::MAX,
        t[x].cont.len() <= usize::MAX,
        slots_ok(t, pending),
        open_links_wait(t, pending, root),
    ensures
        slots_ok(placed(t, pending, x, e).0, placed(t, pending, x, e).1),
        open_links_wait(placed(t, pending, x, e).0, placed(t, pending, x, e).1, root),
        placed(t, pending, x, e).0.len() == t.len(),
{
    let after = placed(t, pending, x, e);
    assert forall|i: int| 0 <= i < after.1.len() implies slot_ok(after.0, #[trigger] after.1[i]) by {
        if i < pending.len() {
            assert(after.1[i] == pending[i]);
            assert(slot_ok(t, pending[i]));
            let node = pending[i].slot.node as int;
            let id = pending[i].slot.id as int;
            assert(after.0[node].cont[id] == t[node].cont[id]);
        }
    }
    assert forall|h: int, k: int|
        root <= h < after.0.len() && 0 <= k < after.0[h].cont.len() && is_open(
            #[trigger] after.0[h].cont[k],
        ) implies waits(after.1, h, k) by {
        if h == x && k == t[x].cont.len() {
            assert(after.1[pending.len() as int].slot.node == h);
        } else {
            assert(after.0[h].cont[k] == t[h].cont[k]);
            assert(is_open(t[h].cont[k]));
            let j = choose|j: int| 0 <= j < pending.len() && (#[trigger] pending[j]).slot.node == h && pending[j].slot.id == k;
            assert(after.1[j] == pending[j]);
        }
    }
}

/// After a node was filled, every resolution still waits for a slot of its
/// kind, and a resolution waits for every open link.
proof fn lemma_populated_surfaces(
    t: TreeView,
    pending: Seq<PendingView>,
    x: int,
    elements: Seq<ElementView>,
    root: int,
)
    requires
        0 <= root,
        0 <= x < t.len() <= usize::MAX,
        populated(t, pending, x, elements).0[x].cont.len() <= usize::MAX,
        slots_ok(t, pending),
        open_links_wait(t, pending, root),
    ensures
        slots_ok(populated(t, pending, x, elements).0, populated(t, pending, x, elements).1),
        open_links_wait(populated(t, pending, x, elements).0, populated(t, pending, x, elements).1, root),
    decreases elements.len(),
{
    if elements.len() > 0 {
        let before = populated(t, pending, x, elements.drop_last());
        lemma_populated_frame(t, pending, x, elements.drop_last());
        lemma_populated_surfaces(t, pending, x, elements.drop_last(), root);
        lemma_placed_surfaces(before.0, before.1, x, elements.last(), root);
    }
}

/// Filling a node changes the content of that node only, and only by
/// adding to it.
proof fn lemma_populated_frame(t: TreeView, pending: Seq<PendingView>, x: int, elements: Seq<ElementView>)
    requires
        valid(t, x),
    ensures
        populated(t, pending, x, elements).0.len() == t.len(),
        t[x].cont.len() <= populated(t, pending, x, elements).0[x].cont.len(),
        forall|h: int| 0 <= h < t.len() && h != x ==> (#[trigger] populated(t, pending, x, elements).0[h]).cont == t[h].cont,
    decreases elements.len(),
{
    if elements.len() > 0 {
        lemma_populated_frame(t, pending, x, elements.drop_last());
    }
}

/// After a node line was made into a node, every resolution waits for a
/// slot of its kind, and a resolution waits for every open link.
proof fn lemma_line_surfaces(
    t: TreeView,
    pending: Seq<PendingView>,
    parent: Option<usize>,
    root: int,
    elements: Seq<ElementView>,
)
    requires
        0 <= root,
        slots_ok(t, pending),
        open_links_wait(t, pending, root),
        fits(line_built(t, pending, parent, elements).0),
    ensures
        slots_ok(line_built(t, pending, parent, elements).0, line_built(t, pending, parent, elements).1),
        open_links_wait(line_built(t, pending, parent, elements).0, line_built(t, pending, parent, elements).1, root),
{
    let node = t.len() as int;
    let made = t.push(fresh(t, parent));
    lemma_line_grows(t, pending, parent, elements);
    assert(slots_ok(made, pending)) by {
        assert forall|i: int| 0 <= i < pending.len() implies slot_ok(made, #[trigger] pending[i]) by {
            assert(slot_ok(t, pending[i]));
        }
    }
    assert(open_links_wait(made, pending, root)) by {
        assert forall|h: int, k: int|
            root <= h < made.len() && 0 <= k < made[h].cont.len() && is_open(
                #[trigger] made[h].cont[k],
            ) implies waits(pending, h, k) by {
            assert(is_open(t[h].cont[k]));
        }
    }
    let filled = populated(made, pending, node, elements);
    let own = path(filled.0, node);
    lemma_populated_frame(made, pending, node, elements);
    lemma_fired_only_sets(filled.0, filled.1, own, node as usize);
    assert(filled.0[node].cont.len() == line_built(t, pending, parent, elements).0[node].cont.len());
    lemma_populated_surfaces(made, pending, node, elements, root);
    lemma_fired_surfaces(filled.0, filled.1, own, node as usize, root);
}

/// The construction of a node leaves every resolution waiting for a slot
/// of its kind, and a resolution waiting for every open link.
proof fn lemma_node_surfaces(
    s: Seq<char>,
    t: TreeView,
    pending: Seq<PendingView>,
    parent: Option<usize>,
    root: int,
)
    requires
        0 <= root,
        slots_ok(t, pending),
        open_links_wait(t, pending, root),
        spec_node(s, t, pending, parent) matches Ok(b) && fits(b.tree),
    ensures
        spec_node(s, t, pending, parent) matches Ok(b) && slots_ok(b.tree, b.pending) && open_links_wait(
            b.tree,
            b.pending,
            root,
        ),
    decreases s.len(), 0nat,
{
    let depth = spec_get_depth(s)->Ok_0.1;
    let rest = spec_node_line(s)->Ok_0.0;
    let elements = spec_node_line(s)->Ok_0.1;
    let made = line_built(t, pending, parent, elements);
    let b = spec_node(s, t, pending, parent)->Ok_0;
    lemma_line_grows(t, pending, parent, elements);
    lemma_children_extends(rest, made.0, made.1, t.len() as usize, depth);
    assert(fits(made.0)) by {
        assert forall|h: int| 0 <= h < made.0.len() implies (#[trigger] made.0[h]).cont.len() <= usize::MAX by {
            assert(b.tree[h].cont.len() == made.0[h].cont.len());
        }
    }
    lemma_line_surfaces(t, pending, parent, root, elements);
    lemma_children_surfaces(rest, made.0, made.1, t.len() as usize, depth, root);
}

/// The construction of the children of a node leaves every resolution
/// waiting for a slot of its kind, and a resolution waiting for every open
/// link.
proof fn lemma_children_surfaces(
    s: Seq<char>,
    t: TreeView,
    pending: Seq<PendingView>,
    node: usize,
    depth: usize,
    root: int,
)
    requires
        0 <= root,
        node < t.len(),
        slots_ok(t, pending),
        open_links_wait(t, pending, root),
        spec_children(s, t, pending, node, depth) matches Ok(b) && fits(b.tree),
    ensures
        spec_children(s, t, pending, node, depth) matches Ok(b) && slots_ok(b.tree, b.pending)
            && open_links_wait(b.tree, b.pending, root),
    decreases s.len(), 1nat,
{
    if s.len() > 0 {
        let next_depth = spec_get_depth(s)->Ok_0.1;
        if depth < next_depth {
            let child = spec_node(s, t, pending, Some(node))->Ok_0;
            let pushed = child_pushed(child.tree, node as int, child.node);
            let b = spec_children(s, t, pending, node, depth)->Ok_0;
            lemma_node_grows(s, t, pending, Some(node));
            lemma_children_extends(child.rest, pushed, child.pending, node, depth);
            assert(fits(child.tree)) by {
                assert forall|h: int| 0 <= h < child.tree.len() implies (#[trigger] child.tree[h]).cont.len()
                    <= usize::MAX by {
                    assert(b.tree[h].cont.len() == pushed[h].cont.len());
                    assert(pushed[h].cont == child.tree[h].cont);
                }
            }
            lemma_node_surfaces(s, t, pending, Some(node), root);
            assert(slots_ok(pushed, child.pending)) by {
                assert forall|i: int| 0 <= i < child.pending.len() implies slot_ok(
                    pushed,
                    #[trigger] child.pending[i],
                ) by {
                    assert(slot_ok(child.tree, child.pending[i]));
                    assert(pushed[child.pending[i].slot.node as int].cont == child.tree[child.pending[i].slot.node as int].cont);
                }
            }
            assert(open_links_wait(pushed, child.pending, root)) by {
                assert forall|h: int, k: int|
                    root <= h < pushed.len() && 0 <= k < pushed[h].cont.len() && is_open(
                        #[trigger] pushed[h].cont[k],
                    ) implies waits(child.pending, h, k) by {
                    assert(pushed[h].cont == child.tree[h].cont);
                    assert(is_open(child.tree[h].cont[k]));
                }
            }
            lemma_children_surfaces(child.rest, pushed, child.pending, node, depth, root);
        }
    }
}

/// No open link is dropped: when a tree has been built, starting with
/// nothing waiting, then for every reference and blob of the tree whose
/// link is open a resolution waits in the registry, and every resolution
/// in the registry waits for a slot that holds a reference or a blob.
pub proof fn open_links_are_waited_for(s: Seq<char>, t: TreeView)
    requires
        spec_node(s, t, Seq::<PendingView>::empty(), None) matches Ok(b) && fits(b.tree),
    ensures
        spec_node(s, t, Seq::<PendingView>::empty(), None) matches Ok(b) && slots_ok(b.tree, b.pending)
            && open_links_wait(b.tree, b.pending, t.len() as int),
{
    lemma_node_surfaces(s, t, Seq::<PendingView>::empty(), None, t.len() as int);
}

} // verus!
