//! What holds of every well-formed node table.

use vstd::prelude::*;
use crate::registry::{fired, others, PendingView};
use crate::tree::{
    ancestor, attached, child_inserted, complete_below, descend, lemma_child_inserted_structured,
    lemma_renumbered_wf, link_ok, linked, locate, numbered, path, position,
    position_path, root_of, shared_len, sons_ok, valid, wf, with_sons, TreeView,
};

verus! {

/// The address of a node is never empty, and it starts with the local index
/// of the node's root.
pub proof fn lemma_path_starts_at_root(t: TreeView, h: int)
    requires
        wf(t),
        valid(t, h),
    ensures
        path(t, h).len() >= 1,
        path(t, h)[0] == t[root_of(t, h)].uuid.id,
        valid(t, root_of(t, h)),
        t[h].parent is None ==> path(t, h).len() == 1,
        t[h].parent is Some ==> path(t, h).len() >= 2,
    decreases h,
{
    assert(link_ok(t, h));
    if let Some(p) = t[h].parent {
        lemma_path_starts_at_root(t, p as int);
    }
}

/// Going up `k` levels succeeds exactly when the address is longer than
/// `k`, and the node reached has the address cut short by `k`.
pub proof fn lemma_ancestor(t: TreeView, h: int, k: nat)
    requires
        wf(t),
        valid(t, h),
    ensures
        ancestor(t, h, k) is Some <==> k < path(t, h).len(),
        ancestor(t, h, k) matches Some(a) ==> {
            &&& valid(t, a as int)
            &&& path(t, a as int) == path(t, h).take(path(t, h).len() - k)
            &&& root_of(t, a as int) == root_of(t, h)
            &&& (linked(t, h) ==> linked(t, a as int))
        },
    decreases k,
{
    assert(link_ok(t, h));
    lemma_path_starts_at_root(t, h);
    if k == 0 {
        assert(path(t, h).take(path(t, h).len() as int) =~= path(t, h));
    } else if let Some(p) = t[h].parent {
        lemma_ancestor(t, p as int, (k - 1) as nat);
        if let Some(a) = ancestor(t, p as int, (k - 1) as nat) {
            assert(path(t, p as int).take(path(t, p as int).len() - (k - 1)) =~= path(t, h).take(
                path(t, h).len() - k,
            ));
        }
    }
}

/// Following one more index after a walk down is a step to that child of
/// the node the walk ended at.
pub proof fn lemma_descend_push(t: TreeView, h: int, p: Seq<usize>, x: usize)
    requires
        0 <= h <= usize::MAX,
    ensures
        descend(t, h, p.push(x)) == match descend(t, h, p) {
            Some(d) => if x < t[d as int].sons.len() {
                Some(t[d as int].sons[x as int])
            } else {
                None
            },
            None => None,
        },
    decreases p.len(),
{
    if p.len() == 0 {
        assert(p.push(x).skip(1) =~= Seq::<usize>::empty());
        assert(descend(t, t[h].sons[x as int] as int, Seq::<usize>::empty()) == Some(t[h].sons[x as int]));
    } else {
        assert(p.push(x).skip(1) =~= p.skip(1).push(x));
        if p[0] < t[h].sons.len() {
            lemma_descend_push(t, t[h].sons[p[0] as int] as int, p.skip(1), x);
        }
    }
}

/// A node that hangs in its parent's child list is the child at its own
/// local index.
pub proof fn lemma_attached_child(t: TreeView, h: int)
    requires
        wf(t),
        valid(t, h),
        attached(t, h),
    ensures
        t[h].parent matches Some(p) && p < h && t[h].uuid.id < t[p as int].sons.len()
            && t[p as int].sons[t[h].uuid.id as int] == h && position(t, h) == t[h].uuid.id,
{
    assert(link_ok(t, h));
    let p = t[h].parent->0;
    assert(numbered(t, p as int));
    assert(sons_ok(t, p as int));
    let j = t[p as int].sons.index_of(h as usize);
    assert(t[p as int].sons[j] == h);
}

/// From an ancestor of a node that can be reached from its root, the rest
/// of the node's address leads down to the node.
pub proof fn lemma_descend_to(t: TreeView, h: int, k: nat)
    requires
        wf(t),
        linked(t, h),
        k < path(t, h).len(),
    ensures
        ancestor(t, h, k) matches Some(a) && descend(
            t,
            a as int,
            path(t, h).skip(path(t, h).len() - k),
        ) == Some(h as usize),
    decreases k,
{
    assert(link_ok(t, h));
    lemma_ancestor(t, h, k);
    lemma_path_starts_at_root(t, h);
    let own = path(t, h);
    if k == 0 {
        assert(own.skip(own.len() as int) =~= Seq::<usize>::empty());
    } else {
        let p = t[h].parent->0;
        let up = path(t, p as int);
        lemma_ancestor(t, p as int, (k - 1) as nat);
        lemma_descend_to(t, p as int, (k - 1) as nat);
        let a = ancestor(t, p as int, (k - 1) as nat)->0;
        lemma_attached_child(t, h);
        lemma_descend_push(t, a as int, up.skip(up.len() - (k - 1)), t[h].uuid.id);
        assert(up.skip(up.len() - (k - 1)).push(t[h].uuid.id) =~= own.skip(own.len() - k));
    }
}

/// Two nodes below one root that can both be reached from it and have the
/// same address are one node.
pub proof fn lemma_path_injective(t: TreeView, a: int, b: int)
    requires
        wf(t),
        linked(t, a),
        linked(t, b),
        root_of(t, a) == root_of(t, b),
        path(t, a) == path(t, b),
    ensures
        a == b,
    decreases a,
{
    assert(link_ok(t, a));
    assert(link_ok(t, b));
    lemma_path_starts_at_root(t, a);
    lemma_path_starts_at_root(t, b);
    if let Some(pa) = t[a].parent {
        let pb = t[b].parent->0;
        let up_a = path(t, pa as int);
        let up_b = path(t, pb as int);
        assert(up_a =~= path(t, a).drop_last());
        assert(up_b =~= path(t, b).drop_last());
        assert(path(t, a).last() == t[a].uuid.id);
        assert(path(t, b).last() == t[b].uuid.id);
        lemma_path_injective(t, pa as int, pb as int);
        lemma_attached_child(t, a);
        lemma_attached_child(t, b);
    }
}

/// Two sequences agree on their longest common prefix, which is no longer
/// than either.
pub proof fn lemma_shared_len_bounds(a: Seq<usize>, b: Seq<usize>)
    ensures
        shared_len(a, b) <= a.len(),
        shared_len(a, b) <= b.len(),
        a.take(shared_len(a, b) as int) == b.take(shared_len(a, b) as int),
        shared_len(a, b) < a.len() && shared_len(a, b) < b.len() ==> a[shared_len(a, b) as int]
            != b[shared_len(a, b) as int],
    decreases a.len(),
{
    if a.len() > 0 && b.len() > 0 && a[0] == b[0] {
        lemma_shared_len_bounds(a.skip(1), b.skip(1));
        let n = shared_len(a.skip(1), b.skip(1));
        assert forall|j: int| 0 <= j < n + 1 implies a[j] == b[j] by {
            if j > 0 {
                assert(a.skip(1).take(n as int)[j - 1] == b.skip(1).take(n as int)[j - 1]);
            }
        }
        assert(a.take(n as int + 1) =~= b.take(n as int + 1));
        if n + 1 < a.len() && n + 1 < b.len() {
            assert(a.skip(1)[n as int] != b.skip(1)[n as int]);
        }
    } else {
        assert(a.take(0) =~= b.take(0));
    }
}

/// Child `i` of a node has local index `i`, and its address is the address
/// of the node followed by `i`.
pub proof fn index_invariant(t: TreeView, h: int, i: int)
    requires
        wf(t),
        valid(t, h),
        0 <= i < t[h].sons.len(),
    ensures
        valid(t, t[h].sons[i] as int),
        t[t[h].sons[i] as int].uuid.id == i,
        path(t, t[h].sons[i] as int) == path(t, h).push(i as usize),
{
    assert(numbered(t, h));
    assert(sons_ok(t, h));
    let c = t[h].sons[i];
    assert(link_ok(t, c as int));
}

/// For a node that can be reached from its root, the local indices along
/// the chain of parent addresses are the places met on the way down the
/// chain of parent nodes.
pub proof fn path_invariant(t: TreeView, h: int)
    requires
        wf(t),
        linked(t, h),
    ensures
        path(t, h).map_values(|i: usize| i as int) == position_path(t, h),
    decreases h,
{
    assert(link_ok(t, h));
    if let Some(p) = t[h].parent {
        path_invariant(t, p as int);
        lemma_attached_child(t, h);
        assert(path(t, h).map_values(|i: usize| i as int) =~= path(t, p as int).map_values(
            |i: usize| i as int,
        ).push(t[h].uuid.id as int));
    } else {
        assert(path(t, h).map_values(|i: usize| i as int) =~= seq![0int]);
    }
}

/// In a tree in which both nodes can be reached from the root, looking up
/// the address of `b` from `a` gives `b`, and so does walking down from the
/// root along the address of `b`. This covers a node looked up from itself,
/// from a descendant, from an ancestor and from another branch.
pub proof fn navigator_equivalence(t: TreeView, a: int, b: int)
    requires
        wf(t),
        linked(t, a),
        linked(t, b),
        root_of(t, a) == root_of(t, b),
    ensures
        locate(t, a, path(t, b)) == Some(b as usize),
        descend(t, root_of(t, b), path(t, b).skip(1)) == Some(b as usize),
{
    let own = path(t, a);
    let target = path(t, b);
    let n = shared_len(own, target);
    lemma_path_starts_at_root(t, a);
    lemma_path_starts_at_root(t, b);
    lemma_shared_len_bounds(own, target);
    assert(n >= 1);
    lemma_ancestor(t, a, (own.len() - n) as nat);
    lemma_ancestor(t, b, (target.len() - n) as nat);
    lemma_descend_to(t, b, (target.len() - n) as nat);
    let c = ancestor(t, a, (own.len() - n) as nat)->0;
    let d = ancestor(t, b, (target.len() - n) as nat)->0;
    lemma_path_injective(t, c as int, d as int);

    lemma_ancestor(t, b, (target.len() - 1) as nat);
    lemma_descend_to(t, b, (target.len() - 1) as nat);
    let r = ancestor(t, b, (target.len() - 1) as nat)->0;
    lemma_root_has_short_path(t, r as int);
}

/// A node whose address has one element is its own root.
proof fn lemma_root_has_short_path(t: TreeView, h: int)
    requires
        wf(t),
        valid(t, h),
        path(t, h).len() == 1,
    ensures
        root_of(t, h) == h,
{
    assert(link_ok(t, h));
    lemma_path_starts_at_root(t, h);
}

/// The node that a walk down ends at has the address of the node the walk
/// started at, followed by the indices that were followed.
pub proof fn lemma_descend_path(t: TreeView, h: int, p: Seq<usize>)
    requires
        wf(t),
        valid(t, h),
    ensures
        descend(t, h, p) matches Some(d) ==> valid(t, d as int) && path(t, d as int) == path(t, h) + p,
    decreases p.len(),
{
    if p.len() == 0 {
        assert(path(t, h) + p =~= path(t, h));
    } else if p[0] < t[h].sons.len() {
        let c = t[h].sons[p[0] as int];
        index_invariant(t, h, p[0] as int);
        lemma_descend_path(t, c as int, p.skip(1));
        if descend(t, h, p) is Some {
            assert(path(t, h).push(p[0]) + p.skip(1) =~= path(t, h) + p);
        }
    }
}

/// A lookup finds only what was asked for: the node found has the address
/// that was looked up.
pub proof fn locate_is_sound(t: TreeView, h: int, target: Seq<usize>)
    requires
        wf(t),
        valid(t, h),
    ensures
        locate(t, h, target) matches Some(d) ==> valid(t, d as int) && path(t, d as int) == target,
{
    let own = path(t, h);
    let n = shared_len(own, target);
    lemma_shared_len_bounds(own, target);
    lemma_ancestor(t, h, (own.len() - n) as nat);
    if let Some(a) = ancestor(t, h, (own.len() - n) as nat) {
        lemma_descend_path(t, a as int, target.skip(n as int));
        assert(own.take(n as int) + target.skip(n as int) =~= target);
    }
}

/// After a loose child was inserted at place `idx`, the children before
/// `idx` are where they were with the local index they had, the new child
/// is at `idx` with local index `idx`, and each child from `idx` on is one
/// place up with a local index one higher.
pub proof fn insertion_renumbering(t: TreeView, h: int, idx: int, c: usize)
    requires
        wf(t),
        valid(t, h),
        valid(t, c as int),
        t[c as int].parent == Some(h as usize),
        !attached(t, c as int),
        0 <= idx <= t[h].sons.len(),
        t[h].sons.len() < usize::MAX,
    ensures
        wf(child_inserted(t, h, idx, c)),
        child_inserted(t, h, idx, c)[h].sons.len() == t[h].sons.len() + 1,
        child_inserted(t, h, idx, c)[h].sons[idx] == c,
        child_inserted(t, h, idx, c)[c as int].uuid.id == idx,
        forall|i: int|
            0 <= i < idx ==> child_inserted(t, h, idx, c)[h].sons[i] == (#[trigger] t[h].sons[i])
                && child_inserted(t, h, idx, c)[t[h].sons[i] as int].uuid.id == i,
        forall|i: int|
            idx <= i < t[h].sons.len() ==> child_inserted(t, h, idx, c)[h].sons[i + 1] == (
            #[trigger] t[h].sons[i]) && child_inserted(t, h, idx, c)[t[h].sons[i] as int].uuid.id == i
                + 1,
{
    let before = with_sons(t, h, t[h].sons.insert(idx, c));
    let after = child_inserted(t, h, idx, c);
    t[h].sons.insert_ensures(idx, c);
    lemma_child_inserted_structured(t, h, idx, c);
    lemma_renumbered_wf(before, h);
    assert(after[h].sons =~= t[h].sons.insert(idx, c));
    assert(numbered(after, h));
    assert forall|g: int| 0 <= g < after.len() implies #[trigger] numbered(after, g) by {
        if g != h {
            assert(numbered(before, g));
        }
    }
    assert forall|i: int| 0 <= i < idx implies after[h].sons[i] == (#[trigger] t[h].sons[i]) && after[t[h].sons[i] as int].uuid.id
        == i by {
        assert(after[after[h].sons[i] as int].uuid.id == i);
    }
    assert forall|i: int| idx <= i < t[h].sons.len() implies after[h].sons[i + 1] == (
    #[trigger] t[h].sons[i]) && after[t[h].sons[i] as int].uuid.id == i + 1 by {
        assert(after[after[h].sons[i + 1] as int].uuid.id == i + 1);
    }
    assert(after[after[h].sons[idx] as int].uuid.id == idx);
}

/// Once the resolutions that waited for an address were carried out and
/// taken off, none waits for it any more, those that wait for other
/// addresses are all still there, and carrying out again changes nothing.
pub proof fn resolution_is_exactly_once(t: TreeView, pending: Seq<PendingView>, target: Seq<usize>, link: usize)
    ensures
        forall|i: int|
            0 <= i < others(pending, target).len() ==> (#[trigger] others(pending, target)[i]).target
                != target,
        forall|i: int|
            0 <= i < pending.len() && (#[trigger] pending[i]).target != target ==> others(
                pending,
                target,
            ).contains(pending[i]),
        others(others(pending, target), target) == others(pending, target),
        fired(t, others(pending, target), target, link) == t,
    decreases pending.len(),
{
    if pending.len() > 0 {
        let before = pending.drop_last();
        resolution_is_exactly_once(t, before, target, link);
        let kept = others(pending, target);
        if pending.last().target != target {
            assert(kept.drop_last() =~= others(before, target));
            assert(kept[kept.len() - 1] == pending.last());
        }
        assert forall|i: int| 0 <= i < pending.len() && (#[trigger] pending[i]).target != target implies kept.contains(
            pending[i],
        ) by {
            if i < pending.len() - 1 {
                assert(before[i] == pending[i]);
                let j = others(before, target).index_of(pending[i]);
                assert(kept[j] == pending[i]);
            } else {
                assert(kept[kept.len() - 1] == pending[i]);
            }
        }
    }
}

/// In a complete tree every node can be reached from the root.
pub proof fn complete_tree_is_linked(t: TreeView, root: int, h: int)
    requires
        wf(t),
        valid(t, root),
        t[root].parent is None,
        complete_below(t, root),
        root <= h < t.len(),
    ensures
        linked(t, h),
        root_of(t, h) == root,
    decreases h,
{
    assert(link_ok(t, h));
    if h != root {
        assert(attached(t, h));
        let p = t[h].parent->0;
        complete_tree_is_linked(t, root, p as int);
    }
}

/// In a complete tree, such as a parse builds, the lookup of the address of
/// any node from any node finds that node.
pub proof fn complete_tree_navigation(t: TreeView, root: int, a: int, b: int)
    requires
        wf(t),
        valid(t, root),
        t[root].parent is None,
        complete_below(t, root),
        root <= a < t.len(),
        root <= b < t.len(),
    ensures
        locate(t, a, path(t, b)) == Some(b as usize),
        descend(t, root, path(t, b).skip(1)) == Some(b as usize),
{
    complete_tree_is_linked(t, root, a);
    complete_tree_is_linked(t, root, b);
    navigator_equivalence(t, a, b);
}

} // verus!
