//! Bookkeeping for references whose target does not exist yet.

use vstd::prelude::*;
use crate::node::{copy_ids, same_ids, Arena, ElementView, Node, NodeElement};
use crate::node_content::{Blob, ContentKind, ContentView, NodeContent, Reference};
use crate::tree::{
    lemma_same_shape_trans, lemma_same_shape_wf, locate, path, same_shape, wf, with_cont,
    with_prop, TreeView,
};

verus! {

/// A content slot of a node: the place that a resolution will rewrite.
#[derive(Debug, Clone, Copy)]
pub struct RefOfReference {
    pub node: usize,
    pub id: usize,
}

impl RefOfReference {
    /// The slot that the next element pushed to `node` will take.
    pub fn new(arena: &Arena, node: usize) -> (slot: RefOfReference)
        requires
            node < arena@.len(),
        ensures
            slot.node == node,
            slot.id == arena@[node as int].cont.len(),
    {
        RefOfReference { node, id: Node::get_cont_len(arena, node) }
    }
}

/// A resolution that waits for the node with address `target`: once that
/// node exists, the link in `slot` is set to it, provided the slot still
/// holds an element of kind `kind`. For a blob the record also keeps the
/// text that the blob had when the resolution was queued; the resolution
/// leaves the text in the slot as it is.
#[derive(Debug)]
pub struct PendingRef {
    pub target: Vec<usize>,
    pub slot: RefOfReference,
    pub kind: ContentKind,
    pub preserved_text: Option<String>,
}

/// The mathematical value of a [`PendingRef`].
pub struct PendingView {
    pub target: Seq<usize>,
    pub slot: RefOfReference,
    pub kind: ContentKind,
    pub preserved_text: Option<Seq<char>>,
}

impl View for PendingRef {
    type V = PendingView;

    open spec fn view(&self) -> PendingView {
        PendingView {
            target: self.target@,
            slot: self.slot,
            kind: self.kind,
            preserved_text: match self.preserved_text {
                Some(text) => Some(text@),
                None => None,
            },
        }
    }
}

/// The resolutions that wait, in the order in which they were asked for.
/// Those that wait for one address form the queue of that address.
#[derive(Debug)]
pub struct Registry {
    pending: Vec<PendingRef>,
}

impl View for Registry {
    type V = Seq<PendingView>;

    closed spec fn view(&self) -> Seq<PendingView> {
        self.pending@.map_values(|p: PendingRef| p@)
    }
}

/// The table after one resolution was carried out with `link` as the node
/// found: the link of the slot is set, its text stays. A resolution whose
/// slot is gone or holds another kind of element changes nothing.
pub open spec fn applied(t: TreeView, cmd: PendingView, link: usize) -> TreeView {
    let node = cmd.slot.node as int;
    let id = cmd.slot.id as int;
    if node < t.len() && id < t[node].cont.len() && t[node].cont[id].kind() == Some(cmd.kind) {
        with_cont(t, node, t[node].cont.update(id, t[node].cont[id].with_link(Some(link))))
    } else {
        t
    }
}

/// The table after every resolution that waits for `target` was carried
/// out, first come first served.
pub open spec fn fired(t: TreeView, pending: Seq<PendingView>, target: Seq<usize>, link: usize) -> TreeView
    decreases pending.len(),
{
    if pending.len() == 0 {
        t
    } else {
        let before = fired(t, pending.drop_last(), target, link);
        if pending.last().target == target {
            applied(before, pending.last(), link)
        } else {
            before
        }
    }
}

/// The resolutions that do not wait for `target`, in their order.
pub open spec fn others(pending: Seq<PendingView>, target: Seq<usize>) -> Seq<PendingView>
    decreases pending.len(),
{
    if pending.len() == 0 {
        pending
    } else {
        let before = others(pending.drop_last(), target);
        if pending.last().target == target {
            before
        } else {
            before.push(pending.last())
        }
    }
}

/// The registry after a reference to `target` was asked for from the slot
/// that the next element of `node` will take: unchanged where the target
/// was found, one resolution longer where it was not.
pub open spec fn requested(
    t: TreeView,
    pending: Seq<PendingView>,
    node: int,
    target: Seq<usize>,
    kind: ContentKind,
    preserved_text: Option<Seq<char>>,
) -> Seq<PendingView> {
    if locate(t, node, target) is Some {
        pending
    } else {
        pending.push(
            PendingView {
                target,
                slot: RefOfReference { node: node as usize, id: t[node].cont.len() as usize },
                kind,
                preserved_text,
            },
        )
    }
}

/// The table and the registry after one parsed element was added to `node`.
pub open spec fn placed(t: TreeView, pending: Seq<PendingView>, node: int, e: ElementView) -> (
    TreeView,
    Seq<PendingView>,
) {
    match e {
        ElementView::Word(w) => (with_cont(t, node, t[node].cont.push(ContentView::Text(w))), pending),
        ElementView::Property(p) => (with_prop(t, node, t[node].prop.push(p)), pending),
        ElementView::TempBlob(text, addr) => (
            with_cont(t, node, t[node].cont.push(ContentView::Blob(text, locate(t, node, addr)))),
            requested(t, pending, node, addr, ContentKind::Blob, Some(text)),
        ),
        ElementView::TempRef(addr) => (
            with_cont(t, node, t[node].cont.push(ContentView::Reference(locate(t, node, addr)))),
            requested(t, pending, node, addr, ContentKind::Reference, None),
        ),
    }
}

/// The table and the registry after the parsed elements were added to
/// `node` one after the other.
pub open spec fn populated(
    t: TreeView,
    pending: Seq<PendingView>,
    node: int,
    elements: Seq<ElementView>,
) -> (TreeView, Seq<PendingView>)
    decreases elements.len(),
{
    if elements.len() == 0 {
        (t, pending)
    } else {
        let before = populated(t, pending, node, elements.drop_last());
        placed(before.0, before.1, node, elements.last())
    }
}

/// Carrying out a resolution keeps the shape of the table.
pub proof fn lemma_applied_wf(t: TreeView, cmd: PendingView, link: usize)
    ensures
        same_shape(t, applied(t, cmd, link)),
        wf(t) ==> wf(applied(t, cmd, link)),
{
    lemma_same_shape_wf(t, applied(t, cmd, link));
}

impl Registry {
    /// A registry in which nothing waits.
    pub fn new() -> (registry: Registry)
        ensures
            registry@ == Seq::<PendingView>::empty(),
    {
        let registry = Registry { pending: Vec::new() };
        assert(registry@ =~= Seq::<PendingView>::empty());
        registry
    }

    /// The number of resolutions that wait.
    pub fn len(&self) -> (n: usize)
        ensures
            n == self@.len(),
    {
        self.pending.len()
    }

    /// The resolution at place `i` of the waiting order.
    pub fn get(&self, i: usize) -> (cmd: Option<&PendingRef>)
        ensures
            match cmd {
                Some(c) => i < self@.len() && c@ == self@[i as int],
                None => i >= self@.len(),
            },
    {
        if i < self.pending.len() {
            Some(&self.pending[i])
        } else {
            None
        }
    }

    /// Adds a resolution at the end of the waiting order.
    pub fn push(&mut self, cmd: PendingRef)
        ensures
            final(self)@ == old(self)@.push(cmd@),
    {
        self.pending.push(cmd);
        assert(self@ =~= old(self)@.push(cmd@));
    }

    /// The addresses that are still waited for, one for each resolution, in
    /// the waiting order: the references that were never resolved.
    pub fn unresolved(&self) -> (paths: Vec<Vec<usize>>)
        ensures
            paths@.len() == self@.len(),
            forall|i: int| 0 <= i < paths@.len() ==> (#[trigger] paths@[i])@ == self@[i].target,
    {
        let mut paths: Vec<Vec<usize>> = Vec::new();
        let mut i: usize = 0;
        while i < self.pending.len()
            invariant
                i <= self@.len(),
                self@.len() == self.pending@.len(),
                paths@.len() == i,
                forall|j: int| 0 <= j < i ==> (#[trigger] paths@[j])@ == self@[j].target,
            decreases self@.len() - i,
        {
            paths.push(copy_ids(&self.pending[i].target));
            i += 1;
        }
        paths
    }

    /// Takes every resolution out and leaves the registry empty.
    fn take_all(&mut self) -> (all: Vec<PendingRef>)
        ensures
            all@.map_values(|p: PendingRef| p@) == old(self)@,
            final(self)@ == Seq::<PendingView>::empty(),
    {
        let mut all: Vec<PendingRef> = Vec::new();
        core::mem::swap(&mut self.pending, &mut all);
        assert(self@ =~= Seq::<PendingView>::empty());
        all
    }
}

/// Carries out one resolution with `link` as the node found.
fn resolve(arena: &mut Arena, cmd: &PendingRef, link: usize)
    ensures
        final(arena)@ == applied(old(arena)@, cmd@, link),
        same_shape(old(arena)@, final(arena)@),
        old(arena).wf() ==> final(arena).wf(),
{
    let ghost t = arena@;
    proof {
        lemma_applied_wf(t, cmd@, link);
    }
    let node = cmd.slot.node;
    let id = cmd.slot.id;
    let new_content = match arena.get(node) {
        Some(n) => {
            if id < n.cont.len() {
                match &n.cont[id] {
                    NodeContent::Reference(_) => match cmd.kind {
                        ContentKind::Reference => Some(NodeContent::Reference(Reference::new(Some(link)))),
                        ContentKind::Blob => None,
                    },
                    NodeContent::Blob(blob) => match cmd.kind {
                        ContentKind::Blob => Some(
                            NodeContent::Blob(Blob::new(blob.text.clone(), Some(link))),
                        ),
                        ContentKind::Reference => None,
                    },
                    NodeContent::Text(_) => None,
                }
            } else {
                None
            }
        },
        None => None,
    };
    match new_content {
        Some(c) => {
            Node::replace_content(arena, node, id, c);
        },
        None => {},
    }
}

/// Looks up the node with address `addr_vec` from node `tree`. Where it is
/// not there yet, a resolution is queued for the slot that the next element
/// of `tree` will take, and the link stays open. `kind` and `preserved_text`
/// say what that element will be.
pub fn get_uuid(
    addr_vec: Vec<usize>,
    arena: &Arena,
    tree: usize,
    wanted_uuids: &mut Registry,
    kind: ContentKind,
    preserved_text: Option<&str>,
) -> (link: Option<usize>)
    requires
        arena.wf(),
        tree < arena@.len(),
    ensures
        link == locate(arena@, tree as int, addr_vec@),
        link matches Some(l) ==> l < arena@.len() && path(arena@, l as int) == addr_vec@,
        final(wanted_uuids)@ == requested(
            arena@,
            old(wanted_uuids)@,
            tree as int,
            addr_vec@,
            kind,
            match preserved_text {
                Some(text) => Some(text@),
                None => None,
            },
        ),
{
    match Node::search_by_vec_id(arena, tree, &addr_vec) {
        Some(node) => Some(node),
        None => {
            let ref_ref = RefOfReference::new(arena, tree);
            let preserved_text = match preserved_text {
                Some(text) => Some(text.to_owned()),
                None => None,
            };
            wanted_uuids.push(PendingRef { target: addr_vec, slot: ref_ref, kind, preserved_text });
            None
        },
    }
}

/// Adds the parsed elements to `node` in their order: words as text,
/// properties as properties, references and blobs with their link looked up
/// in the tree as it is now, or queued in the registry.
pub fn populate_node(
    arena: &mut Arena,
    node: usize,
    contents: Vec<NodeElement>,
    wanted_uuids: &mut Registry,
)
    requires
        old(arena).wf(),
        node < old(arena)@.len(),
    ensures
        (final(arena)@, final(wanted_uuids)@) == populated(
            old(arena)@,
            old(wanted_uuids)@,
            node as int,
            contents@.map_values(|e: NodeElement| e@),
        ),
        final(arena).wf(),
        same_shape(old(arena)@, final(arena)@),
{
    let ghost t0 = arena@;
    let ghost q0 = wanted_uuids@;
    let ghost elements = contents@.map_values(|e: NodeElement| e@);
    proof {
        assert(elements.take(0) =~= Seq::<ElementView>::empty());
    }
    for element in it: contents
        invariant
            it.seq() == contents@,
            elements == contents@.map_values(|e: NodeElement| e@),
            (arena@, wanted_uuids@) == populated(t0, q0, node as int, elements.take(it.index() as int)),
            arena.wf(),
            same_shape(t0, arena@),
            node < t0.len(),
    {
        let ghost i = it.index() as int;
        let ghost before = (arena@, wanted_uuids@);
        proof {
            assert(elements.take(i + 1).drop_last() =~= elements.take(i));
            assert(elements.take(i + 1).last() == element@);
        }
        match element {
            NodeElement::Word(word) => {
                Node::push_content(arena, node, NodeContent::Text(word.to_owned()));
            },
            NodeElement::Property(property) => {
                Node::push_property(arena, node, property);
            },
            NodeElement::TempBlob((word, addr)) => {
                let link = get_uuid(
                    addr,
                    arena,
                    node,
                    wanted_uuids,
                    ContentKind::Blob,
                    Some(word.as_str()),
                );
                let new_content = NodeContent::Blob(Blob::new(word, link));
                Node::push_content(arena, node, new_content);
            },
            NodeElement::TempRef(addr) => {
                let link = get_uuid(addr, arena, node, wanted_uuids, ContentKind::Reference, None);
                let new_content = NodeContent::Reference(Reference::new(link));
                Node::push_content(arena, node, new_content);
            },
        }
        proof {
            assert((arena@, wanted_uuids@) == placed(before.0, before.1, node as int, element@));
            lemma_same_shape_trans(t0, before.0, arena@);
        }
    }
    proof {
        assert(elements.take(elements.len() as int) =~= elements);
    }
}

impl Node {
    /// Carries out every resolution that waits for the address of this
    /// node, first come first served, and takes them off the registry.
    pub fn check_and_rectify_wanted_status(arena: &mut Arena, this: usize, wanted_uuids: &mut Registry)
        requires
            old(arena).wf(),
            this < old(arena)@.len(),
        ensures
            final(arena)@ == fired(
                old(arena)@,
                old(wanted_uuids)@,
                path(old(arena)@, this as int),
                this,
            ),
            final(wanted_uuids)@ == others(old(wanted_uuids)@, path(old(arena)@, this as int)),
            final(arena).wf(),
            same_shape(old(arena)@, final(arena)@),
    {
        let ghost t0 = arena@;
        let ghost q0 = wanted_uuids@;
        let own = match arena.get(this) {
            Some(n) => n.uuid.to_vec_id(arena),
            None => Vec::new(),
        };
        proof {
            assert(crate::tree::link_ok(t0, this as int));
            assert(own@ == path(t0, this as int));
        }
        let waiting = wanted_uuids.take_all();
        proof {
            assert(q0.take(0) =~= Seq::<PendingView>::empty());
        }
        for cmd in it: waiting
            invariant
                it.seq() == waiting@,
                waiting@.map_values(|p: PendingRef| p@) == q0,
                arena@ == fired(t0, q0.take(it.index() as int), own@, this),
                wanted_uuids@ == others(q0.take(it.index() as int), own@),
                arena.wf(),
                same_shape(t0, arena@),
        {
            let ghost i = it.index() as int;
            let ghost before = arena@;
            proof {
                assert(q0.take(i + 1).drop_last() =~= q0.take(i));
                assert(q0.take(i + 1).last() == cmd@);
                lemma_applied_wf(arena@, cmd@, this);
            }
            if same_ids(&cmd.target, &own) {
                resolve(arena, &cmd, this);
            } else {
                wanted_uuids.push(cmd);
            }
            proof {
                lemma_same_shape_trans(t0, before, arena@);
            }
        }
        proof {
            assert(q0.take(q0.len() as int) =~= q0);
        }
    }
}

} // verus!
