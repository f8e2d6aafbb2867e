use outline::grammar::{Expected, ParseError};
use outline::node::{Arena, Node, NodeProperty, UUID};
use outline::node_content::{Blob, ContentKind, NodeContent, Reference};
use outline::parser::node;
use outline::registry::{get_uuid, PendingRef, RefOfReference, Registry};

const DOCUMENT: &str = "- A \n - A.A #(0.1.0) {test}(0.0.1) \n  - A.A.A <rbind[0,1]> \n  - A.A.B \n - A.B \n  - A.B.A \n";

fn parse(text: &str) -> (Arena, usize, Registry, String) {
    let mut arena = Arena::new();
    let mut wanted_uuids = Registry::new();
    let (rest, root) = node(text, &mut arena, None, &mut wanted_uuids).unwrap();
    (arena, root, wanted_uuids, String::from(rest))
}

fn address(arena: &Arena, h: usize) -> Vec<usize> {
    arena.get(h).unwrap().uuid.to_vec_id(arena)
}

fn find(arena: &Arena, root: usize, path: &[usize]) -> Option<usize> {
    Node::go_down(arena, root, path[1..].to_vec())
}

#[test]
fn node_test() {
    let mut arena = Arena::new();
    let mut wanted_uuids = Registry::new();
    let res = node(DOCUMENT, &mut arena, None, &mut wanted_uuids);

    let (out, res) = res.unwrap();

    assert_eq!(out, "");
    assert_eq!(
        Node::fmt(&arena, res),
        "- (0) A \n - (0.0) A.A #(0.1.0) {test}(0.0.1) \n  - (0.0.0) A.A.A <rbind> \n  - (0.0.1) A.A.B \n - (0.1) A.B \n  - (0.1.0) A.B.A \n"
    );
}

#[test]
fn forward_references_are_linked() {
    let (arena, root, wanted_uuids, _) = parse(DOCUMENT);
    assert_eq!(arena.len(), 6);
    assert_eq!(wanted_uuids.len(), 0);
    for path in [
        vec![0],
        vec![0, 0],
        vec![0, 0, 0],
        vec![0, 0, 1],
        vec![0, 1],
        vec![0, 1, 0],
    ] {
        let h = find(&arena, root, &path).unwrap();
        assert_eq!(address(&arena, h), path);
    }
    let source = find(&arena, root, &[0, 0]).unwrap();
    let cont = &arena.get(source).unwrap().cont;
    assert_eq!(cont.len(), 3);
    match &cont[0] {
        NodeContent::Text(t) => assert_eq!(t, "A.A"),
        _ => panic!("text expected"),
    }
    match &cont[1] {
        NodeContent::Reference(r) => {
            assert_eq!(r.link, find(&arena, root, &[0, 1, 0]));
            assert!(r.link.is_some());
        }
        _ => panic!("reference expected"),
    }
    match &cont[2] {
        NodeContent::Blob(b) => {
            assert_eq!(b.text, "test");
            assert_eq!(b.link, find(&arena, root, &[0, 0, 1]));
            assert!(b.link.is_some());
        }
        _ => panic!("blob expected"),
    }
    let tagged = find(&arena, root, &[0, 0, 0]).unwrap();
    assert_eq!(
        arena.get(tagged).unwrap().prop,
        vec![NodeProperty::Rbind(vec![0, 1])]
    );
}

#[test]
fn backward_and_self_references_are_linked_at_once() {
    let text = "- r #(0) \n - a \n - b #(0.0) #(0.1) #(0) {up}(0.1) \n";
    let (arena, root, wanted_uuids, _) = parse(text);
    assert_eq!(wanted_uuids.len(), 0);
    assert_eq!(
        Node::fmt(&arena, root),
        "- (0) r #(0) \n - (0.0) a \n - (0.1) b #(0.0) #(0.1) #(0) {up}(0.1) \n"
    );
}

#[test]
fn unresolved_reference_is_reported() {
    let text = "- A #(9.9.9) \n - B {gone}(0.7) \n - C #(9.9.9) \n";
    let (arena, root, wanted_uuids, rest) = parse(text);
    assert_eq!(rest, "");
    assert_eq!(arena.len(), 3);
    assert_eq!(
        wanted_uuids.unresolved(),
        vec![vec![9, 9, 9], vec![0, 7], vec![9, 9, 9]]
    );
    let first = wanted_uuids.get(0).unwrap();
    assert_eq!(first.target, vec![9, 9, 9]);
    assert_eq!(first.slot.node, root);
    assert_eq!(first.slot.id, 1);
    assert_eq!(first.kind, ContentKind::Reference);
    let second = wanted_uuids.get(1).unwrap();
    assert_eq!(second.kind, ContentKind::Blob);
    assert_eq!(second.slot.id, 1);
    assert_eq!(second.preserved_text.as_deref(), Some("gone"));
    assert_eq!(first.preserved_text, None);
    assert!(wanted_uuids.get(3).is_none());
    assert_eq!(
        Node::fmt(&arena, root),
        "- (0) A #(unresolved) \n - (0.0) B {gone}(unresolved) \n - (0.1) C #(unresolved) \n"
    );
}

#[test]
fn many_requests_for_one_address_are_all_served() {
    let text = "- a #(0.1) {x}(0.1) \n - b #(0.1) #(0.2) \n - c \n";
    let (arena, root, wanted_uuids, _) = parse(text);
    assert_eq!(wanted_uuids.unresolved(), vec![vec![0, 2]]);
    assert_eq!(
        Node::fmt(&arena, root),
        "- (0) a #(0.1) {x}(0.1) \n - (0.0) b #(0.1) #(unresolved) \n - (0.1) c \n"
    );
}

#[test]
fn parse_stops_before_a_line_that_is_not_deeper() {
    let (arena, root, _, rest) = parse("  - a \n   - b \n  - c \n");
    assert_eq!(rest, "  - c \n");
    assert_eq!(arena.len(), 2);
    assert_eq!(Node::fmt(&arena, root), "- (0) a \n - (0.0) b \n");
    let (_, _, _, rest) = parse(" - a \n- b \n");
    assert_eq!(rest, "- b \n");
}

#[test]
fn blank_lines_between_nodes_are_skipped() {
    let (arena, root, _, rest) = parse("\n\n- a \n\n - b \n");
    assert_eq!(rest, "");
    assert_eq!(Node::fmt(&arena, root), "- (0) a \n - (0.0) b \n");
}

#[test]
fn structural_failures_end_the_parse() {
    let mut arena = Arena::new();
    let mut wanted_uuids = Registry::new();
    assert_eq!(
        node("A \n", &mut arena, None, &mut wanted_uuids),
        Err(ParseError { remaining: 3, expected: Expected::Marker })
    );
    assert_eq!(
        node("", &mut arena, None, &mut wanted_uuids),
        Err(ParseError { remaining: 0, expected: Expected::Marker })
    );
    assert_eq!(
        node("- a \n - b", &mut arena, None, &mut wanted_uuids),
        Err(ParseError { remaining: 2, expected: Expected::Newline })
    );
    assert_eq!(
        node("- a \n\n", &mut arena, None, &mut wanted_uuids),
        Err(ParseError { remaining: 0, expected: Expected::Marker })
    );
}

#[test]
fn depth_width_does_not_matter() {
    let narrow = "- r \n - a #(0.1.0) \n  - a1 \n  - a2 \n - b \n  - b1 {t}(0.0.1) \n";
    let wide = "- r \n    - a #(0.1.0) \n        - a1 \n        - a2 \n    - b \n        - b1 {t}(0.0.1) \n";
    let mixed = "- r \n  - a #(0.1.0) \n         - a1 \n         - a2 \n  - b \n   - b1 {t}(0.0.1) \n";
    let (arena_n, root_n, wanted_n, _) = parse(narrow);
    let expected = Node::fmt(&arena_n, root_n);
    assert_eq!(
        expected,
        "- (0) r \n - (0.0) a #(0.1.0) \n  - (0.0.0) a1 \n  - (0.0.1) a2 \n - (0.1) b \n  - (0.1.0) b1 {t}(0.0.1) \n"
    );
    for text in [wide, mixed] {
        let (arena, root, wanted_uuids, rest) = parse(text);
        assert_eq!(rest, "");
        assert_eq!(arena.len(), arena_n.len());
        assert_eq!(wanted_uuids.len(), wanted_n.len());
        assert_eq!(Node::fmt(&arena, root), expected);
        for h in 0..arena.len() {
            let a = arena.get(h).unwrap();
            let b = arena_n.get(h).unwrap();
            assert_eq!(a.parent, b.parent);
            assert_eq!(a.sons, b.sons);
            assert_eq!(address(&arena, h), address(&arena_n, h));
        }
    }
}

fn sample() -> (Arena, usize, Vec<usize>) {
    let mut arena = Arena::new();
    let root = Node::new(&mut arena, None);
    let mut kids = Vec::new();
    for _ in 0..3 {
        let c = Node::new(&mut arena, Some(root));
        Node::push_child(&mut arena, root, c);
        kids.push(c);
    }
    (arena, root, kids)
}

#[test]
fn new_node_takes_the_next_index() {
    let mut arena = Arena::new();
    assert_eq!(arena.len(), 0);
    let root = Node::new(&mut arena, None);
    assert_eq!(address(&arena, root), vec![0]);
    let a = Node::new(&mut arena, Some(root));
    assert_eq!(address(&arena, a), vec![0, 0]);
    assert!(arena.get(root).unwrap().sons.is_empty());
    Node::push_child(&mut arena, root, a);
    let b = Node::new(&mut arena, Some(root));
    assert_eq!(address(&arena, b), vec![0, 1]);
    assert_eq!(arena.get(b).unwrap().parent, Some(root));
    assert!(arena.get(7).is_none());
}

#[test]
fn append_gives_the_child_its_place() {
    let mut arena = Arena::new();
    let root = Node::new(&mut arena, None);
    let a = Node::new(&mut arena, Some(root));
    let b = Node::new(&mut arena, Some(root));
    assert_eq!(arena.get(b).unwrap().uuid.id, 0);
    Node::push_child(&mut arena, root, a);
    Node::push_child(&mut arena, root, b);
    assert_eq!(arena.get(root).unwrap().sons, vec![a, b]);
    assert_eq!(arena.get(a).unwrap().uuid.id, 0);
    assert_eq!(arena.get(b).unwrap().uuid.id, 1);
}

#[test]
fn insertion_renumbers_the_later_siblings() {
    let (mut arena, root, kids) = sample();
    let grandchild = Node::new(&mut arena, Some(kids[1]));
    Node::push_child(&mut arena, kids[1], grandchild);
    assert_eq!(address(&arena, grandchild), vec![0, 1, 0]);
    let new = Node::new(&mut arena, Some(root));
    Node::insert_child(&mut arena, root, 1, new);
    assert_eq!(
        arena.get(root).unwrap().sons,
        vec![kids[0], new, kids[1], kids[2]]
    );
    assert_eq!(arena.get(kids[0]).unwrap().uuid.id, 0);
    assert_eq!(arena.get(new).unwrap().uuid.id, 1);
    assert_eq!(arena.get(kids[1]).unwrap().uuid.id, 2);
    assert_eq!(arena.get(kids[2]).unwrap().uuid.id, 3);
    // the address of a descendant follows without being touched
    assert_eq!(arena.get(grandchild).unwrap().uuid.id, 0);
    assert_eq!(address(&arena, grandchild), vec![0, 2, 0]);
}

#[test]
fn insertion_at_both_ends() {
    let (mut arena, root, kids) = sample();
    let first = Node::new(&mut arena, Some(root));
    Node::insert_child(&mut arena, root, 0, first);
    let last = Node::new(&mut arena, Some(root));
    Node::insert_child(&mut arena, root, 4, last);
    assert_eq!(
        arena.get(root).unwrap().sons,
        vec![first, kids[0], kids[1], kids[2], last]
    );
    for (i, h) in arena.get(root).unwrap().sons.iter().enumerate() {
        assert_eq!(arena.get(*h).unwrap().uuid.id, i);
    }
}

#[test]
fn update_child_ids_is_idempotent_on_a_numbered_node() {
    let (mut arena, root, kids) = sample();
    Node::update_child_ids(&mut arena, root);
    for (i, h) in kids.iter().enumerate() {
        assert_eq!(arena.get(*h).unwrap().uuid.id, i);
    }
}

#[test]
fn go_up_counts_levels() {
    let (arena, root, _, _) = parse(DOCUMENT);
    let deep = find(&arena, root, &[0, 1, 0]).unwrap();
    let mid = find(&arena, root, &[0, 1]).unwrap();
    assert_eq!(Node::go_up(&arena, deep, 0), Some(deep));
    assert_eq!(Node::go_up(&arena, deep, 1), Some(mid));
    assert_eq!(Node::go_up(&arena, deep, 2), Some(root));
    assert_eq!(Node::go_up(&arena, deep, 3), None);
    assert_eq!(Node::go_up(&arena, root, 1), None);
    assert_eq!(Node::get_depth(&arena, deep), 3);
    assert_eq!(Node::get_depth(&arena, root), 1);
}

#[test]
fn go_down_follows_child_indices() {
    let (arena, root, _, _) = parse(DOCUMENT);
    assert_eq!(Node::go_down(&arena, root, vec![]), Some(root));
    let a = Node::go_down(&arena, root, vec![0]).unwrap();
    assert_eq!(address(&arena, a), vec![0, 0]);
    let ab = Node::go_down(&arena, root, vec![0, 1]).unwrap();
    assert_eq!(address(&arena, ab), vec![0, 0, 1]);
    assert_eq!(Node::go_down(&arena, a, vec![1]), Some(ab));
    assert_eq!(Node::go_down(&arena, root, vec![2]), None);
    assert_eq!(Node::go_down(&arena, root, vec![0, 2]), None);
    assert_eq!(Node::go_down(&arena, root, vec![0, 0, 0]), None);
}

#[test]
fn lookup_from_anywhere_agrees_with_the_walk_from_the_root() {
    let (arena, root, _, _) = parse(DOCUMENT);
    for a in 0..arena.len() {
        for b in 0..arena.len() {
            let target = address(&arena, b);
            assert_eq!(Node::search_by_vec_id(&arena, a, &target), Some(b));
            assert_eq!(find(&arena, root, &target), Some(b));
            let uuid = arena.get(b).unwrap().uuid;
            assert_eq!(Node::search_by_uuid(&arena, a, &uuid), Some(b));
        }
    }
}

#[test]
fn lookup_of_a_missing_address_is_none() {
    let (arena, root, _, _) = parse(DOCUMENT);
    let deep = find(&arena, root, &[0, 0, 1]).unwrap();
    for target in [
        vec![],
        vec![1],
        vec![9, 9, 9],
        vec![0, 2],
        vec![0, 0, 2],
        vec![0, 0, 1, 0],
        vec![0, 1, 0, 0],
    ] {
        assert_eq!(Node::search_by_vec_id(&arena, deep, &target), None);
        assert_eq!(Node::search_by_vec_id(&arena, root, &target), None);
    }
}

#[test]
fn shared_prefix_is_a_prefix() {
    // the addresses agree at places 0 and 2 but part ways at place 1
    let (arena, root, _, _) = parse(DOCUMENT);
    let from = find(&arena, root, &[0, 0, 0]).unwrap();
    let to = find(&arena, root, &[0, 1, 0]).unwrap();
    assert_eq!(Node::search_by_vec_id(&arena, from, &vec![0, 1, 0]), Some(to));
}

#[test]
fn address_equality_is_path_equality() {
    let (arena, root, _, _) = parse(DOCUMENT);
    let a = find(&arena, root, &[0, 0]).unwrap();
    let b = find(&arena, root, &[0, 1]).unwrap();
    let a0 = arena.get(find(&arena, root, &[0, 0, 0]).unwrap()).unwrap().uuid;
    let b0 = arena.get(find(&arena, root, &[0, 1, 0]).unwrap()).unwrap().uuid;
    assert_eq!(a0.id, b0.id);
    assert!(!a0.same_path(&b0, &arena));
    assert!(a0.same_path(&UUID::new(Some(a), 0), &arena));
    assert!(b0.same_path(&UUID::new(Some(b), 0), &arena));
    assert_eq!(UUID::new(Some(b), 4).to_vec_id(&arena), vec![0, 1, 4]);
    // a parent handle that names no node counts as no parent
    assert_eq!(UUID::new(Some(99), 4).to_vec_id(&arena), vec![4]);
    assert_eq!(UUID::new(None, 3).fmt(&arena), "3");
    assert_eq!(UUID::new(Some(b), 12).fmt(&arena), "0.1.12");
    let mut u = UUID::new(Some(b), 12);
    u.update_id(1305);
    assert_eq!(u.fmt(&arena), "0.1.1305");
}

#[test]
fn content_operations_keep_slots() {
    let mut arena = Arena::new();
    let root = Node::new(&mut arena, None);
    Node::push_content(&mut arena, root, NodeContent::Text(String::from("a")));
    Node::append_contents(
        &mut arena,
        root,
        vec![
            NodeContent::Reference(Reference::new(None)),
            NodeContent::Blob(Blob::new(String::from("b"), None)),
        ],
    );
    Node::push_property(&mut arena, root, NodeProperty::Color);
    Node::push_property(&mut arena, root, NodeProperty::Blob);
    assert_eq!(Node::get_cont_len(&arena, root), 3);
    assert_eq!(
        Node::fmt(&arena, root),
        "- (0) a #(unresolved) {b}(unresolved) <colored> <blob> \n"
    );
    Node::replace_content(
        &mut arena,
        root,
        1,
        NodeContent::Reference(Reference::new(Some(root))),
    );
    assert_eq!(Node::get_cont_len(&arena, root), 3);
    assert_eq!(
        Node::fmt(&arena, root),
        "- (0) a #(0) {b}(unresolved) <colored> <blob> \n"
    );
    let cont = &arena.get(root).unwrap().cont;
    assert_eq!(cont[0].kind(), None);
    assert_eq!(cont[1].kind(), Some(ContentKind::Reference));
    assert_eq!(cont[2].kind(), Some(ContentKind::Blob));
    assert_eq!(cont[1].link(), Some(root));
    assert_eq!(cont[2].link(), None);
}

#[test]
fn a_link_to_no_node_renders_as_unresolved() {
    let mut arena = Arena::new();
    let root = Node::new(&mut arena, None);
    Node::push_content(
        &mut arena,
        root,
        NodeContent::Reference(Reference::new(Some(41))),
    );
    assert_eq!(Node::fmt(&arena, root), "- (0) #(unresolved) \n");
}

#[test]
fn get_uuid_finds_or_queues() {
    let (arena, root, _, _) = parse(DOCUMENT);
    let mut wanted_uuids = Registry::new();
    let from = find(&arena, root, &[0, 1]).unwrap();
    let found = get_uuid(
        vec![0, 0, 1],
        &arena,
        from,
        &mut wanted_uuids,
        ContentKind::Blob,
        Some("text"),
    );
    assert_eq!(found, find(&arena, root, &[0, 0, 1]));
    assert_eq!(wanted_uuids.len(), 0);
    let missing = get_uuid(
        vec![0, 5],
        &arena,
        from,
        &mut wanted_uuids,
        ContentKind::Blob,
        Some("text"),
    );
    assert_eq!(missing, None);
    assert_eq!(wanted_uuids.unresolved(), vec![vec![0, 5]]);
    let queued = wanted_uuids.get(0).unwrap();
    assert_eq!(queued.slot.node, from);
    assert_eq!(queued.slot.id, 1);
    assert_eq!(queued.preserved_text.as_deref(), Some("text"));
    let slot = RefOfReference::new(&arena, from);
    assert_eq!((slot.node, slot.id), (from, 1));
}

#[test]
fn resolution_rewrites_only_matching_slots() {
    let mut arena = Arena::new();
    let root = Node::new(&mut arena, None);
    Node::push_content(&mut arena, root, NodeContent::Text(String::from("t")));
    Node::push_content(&mut arena, root, NodeContent::Reference(Reference::new(None)));
    Node::push_content(
        &mut arena,
        root,
        NodeContent::Blob(Blob::new(String::from("kept"), None)),
    );
    let mut wanted_uuids = Registry::new();
    let waits = |id: usize, kind: ContentKind, target: Vec<usize>| PendingRef {
        target,
        slot: RefOfReference { node: 0, id },
        kind,
        preserved_text: None,
    };
    // a text slot, a slot of the other kind, a slot that is not there, a node that is not there
    wanted_uuids.push(waits(0, ContentKind::Reference, vec![0, 0]));
    wanted_uuids.push(waits(1, ContentKind::Blob, vec![0, 0]));
    wanted_uuids.push(waits(3, ContentKind::Blob, vec![0, 0]));
    wanted_uuids.push(PendingRef {
        target: vec![0, 0],
        slot: RefOfReference { node: 9, id: 0 },
        kind: ContentKind::Blob,
        preserved_text: Some(String::from("other")),
    });
    wanted_uuids.push(waits(1, ContentKind::Reference, vec![0, 1]));
    wanted_uuids.push(waits(2, ContentKind::Blob, vec![0, 0]));
    let child = Node::new(&mut arena, Some(root));
    Node::check_and_rectify_wanted_status(&mut arena, child, &mut wanted_uuids);
    assert_eq!(wanted_uuids.unresolved(), vec![vec![0, 1]]);
    assert_eq!(
        Node::fmt(&arena, root),
        "- (0) t #(unresolved) {kept}(0.0) \n"
    );
    Node::check_and_rectify_wanted_status(&mut arena, root, &mut wanted_uuids);
    assert_eq!(wanted_uuids.len(), 1);
}

#[test]
fn written_address_reads_back() {
    let (arena, _, _, _) = parse(DOCUMENT);
    for h in 0..arena.len() {
        let uuid = arena.get(h).unwrap().uuid;
        let written = format!("({}) and more", uuid.fmt(&arena));
        assert_eq!(
            outline::parser::parse_id(&written),
            Ok((" and more", address(&arena, h)))
        );
    }
    let far = UUID::new(None, usize::MAX).fmt(&arena);
    assert_eq!(
        outline::parser::uuid(&format!("#({})", far)),
        Ok(("", vec![usize::MAX]))
    );
}
