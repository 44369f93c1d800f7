use tasktree::{
    build_visible_nodes, visible_sequence, Container, Entry, EntryState, Node, Tree, TreeError,
    TreeViewState,
};

fn container(name: &str) -> Node {
    Node::Container(Container::new(name.to_string(), String::new()))
}

fn entry(name: &str) -> Node {
    Node::Entry(Entry::new(name.to_string(), String::new()))
}

fn new_tree() -> (Tree, u128) {
    let tree = Tree::new(Container::new("root".to_string(), String::new()));
    let root = *tree.get_root_id();
    (tree, root)
}

fn add(tree: &mut Tree, parent: u128, node: Node) -> u128 {
    let id = *node.get_id();
    tree.add_node(&parent, node).unwrap();
    id
}

fn children(tree: &Tree, id: u128) -> Vec<u128> {
    tree.get_children_ids(&id).unwrap().clone()
}

#[test]
fn scenario_container_entry_visible() {
    let (mut tree, r) = new_tree();
    let a = add(&mut tree, r, container("A"));
    let e = add(&mut tree, a, entry("E"));
    assert_eq!(children(&tree, r), vec![a]);
    assert_eq!(children(&tree, a), vec![e]);

    let mut view = TreeViewState::new();
    assert_eq!(visible_sequence(&tree, &view, &r).unwrap(), vec![(r, 0), (a, 1), (e, 2)]);

    view.add_collapsed(&tree, &a).unwrap();
    assert_eq!(visible_sequence(&tree, &view, &r).unwrap(), vec![(r, 0), (a, 1)]);
}

#[test]
fn scenario_entry_state_next_cycles() {
    let (mut tree, r) = new_tree();
    let e = add(&mut tree, r, entry("E"));
    assert_eq!(tree.entry_state(&e), Ok(EntryState::Pending));
    assert_eq!(tree.entry_state_next(&e), Ok(EntryState::InProgress));
    assert_eq!(tree.entry_state_next(&e), Ok(EntryState::Completed));
    assert_eq!(tree.entry_state_next(&e), Ok(EntryState::Canceled));
    assert_eq!(tree.entry_state(&e), Ok(EntryState::Canceled));
    assert_eq!(tree.entry_state_next(&e), Ok(EntryState::Pending));
    assert_eq!(tree.entry_state(&e), Ok(EntryState::Pending));
}

#[test]
fn scenario_swap_same_parent() {
    let (mut tree, r) = new_tree();
    let a = add(&mut tree, r, entry("a"));
    let b = add(&mut tree, r, entry("b"));
    let c = add(&mut tree, r, container("c"));
    let d = add(&mut tree, r, entry("d"));
    tree.swap_nodes(&a, &c).unwrap();
    assert_eq!(children(&tree, r), vec![c, b, a, d]);
    tree.swap_nodes(&d, &b).unwrap();
    assert_eq!(children(&tree, r), vec![c, d, a, b]);
}

#[test]
fn swap_refusals() {
    let (mut tree, r) = new_tree();
    let a = add(&mut tree, r, container("a"));
    let b = add(&mut tree, r, entry("b"));
    let x = add(&mut tree, a, entry("x"));
    assert_eq!(tree.swap_nodes(&b, &x), Err(TreeError::DifferentParents));
    assert_eq!(tree.swap_nodes(&x, &b), Err(TreeError::DifferentParents));
    assert_eq!(tree.swap_nodes(&b, &b), Err(TreeError::SelfSwap));
    assert_eq!(tree.swap_nodes(&r, &b), Err(TreeError::NoParent));
    assert_eq!(tree.swap_nodes(&b, &12345), Err(TreeError::NodeNotFound));
    assert_eq!(children(&tree, r), vec![a, b]);
}

#[test]
fn add_collapsed_refuses_entry() {
    let (mut tree, r) = new_tree();
    let e = add(&mut tree, r, entry("e"));
    let mut view = TreeViewState::new();
    assert_eq!(view.add_collapsed(&tree, &e), Err(TreeError::WrongKind));
    assert_eq!(view.is_collapsed(&e), Ok(false));
    assert_eq!(view.add_collapsed(&tree, &777), Err(TreeError::NodeNotFound));
    assert_eq!(view.add_collapsed(&tree, &r), Ok(()));
    assert_eq!(view.is_collapsed(&r), Ok(true));
    assert_eq!(view.get_collapsed().unwrap().len(), 1);
    view.remove_collapsed(&r).unwrap();
    assert_eq!(view.is_collapsed(&r), Ok(false));
}

#[test]
fn state_ring_closes() {
    let all = [
        EntryState::Pending,
        EntryState::InProgress,
        EntryState::Completed,
        EntryState::Canceled,
    ];
    for s in all {
        assert_eq!(s.next().prev(), s);
        assert_eq!(s.prev().next(), s);
        assert_eq!(s.next().next().next().next(), s);
    }
    assert_eq!(EntryState::Pending.prev(), EntryState::Canceled);
    assert_eq!(EntryState::Completed.next(), EntryState::Canceled);
}

#[test]
fn add_node_round_trip() {
    let (mut tree, r) = new_tree();
    let a = add(&mut tree, r, container("a"));
    let b = add(&mut tree, a, entry("b"));
    assert_eq!(tree.get_parent_id(&a), Ok(&r));
    assert_eq!(tree.get_parent_id(&b), Ok(&a));
    assert_eq!(children(&tree, a).iter().filter(|x| **x == b).count(), 1);
    assert_eq!(tree.get_parent_node(&b).unwrap().get_name(), "a");
    assert_eq!(tree.node_count(), 3);
}

#[test]
fn fresh_ids_differ() {
    let a = entry("a");
    let b = entry("a");
    assert_ne!(a.get_id(), b.get_id());
}

#[test]
fn add_node_errors() {
    let (mut tree, r) = new_tree();
    let e = add(&mut tree, r, entry("e"));
    assert_eq!(tree.add_node(&999, entry("x")), Err(TreeError::NodeNotFound));
    assert_eq!(tree.add_node(&e, entry("x")), Err(TreeError::WrongKind));
    assert_eq!(tree.node_count(), 2);
    assert_eq!(children(&tree, r), vec![e]);
}

#[test]
fn parent_lookup_errors() {
    let (tree, r) = new_tree();
    assert_eq!(tree.get_parent_id(&r), Err(TreeError::NoParent));
    assert_eq!(tree.get_parent_id(&5), Err(TreeError::NodeNotFound));
    assert!(tree.get_node(&5).is_err());
    assert!(tree.get_node(&r).unwrap().is_container());
}

#[test]
fn get_children_ids_errors() {
    let (mut tree, r) = new_tree();
    let e = add(&mut tree, r, entry("e"));
    assert_eq!(tree.get_children_ids(&e), Err(TreeError::WrongKind));
    assert_eq!(tree.get_children_ids(&1), Err(TreeError::NodeNotFound));
}

#[test]
fn remove_node_cases() {
    let (mut tree, r) = new_tree();
    let a = add(&mut tree, r, container("a"));
    let b = add(&mut tree, r, entry("b"));
    let x = add(&mut tree, a, entry("x"));
    assert_eq!(tree.remove_node(&r), Err(TreeError::NoParent));
    assert_eq!(tree.remove_node(&a), Err(TreeError::HasChildren));
    assert_eq!(tree.remove_node(&x), Ok(()));
    assert_eq!(tree.remove_node(&x), Err(TreeError::NodeNotFound));
    assert_eq!(children(&tree, a), Vec::<u128>::new());
    assert_eq!(tree.remove_node(&a), Ok(()));
    assert_eq!(children(&tree, r), vec![b]);
    assert_eq!(tree.node_count(), 2);
    assert!(tree.get_node(&a).is_err());
}

#[test]
fn move_node_positions() {
    let (mut tree, r) = new_tree();
    let a = add(&mut tree, r, entry("a"));
    let b = add(&mut tree, r, entry("b"));
    let c = add(&mut tree, r, entry("c"));
    tree.move_node(&c, 0).unwrap();
    assert_eq!(children(&tree, r), vec![c, a, b]);
    tree.move_node(&c, 1).unwrap();
    assert_eq!(children(&tree, r), vec![a, c, b]);
    tree.move_node(&a, 10).unwrap();
    assert_eq!(children(&tree, r), vec![c, b, a]);
    assert_eq!(tree.move_node(&r, 0), Err(TreeError::NoParent));
    assert_eq!(tree.move_node(&42, 0), Err(TreeError::NodeNotFound));
}

#[test]
fn change_parent_cases() {
    let (mut tree, r) = new_tree();
    let a = add(&mut tree, r, container("a"));
    let b = add(&mut tree, a, container("b"));
    let e = add(&mut tree, r, entry("e"));
    assert_eq!(tree.change_parent(&r, &a), Err(TreeError::AlreadyInContainer));
    assert_eq!(tree.change_parent(&b, &a), Err(TreeError::WouldCreateCycle));
    assert_eq!(tree.change_parent(&a, &a), Err(TreeError::WouldCreateCycle));
    assert_eq!(tree.change_parent(&e, &b), Err(TreeError::WrongKind));
    assert_eq!(tree.change_parent(&9, &b), Err(TreeError::NodeNotFound));
    assert_eq!(tree.change_parent(&a, &r), Err(TreeError::NoParent));
    assert_eq!(children(&tree, a), vec![b]);
    assert_eq!(tree.change_parent(&b, &e), Ok(()));
    assert_eq!(tree.get_parent_id(&e), Ok(&b));
    assert_eq!(children(&tree, r), vec![a]);
    assert_eq!(children(&tree, b), vec![e]);
}

#[test]
fn entry_state_operations() {
    let (mut tree, r) = new_tree();
    let e = add(&mut tree, r, entry("e"));
    assert_eq!(tree.entry_state_prev(&e), Ok(EntryState::Canceled));
    assert_eq!(tree.set_entry_state(&e, &EntryState::InProgress), Ok(()));
    assert_eq!(tree.entry_state(&e), Ok(EntryState::InProgress));
    assert_eq!(tree.entry_state_prev(&e), Ok(EntryState::Pending));
    assert_eq!(tree.entry_state(&r), Err(TreeError::WrongKind));
    assert_eq!(tree.entry_state_next(&r), Err(TreeError::WrongKind));
    assert_eq!(tree.set_entry_state(&3, &EntryState::Completed), Err(TreeError::NodeNotFound));
}

#[test]
fn operation_sequence_keeps_links() {
    let (mut tree, r) = new_tree();
    let a = add(&mut tree, r, container("a"));
    let b = add(&mut tree, r, entry("b"));
    let c = add(&mut tree, a, entry("c"));
    let d = add(&mut tree, a, entry("d"));
    tree.swap_nodes(&c, &d).unwrap();
    tree.move_node(&b, 0).unwrap();
    tree.remove_node(&c).unwrap();
    let f = add(&mut tree, a, entry("f"));
    tree.move_node(&f, 0).unwrap();
    assert_eq!(children(&tree, r), vec![b, a]);
    assert_eq!(children(&tree, a), vec![f, d]);
    for id in [a, b, d, f] {
        let p = *tree.get_parent_id(&id).unwrap();
        assert_eq!(children(&tree, p).iter().filter(|x| **x == id).count(), 1);
    }
    assert_eq!(tree.node_count(), 5);
}

#[test]
fn visible_rows_with_depth() {
    let (mut tree, r) = new_tree();
    let a = add(&mut tree, r, container("a"));
    let b = add(&mut tree, a, entry("b"));
    let c = add(&mut tree, r, entry("c"));
    let view = TreeViewState::new();
    let mut out = vec![(0u128, 9usize)];
    build_visible_nodes(&tree, &view, &a, 3, &mut out).unwrap();
    assert_eq!(out, vec![(0, 9), (a, 3), (b, 4)]);
    assert_eq!(visible_sequence(&tree, &view, &c).unwrap(), vec![(c, 0)]);
    assert_eq!(
        visible_sequence(&tree, &view, &r).unwrap(),
        vec![(r, 0), (a, 1), (b, 2), (c, 1)]
    );
    assert_eq!(visible_sequence(&tree, &view, &8), Err(TreeError::NodeNotFound));
}

#[test]
fn view_selection() {
    let mut view = TreeViewState::new();
    assert_eq!(*view.get_selected(), None);
    view.select(&7).unwrap();
    assert_eq!(*view.get_selected(), Some(7));
    view.deselect().unwrap();
    assert_eq!(*view.get_selected(), None);
    assert_eq!(view.scroll_offset, 0);
}

#[test]
fn node_names() {
    let mut n = entry("first");
    let id = *n.get_id();
    n.set_name("second".to_string());
    n.set_desc("about".to_string());
    assert_eq!(n.get_name(), "second");
    assert_eq!(n.get_desc(), "about");
    assert_eq!(*n.get_id(), id);
    assert!(n.is_entry());
    assert!(n.get_entry().is_some());
    assert!(n.get_container().is_none());
}

#[test]
fn collapsed_id_removed_from_tree_still_shows() {
    let (mut tree, r) = new_tree();
    let a = add(&mut tree, r, container("a"));
    let mut view = TreeViewState::new();
    view.add_collapsed(&tree, &a).unwrap();
    tree.remove_node(&a).unwrap();
    let mut out = Vec::new();
    assert_eq!(build_visible_nodes(&tree, &view, &a, 2, &mut out), Ok(()));
    assert_eq!(out, vec![(a, 2)]);
    assert_eq!(visible_sequence(&tree, &view, &a).unwrap(), vec![(a, 0)]);
    let mut out2 = Vec::new();
    assert_eq!(build_visible_nodes(&tree, &TreeViewState::new(), &a, 0, &mut out2), Err(TreeError::NodeNotFound));
    assert!(out2.is_empty());
}

#[test]
fn rename_and_describe_nodes() {
    let (mut tree, r) = new_tree();
    let e = add(&mut tree, r, entry("old"));
    tree.entry_state_next(&e).unwrap();
    assert_eq!(tree.set_node_name(&e, "new".to_string()), Ok(()));
    assert_eq!(tree.set_node_desc(&e, "details".to_string()), Ok(()));
    assert_eq!(tree.set_node_name(&r, "top".to_string()), Ok(()));
    let n = tree.get_node(&e).unwrap();
    assert_eq!(n.get_name(), "new");
    assert_eq!(n.get_desc(), "details");
    assert_eq!(tree.get_node(&r).unwrap().get_name(), "top");
    assert_eq!(tree.entry_state(&e), Ok(EntryState::InProgress));
    assert_eq!(children(&tree, r), vec![e]);
    assert_eq!(tree.set_node_name(&4, "x".to_string()), Err(TreeError::NodeNotFound));
    assert_eq!(tree.set_node_desc(&4, "x".to_string()), Err(TreeError::NodeNotFound));
}
