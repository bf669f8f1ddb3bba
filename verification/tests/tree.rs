use lieui::effects::ElementId;
use lieui::event_types::EventType;
use lieui::tree::{ElementState, ElementTree, NodeKind, ViewNode};

fn leaf(kind: NodeKind, key: Option<&str>) -> ViewNode {
    ViewNode { kind, key: key.map(|k| k.to_string()), config: 1, listeners: Vec::new(), children: Vec::new() }
}

fn chain(tree: &mut ElementTree) -> (ElementId, ElementId, ElementId, ElementId) {
    let a = tree.create_from_node(&leaf(NodeKind::Div, None));
    let b = tree.create_from_node(&leaf(NodeKind::Div, Some("b")));
    let c = tree.create_from_node(&leaf(NodeKind::Text, Some("c")));
    let d = tree.create_from_node(&leaf(NodeKind::Text, None));
    tree.add_child(a, b);
    tree.add_child(b, c);
    tree.add_child(a, d);
    tree.set_root(a);
    (a, b, c, d)
}

#[test]
fn remove_takes_the_whole_subtree() {
    let mut tree = ElementTree::new();
    let (a, b, c, d) = chain(&mut tree);
    assert_eq!(tree.len(), 4);
    assert!(tree.remove(b));
    assert!(!tree.contains(b));
    assert!(!tree.contains(c));
    assert!(tree.contains(a));
    assert!(tree.contains(d));
    assert_eq!(tree.children_of(a), vec![d]);
    assert_eq!(tree.len(), 2);
    assert!(!tree.remove(b));
    assert!(tree.remove(a));
    assert_eq!(tree.root(), None);
    assert!(tree.is_empty());
}

#[test]
fn path_to_walks_up_to_the_root() {
    let mut tree = ElementTree::new();
    let (a, b, c, _d) = chain(&mut tree);
    assert_eq!(tree.path_to(c), vec![a, b, c]);
    assert_eq!(tree.path_to(a), vec![a]);
    assert!(tree.path_to(ElementId(99)).is_empty());
}

#[test]
fn move_child_reparents_and_marks_dirty() {
    let mut tree = ElementTree::new();
    let (a, b, c, d) = chain(&mut tree);
    tree.clear_dirty();
    assert!(!tree.has_dirty_node());
    tree.move_child(c, a, 0);
    assert_eq!(tree.children_of(a), vec![c, b, d]);
    assert!(tree.children_of(b).is_empty());
    assert_eq!(tree.parent_of(c), Some(a));
    assert!(tree.is_dirty(c));
    assert!(tree.has_dirty_node());
    tree.insert_child(b, 10, d);
    assert_eq!(tree.children_of(b), vec![d]);
}

#[test]
fn keys_listeners_and_state() {
    let mut tree = ElementTree::new();
    let (a, b, c, _d) = chain(&mut tree);
    assert_eq!(tree.find_child_by_key(a, "b"), Some(b));
    assert_eq!(tree.find_child_by_key(b, "c"), Some(c));
    assert_eq!(tree.find_child_by_key(a, "zz"), None);
    assert_eq!(tree.key_of(b), Some("b".to_string()));
    tree.set_listeners(c, vec![EventType::Click, EventType::ImeCommit]);
    assert!(tree.has_any_listener(c));
    assert!(tree.has_ime_listener(c));
    assert!(!tree.has_ime_listener(b));
    let st = ElementState { hovered: true, pressed: false, focused: true };
    tree.set_state(c, st);
    assert_eq!(tree.state(c), st);
    assert_eq!(tree.state(ElementId(50)), ElementState::default());
}
