use lieui::effects::ElementId;
use lieui::reconcile::{Patch, Reconciler};
use lieui::layers::{FocusPolicy, LayerKind, LayerOptions, LayerStack};
use lieui::tree::{ElementTree, NodeKind, ViewNode};

fn div(children: Vec<ViewNode>) -> ViewNode {
    ViewNode { kind: NodeKind::Div, key: None, config: 0, listeners: Vec::new(), children }
}

/// Configuration identifier of a text node: its content and colour.
fn text_config(content: &str, color: (u8, u8, u8)) -> u64 {
    let mut c: u64 = 0;
    for b in content.bytes() {
        c = c * 31 + b as u64;
    }
    (c << 24) | ((color.0 as u64) << 16) | ((color.1 as u64) << 8) | color.2 as u64
}

fn text_with_key(content: &str, key: &str) -> ViewNode {
    text_with_key_and_color(content, key, (0, 0, 0))
}

fn text_with_key_and_color(content: &str, key: &str, color: (u8, u8, u8)) -> ViewNode {
    ViewNode {
        kind: NodeKind::Text,
        key: Some(key.to_string()),
        config: text_config(content, color),
        listeners: Vec::new(),
        children: Vec::new(),
    }
}

fn build_tree(view: &ViewNode) -> (ElementTree, ElementId) {
    let mut tree = ElementTree::new();
    let root = tree.create_from_node(view);
    tree.set_root(root);
    let mut r = Reconciler::new();
    let mut patches = Vec::new();
    r.diff(view, root, &tree, &mut patches);
    r.apply(patches, &mut tree);
    (tree, root)
}

fn raw(ids: &[ElementId]) -> Vec<u64> {
    ids.iter().map(|e| e.0).collect()
}

#[test]
fn move_reorders_children_without_recreate() {
    let old = div(vec![
        text_with_key("a", "a"),
        text_with_key("b", "b"),
        text_with_key("c", "c"),
    ]);
    let new = div(vec![
        text_with_key("c", "c"),
        text_with_key("a", "a"),
        text_with_key("b", "b"),
    ]);

    let (mut tree, root) = build_tree(&old);
    let before: Vec<ElementId> = tree.children_of(root);

    let mut r = Reconciler::new();
    let mut patches = Vec::new();
    r.diff(&new, root, &tree, &mut patches);
    assert_eq!(patches.len(), 3, "expected 3 Move patches");
    assert!(patches.iter().all(|p| matches!(p, Patch::Move { .. })));
    assert_eq!(r.stats.moved, 3);
    assert_eq!(r.stats.created, 0);
    assert_eq!(r.stats.removed, 0);
    assert_eq!(r.stats.updated, 0);

    r.apply(patches, &mut tree);
    let after: Vec<ElementId> = tree.children_of(root);
    assert_eq!(after.len(), 3);
    assert_eq!(after[0], before[2]);
    assert_eq!(after[1], before[0]);
    assert_eq!(after[2], before[1]);
    let mut before_sorted = raw(&before);
    let mut after_sorted = raw(&after);
    before_sorted.sort();
    after_sorted.sort();
    assert_eq!(before_sorted, after_sorted);
}

#[test]
fn move_combined_with_update() {
    let old = div(vec![
        text_with_key_and_color("a", "a", (255, 0, 0)),
        text_with_key_and_color("b", "b", (0, 0, 255)),
    ]);
    let new = div(vec![
        text_with_key_and_color("b", "b", (0, 255, 0)),
        text_with_key_and_color("a", "a", (255, 0, 0)),
    ]);

    let (mut tree, root) = build_tree(&old);
    let before = tree.children_of(root);

    let mut r = Reconciler::new();
    let mut patches = Vec::new();
    r.diff(&new, root, &tree, &mut patches);
    assert_eq!(r.stats.moved, 2);
    assert_eq!(r.stats.updated, 1);
    assert_eq!(r.stats.created, 0);
    assert_eq!(r.stats.removed, 0);

    r.apply(patches, &mut tree);
    let after = tree.children_of(root);
    assert_eq!(after.len(), 2);
    assert_eq!(after[0], before[1]);
    assert_eq!(after[1], before[0]);
}

#[test]
fn no_move_when_order_unchanged() {
    let old = div(vec![text_with_key("a", "a"), text_with_key("b", "b")]);
    let new = div(vec![text_with_key("a", "a"), text_with_key("b", "b")]);

    let (tree, root) = build_tree(&old);
    let mut r = Reconciler::new();
    let mut patches = Vec::new();
    r.diff(&new, root, &tree, &mut patches);
    assert!(patches.iter().all(|p| !matches!(p, Patch::Move { .. })));
    assert_eq!(r.stats.moved, 0);
}

#[test]
fn build_creates_nested_children() {
    let view = div(vec![div(vec![text_with_key("x", "x")]), text_with_key("y", "y")]);
    let (tree, root) = build_tree(&view);
    assert_eq!(tree.len(), 4);
    let kids = tree.children_of(root);
    assert_eq!(kids.len(), 2);
    assert_eq!(tree.children_of(kids[0]).len(), 1);
    assert_eq!(tree.parent_of(kids[1]), Some(root));
    assert_eq!(tree.node_type_of(kids[1]), Some(NodeKind::Text));
}

#[test]
fn unmatched_children_are_created_and_removed() {
    let old = div(vec![text_with_key("a", "a"), text_with_key("b", "b")]);
    let (mut tree, root) = build_tree(&old);
    let before = tree.children_of(root);
    let new = div(vec![
        text_with_key("b", "b"),
        ViewNode { kind: NodeKind::Image, key: None, config: 9, listeners: Vec::new(), children: Vec::new() },
    ]);
    let mut r = Reconciler::new();
    let mut patches = Vec::new();
    r.diff(&new, root, &tree, &mut patches);
    assert_eq!(r.stats.created, 1);
    assert_eq!(r.stats.removed, 1);
    assert_eq!(r.stats.moved, 1);
    r.apply(patches, &mut tree);
    let after = tree.children_of(root);
    assert_eq!(after.len(), 2);
    assert_eq!(after[0], before[1]);
    assert!(!tree.contains(before[0]));
    assert_eq!(tree.node_type_of(after[1]), Some(NodeKind::Image));
}

#[test]
fn listener_only_change_refreshes_listeners() {
    let old = div(vec![text_with_key("a", "a")]);
    let (mut tree, root) = build_tree(&old);
    let mut with_listener = text_with_key("a", "a");
    with_listener.listeners = vec![lieui::event_types::EventType::Click];
    let new = div(vec![with_listener]);
    let mut r = Reconciler::new();
    let mut patches = Vec::new();
    r.diff(&new, root, &tree, &mut patches);
    assert_eq!(patches.len(), 1);
    assert!(matches!(patches[0], Patch::UpdateListeners { .. }));
    assert_eq!(r.stats.updated, 0);
    r.apply(patches, &mut tree);
    let child = tree.children_of(root)[0];
    assert!(tree.has_any_listener(child));
}

#[test]
fn create_subtree_builds_detached_copy() {
    let mut tree = ElementTree::new();
    let view = div(vec![text_with_key("a", "a"), div(vec![text_with_key("b", "b")])]);
    let id = lieui::reconcile::create_subtree_from_node(&mut tree, &view);
    assert_eq!(id, ElementId(0));
    assert_eq!(tree.len(), 4);
    assert_eq!(tree.parent_of(id), None);
    let kids = tree.children_of(id);
    assert_eq!(kids.len(), 2);
    assert_eq!(tree.key_of(kids[0]), Some("a".to_string()));
    assert_eq!(tree.children_of(kids[1]).len(), 1);
}

#[test]
fn update_view_changes_the_layer_root() {

    let mut tree = ElementTree::new();
    let root = lieui::reconcile::create_subtree_from_node(&mut tree, &div(vec![]));
    let mut layers: LayerStack<u8> = LayerStack::new();
    let h = layers.push(LayerKind::Overlay, root, 0, FocusPolicy::Transparent, LayerOptions::default());
    tree.clear_dirty();
    layers.update_view(&mut tree, h, &text_with_key("z", "z"));
    assert_eq!(tree.node_type_of(root), Some(NodeKind::Text));
    assert_eq!(tree.key_of(root), Some("z".to_string()));
    assert!(tree.is_dirty(root));
}
