use lieui::color::Color;
use lieui::effects::ElementId;
use lieui::dispatch::{node_facts, set_flag_on, Flag, NodeFacts};
use lieui::event_types::EventType;
use lieui::layer_commands::{apply_layer_commands, apply_popup_hides, commands_fit, reconcile_content, view_size};
use lieui::layers::{Anchor, FocusPolicy, LayerHandle, LayerKind, LayerStack};
use lieui::paint_state::{inherited_state, state_background, state_color};
use lieui::signals::{LayerCmd, LayerSpec, PopupHandle, Signals};
use lieui::tree::{ElementState, ElementTree, NodeKind, ViewNode};

fn div(children: Vec<ViewNode>) -> ViewNode {
    ViewNode { kind: NodeKind::Div, key: None, config: 0, listeners: Vec::new(), children }
}

#[test]
fn queued_commands_build_subtrees_and_stack_entries() {
    let mut layers: LayerStack<Anchor<u8>> = LayerStack::new();
    let mut tree = ElementTree::new();
    let mut signals: Signals<ViewNode, u8> = Signals::new();
    signals.show_modal(div(vec![div(Vec::new()), div(Vec::new())]));
    let h = signals.alloc_layer_handle();
    signals.show_popup(PopupHandle(h), Anchor::Below(4), div(Vec::new()));
    let cmds = signals.take_pending_layers();
    assert!(apply_layer_commands(&mut layers, &mut tree, cmds));
    // The modal subtree takes slots 0..3, the popup root is slot 3.
    assert_eq!(tree.len(), 4);
    assert_eq!(tree.children_of(ElementId(0)).len(), 2);
    assert_eq!(layers.default_modal_root_id(), Some(ElementId(0)));
    let popup = layers.by_handle(h).unwrap();
    assert_eq!(popup.root_id, ElementId(3));
    assert_eq!(popup.kind, LayerKind::Popup);
    assert_eq!(popup.focus, FocusPolicy::Dismissable);
    assert!(popup.dismiss_on_outside_click && popup.flip);
    assert!(matches!(popup.anchor, Anchor::Below(4)));
    let modal = layers.by_handle(layers.top_blocking_modal().unwrap()).unwrap();
    assert_eq!(modal.backdrop, Some(Color::rgba(0, 0, 0, 80)));
    assert!(matches!(modal.anchor, Anchor::ScreenCenter));

    signals.hide_modal();
    signals.hide_layer(LayerKind::Popup);
    let cmds = signals.take_pending_layers();
    assert!(apply_layer_commands(&mut layers, &mut tree, cmds));
    assert_eq!(layers.default_modal_root_id(), None);
    // The hidden modal's element subtree is gone from the tree.
    assert!(!tree.contains(ElementId(0)));
    assert!(!tree.contains(ElementId(1)));
    assert!(!tree.contains(ElementId(2)));
    assert!(tree.contains(ElementId(3)));
    // Hiding a popup by kind does nothing; popups close by handle.
    assert!(layers.by_handle(h).is_some());
    assert!(!apply_layer_commands(&mut layers, &mut tree, Vec::new()));
}

#[test]
fn shown_layer_of_other_kind_keeps_its_command_handle() {
    let mut layers: LayerStack<Anchor<u8>> = LayerStack::new();
    let mut tree = ElementTree::new();
    let cmds = vec![LayerCmd::Show {
        kind: LayerKind::Tooltip,
        spec: LayerSpec::new(Anchor::Above(2), FocusPolicy::Transparent),
        payload: div(Vec::new()),
        handle: LayerHandle(40),
    }];
    apply_layer_commands(&mut layers, &mut tree, cmds);
    let e = layers.by_handle(LayerHandle(40)).unwrap();
    assert_eq!(e.kind, LayerKind::Tooltip);
    assert_eq!(e.z(), 4000);
    assert!(e.visible);
}

#[test]
fn non_interactive_nodes_draw_with_nearest_interactive_ancestor_state() {
    let hovered = ElementState { hovered: true, pressed: false, focused: false };
    let idle = ElementState { hovered: false, pressed: false, focused: false };
    // A hovered button with an inner label that has no listener.
    let (button_drawn, handed) = inherited_state(true, hovered, None);
    assert_eq!(button_drawn, hovered);
    let (label_drawn, handed2) = inherited_state(false, idle, handed);
    assert_eq!(label_drawn, hovered);
    assert_eq!(handed2, Some(hovered));
    // Without any interactive ancestor a node draws idle.
    let pressed = ElementState { hovered: false, pressed: true, focused: false };
    assert_eq!(inherited_state(false, pressed, None), (idle, None));
}

#[test]
fn state_colors_and_backgrounds() {
    let pressed = ElementState { hovered: true, pressed: true, focused: false };
    let hovered = ElementState { hovered: true, pressed: false, focused: false };
    let idle = ElementState { hovered: false, pressed: false, focused: false };
    assert_eq!(state_color(pressed, 1, Some(2), Some(3)), 3);
    // Pressed without a pressed colour uses the normal colour, not the hover one.
    assert_eq!(state_color(pressed, 1, Some(2), None), 1);
    assert_eq!(state_color(hovered, 1, Some(2), Some(3)), 2);
    assert_eq!(state_color(idle, 1, Some(2), Some(3)), 1);
    // Pressed without a pressed background falls back to the hover one.
    assert_eq!(state_background(pressed, Some(1), Some(2), None), Some(2));
    assert_eq!(state_background(pressed, Some(1), Some(2), Some(3)), Some(3));
    assert_eq!(state_background(idle, None, Some(2), Some(3)), None);
}

fn keyed_div(key: &str) -> ViewNode {
    ViewNode { kind: NodeKind::Div, key: Some(key.to_string()), config: 0, listeners: Vec::new(), children: Vec::new() }
}

#[test]
fn first_frame_builds_content_root_then_later_frames_reconcile() {
    let mut layers: LayerStack<Anchor<u8>> = LayerStack::new();
    let mut tree = ElementTree::new();
    let view = div(vec![keyed_div("a"), keyed_div("b"), keyed_div("c")]);
    assert!(reconcile_content(&mut layers, &mut tree, &view).is_none());
    assert_eq!(layers.content_root_id(), Some(ElementId(0)));
    assert_eq!(tree.root(), Some(ElementId(0)));
    let kids = tree.children_of(ElementId(0));
    let keys: Vec<Option<String>> = kids.iter().map(|k| tree.key_of(*k)).collect();
    assert_eq!(keys, vec![Some("a".to_string()), Some("b".to_string()), Some("c".to_string())]);
    assert_eq!(tree.parent_of(kids[1]), Some(ElementId(0)));

    let view2 = div(vec![keyed_div("c"), keyed_div("a"), keyed_div("b")]);
    let stats = reconcile_content(&mut layers, &mut tree, &view2).unwrap();
    assert_eq!(stats.created, 0);
    assert_eq!(stats.removed, 0);
    let kids2 = tree.children_of(ElementId(0));
    let keys2: Vec<Option<String>> = kids2.iter().map(|k| tree.key_of(*k)).collect();
    assert_eq!(keys2, vec![Some("c".to_string()), Some("a".to_string()), Some("b".to_string())]);
    assert_eq!(layers.content_root_id(), Some(ElementId(0)));
}

#[test]
fn shown_layer_subtree_is_built_all_the_way_down_and_replaced_modal_is_dropped() {
    let mut layers: LayerStack<Anchor<u8>> = LayerStack::new();
    let mut tree = ElementTree::new();
    let text = ViewNode { kind: NodeKind::Text, key: Some("t".to_string()), config: 9, listeners: Vec::new(), children: Vec::new() };
    let inner = ViewNode { kind: NodeKind::Div, key: Some("inner".to_string()), config: 5, listeners: Vec::new(), children: vec![text] };
    let dialog = div(vec![inner, keyed_div("ok")]);
    let mut signals: Signals<ViewNode, u8> = Signals::new();
    signals.show_modal(dialog);
    apply_layer_commands(&mut layers, &mut tree, signals.take_pending_layers());
    // Root 0, inner 1 with text 2 below it, button 3.
    assert_eq!(tree.children_of(ElementId(0)), vec![ElementId(1), ElementId(3)]);
    assert_eq!(tree.children_of(ElementId(1)), vec![ElementId(2)]);
    assert_eq!(tree.node_type_of(ElementId(2)), Some(NodeKind::Text));
    assert_eq!(tree.key_of(ElementId(2)), Some("t".to_string()));
    assert_eq!(tree.config_of(ElementId(2)), Some(9));
    assert_eq!(tree.parent_of(ElementId(2)), Some(ElementId(1)));
    assert_eq!(tree.key_of(ElementId(3)), Some("ok".to_string()));

    // Showing another modal replaces the first one and drops its elements.
    signals.show_modal(div(Vec::new()));
    apply_layer_commands(&mut layers, &mut tree, signals.take_pending_layers());
    assert_eq!(layers.default_modal_root_id(), Some(ElementId(4)));
    for i in 0..4 {
        assert!(!tree.contains(ElementId(i)));
    }
}

#[test]
fn node_facts_read_listeners_from_the_tree() {
    let mut layers: LayerStack<Anchor<u8>> = LayerStack::new();
    let mut tree = ElementTree::new();
    let input = ViewNode {
        kind: NodeKind::Div,
        key: None,
        config: 0,
        listeners: vec![EventType::Click, EventType::ImeCommit],
        children: vec![div(Vec::new())],
    };
    let view = div(vec![input]);
    reconcile_content(&mut layers, &mut tree, &view);
    let path = vec![ElementId(0), ElementId(1), ElementId(2)];
    let facts = node_facts(&tree, &path, &vec![false, false, true]);
    assert_eq!(facts[0], NodeFacts { listens: false, focusable: false, ime: false });
    assert_eq!(facts[1], NodeFacts { listens: true, focusable: true, ime: true });
    assert_eq!(facts[2], NodeFacts { listens: true, focusable: false, ime: false });
}

#[test]
fn command_limits_are_checked_before_applying() {
    let layers: LayerStack<Anchor<u8>> = LayerStack::new();
    let tree = ElementTree::new();
    let view = div(vec![div(vec![div(Vec::new())]), div(Vec::new())]);
    assert_eq!(view_size(&view), Some(4));
    let ok = vec![LayerCmd::Show {
        kind: LayerKind::Tooltip,
        spec: LayerSpec::new(Anchor::Above(1), FocusPolicy::Transparent),
        payload: view,
        handle: LayerHandle(3),
    }];
    assert!(commands_fit(&layers, &tree, &ok));
    let bad = vec![LayerCmd::Show {
        kind: LayerKind::Tooltip,
        spec: LayerSpec::new(Anchor::Above(1), FocusPolicy::Transparent),
        payload: div(Vec::new()),
        handle: LayerHandle(u64::MAX),
    }];
    assert!(!commands_fit(&layers, &tree, &bad));
}

#[test]
fn flags_are_set_on_exactly_the_named_elements() {
    let mut layers: LayerStack<Anchor<u8>> = LayerStack::new();
    let mut tree = ElementTree::new();
    reconcile_content(&mut layers, &mut tree, &div(vec![div(Vec::new()), div(Vec::new())]));
    set_flag_on(&mut tree, &vec![ElementId(1), ElementId(2)], Flag::Pressed, true);
    set_flag_on(&mut tree, &vec![ElementId(2)], Flag::Pressed, false);
    set_flag_on(&mut tree, &vec![ElementId(2)], Flag::Hovered, true);
    assert!(tree.state(ElementId(1)).pressed);
    assert!(!tree.state(ElementId(0)).pressed);
    let s2 = tree.state(ElementId(2));
    assert!(!s2.pressed && s2.hovered && !s2.focused);
}

#[test]
fn queued_popup_hides_close_popups_and_drop_their_elements() {
    let mut layers: LayerStack<Anchor<u8>> = LayerStack::new();
    let mut tree = ElementTree::new();
    let mut signals: Signals<ViewNode, u8> = Signals::new();
    let h = signals.alloc_layer_handle();
    signals.show_popup(PopupHandle(h), Anchor::Below(1), div(vec![div(Vec::new())]));
    apply_layer_commands(&mut layers, &mut tree, signals.take_pending_layers());
    assert!(layers.by_handle(h).is_some());
    assert!(tree.contains(ElementId(0)) && tree.contains(ElementId(1)));
    signals.hide_popup(PopupHandle(h));
    apply_popup_hides(&mut layers, &mut tree, signals.take_popup_hides());
    assert!(layers.by_handle(h).is_none());
    assert!(!tree.contains(ElementId(0)) && !tree.contains(ElementId(1)));
}

fn image(children: Vec<ViewNode>) -> ViewNode {
    ViewNode { kind: NodeKind::Image, key: None, config: 0, listeners: Vec::new(), children }
}

#[test]
fn later_frame_reuses_matched_leaves_and_builds_new_subtrees_in_view_order() {
    let mut layers: LayerStack<Anchor<u8>> = LayerStack::new();
    let mut tree = ElementTree::new();
    assert!(reconcile_content(&mut layers, &mut tree, &div(vec![keyed_div("a"), keyed_div("b")])).is_none());
    let before = tree.children_of(ElementId(0));
    assert_eq!(before, vec![ElementId(1), ElementId(2)]);

    let view = div(vec![keyed_div("b"), image(vec![image(Vec::new()), image(Vec::new())]), keyed_div("a")]);
    let stats = reconcile_content(&mut layers, &mut tree, &view).unwrap();
    assert_eq!(stats.created, 1);
    assert_eq!(stats.removed, 0);
    let kids = tree.children_of(ElementId(0));
    assert_eq!(kids.len(), 3);
    assert_eq!(kids[0], ElementId(2));
    assert_eq!(kids[2], ElementId(1));
    let fresh = kids[1];
    assert_eq!(fresh, ElementId(3));
    assert_eq!(tree.node_type_of(fresh), Some(NodeKind::Image));
    assert_eq!(tree.parent_of(fresh), Some(ElementId(0)));
    let grand = tree.children_of(fresh);
    assert_eq!(grand, vec![ElementId(4), ElementId(5)]);
    assert_eq!(tree.node_type_of(grand[1]), Some(NodeKind::Image));
    assert_eq!(tree.parent_of(grand[0]), Some(fresh));
}

#[test]
fn reconciling_the_same_view_again_changes_nothing() {
    let mut layers: LayerStack<Anchor<u8>> = LayerStack::new();
    let mut tree = ElementTree::new();
    let view = div(vec![keyed_div("a"), image(vec![image(Vec::new())]), div(vec![keyed_div("b")])]);
    assert!(reconcile_content(&mut layers, &mut tree, &view).is_none());
    let slots = tree.slot_count();
    let kids = tree.children_of(ElementId(0));
    let stats = reconcile_content(&mut layers, &mut tree, &view).unwrap();
    assert_eq!((stats.created, stats.updated, stats.removed, stats.moved), (0, 0, 0, 0));
    assert_eq!(tree.slot_count(), slots);
    assert_eq!(tree.children_of(ElementId(0)), kids);
    assert_eq!(tree.children_of(kids[1]), vec![ElementId(3)]);
    assert_eq!(tree.children_of(kids[2]), vec![ElementId(5)]);
}
