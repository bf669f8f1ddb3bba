use lieui::effects::ElementId;
use lieui::layers::{FocusPolicy, LayerHandle, LayerKind, LayerOptions, LayerStack};

fn stack() -> LayerStack<u8> {
    LayerStack::new()
}

#[test]
fn kinds_have_z_bands_and_dispatch_order() {
    assert_eq!(LayerKind::Modal.z_base(), 3000);
    assert_eq!(LayerKind::Popup.z_range(), 1000..=1999);
    assert_eq!(
        LayerKind::dispatch_order(),
        [
            LayerKind::System,
            LayerKind::Tooltip,
            LayerKind::Modal,
            LayerKind::Overlay,
            LayerKind::Popup,
            LayerKind::Content
        ]
    );
    let p = LayerOptions::popup();
    assert!(p.dismiss_on_outside && p.flip && p.visible);
}

#[test]
fn push_then_remove_restores_and_returns_root() {
    let mut s = stack();
    let a = s.push(LayerKind::Content, ElementId(1), 0, FocusPolicy::Transparent, LayerOptions::default());
    let b = s.push(LayerKind::Popup, ElementId(2), 0, FocusPolicy::Dismissable, LayerOptions::popup());
    assert_eq!(s.by_handle(b).map(|e| e.root_id), Some(ElementId(2)));
    assert_eq!(s.by_handle(b).map(|e| e.z()), Some(1000));
    assert_eq!(s.remove(b), Some(ElementId(2)));
    assert!(s.by_handle(b).is_none());
    assert_eq!(s.remove(b), None);
    assert_eq!(s.by_handle(a).map(|e| e.root_id), Some(ElementId(1)));
}

#[test]
fn render_order_is_by_z_and_hit_order_reverse() {
    let mut s = stack();
    s.push(LayerKind::Modal, ElementId(3), 0, FocusPolicy::BlockBelow, LayerOptions::default());
    s.push(LayerKind::Content, ElementId(1), 0, FocusPolicy::Transparent, LayerOptions::default());
    s.push(LayerKind::Popup, ElementId(2), 0, FocusPolicy::Dismissable, LayerOptions::popup());
    let render: Vec<u64> = s.sorted_entries_for_render().iter().map(|e| e.root_id.0).collect();
    assert_eq!(render, vec![1, 2, 3]);
    let hit: Vec<u64> = s.sorted_entries_for_hit().iter().map(|e| e.root_id.0).collect();
    assert_eq!(hit, vec![3, 2, 1]);
    assert!(s.top_blocking_modal().is_some());
}

#[test]
fn closing_a_popup_closes_its_children() {
    let mut s = stack();
    let parent = s.push_with_handle(
        LayerKind::Popup,
        ElementId(10),
        0,
        FocusPolicy::Dismissable,
        LayerOptions::popup(),
        LayerHandle(5),
        None,
    );
    s.push_with_handle(
        LayerKind::Popup,
        ElementId(11),
        0,
        FocusPolicy::Dismissable,
        LayerOptions::popup(),
        LayerHandle(6),
        Some(parent),
    );
    s.push_with_handle(
        LayerKind::Popup,
        ElementId(12),
        0,
        FocusPolicy::Dismissable,
        LayerOptions::popup(),
        LayerHandle(7),
        Some(LayerHandle(6)),
    );
    let mut ds: Vec<u64> = s.popup_descendants(parent).iter().map(|h| h.0).collect();
    ds.sort();
    assert_eq!(ds, vec![6, 7]);
    let mut roots: Vec<u64> = s.close_popup(parent).iter().map(|r| r.0).collect();
    assert_eq!(roots.len(), 3);
    assert_eq!(*roots.last().unwrap(), 10);
    roots.sort();
    assert_eq!(roots, vec![10, 11, 12]);
    assert!(s.by_handle(LayerHandle(7)).is_none());
}

#[test]
fn outside_click_dismisses_popups_and_hit_picks_topmost() {
    let mut s = stack();
    s.push(LayerKind::Content, ElementId(1), 0, FocusPolicy::Transparent, LayerOptions::default());
    s.push(LayerKind::Popup, ElementId(2), 0, FocusPolicy::Dismissable, LayerOptions::popup());
    let out = s.hit_test_top(&vec![Some(ElementId(100)), Some(ElementId(200))]);
    let (kind, el, _h) = out.hit.unwrap();
    assert_eq!(kind, LayerKind::Popup);
    assert_eq!(el, ElementId(200));
    let out = s.hit_test_top(&vec![None, None]);
    assert!(out.hit.is_none());
    assert_eq!(out.closed_roots, vec![ElementId(2)]);
}

#[test]
fn content_and_default_layers() {
    let mut s = stack();
    assert_eq!(s.set_content_root(ElementId(1), 0), None);
    assert_eq!(s.content_root_id(), Some(ElementId(1)));
    assert_eq!(s.set_content_root(ElementId(2), 0), Some(ElementId(1)));
    assert_eq!(s.content_root_id(), Some(ElementId(2)));
    assert_eq!(s.push_default_overlay(ElementId(3), 0), None);
    assert_eq!(s.default_overlay_root_id(), Some(ElementId(3)));
    assert!(s.layer_has_content(LayerKind::Overlay));
    assert_eq!(s.remove_default_overlay(), Some(ElementId(3)));
    assert!(!s.layer_has_content(LayerKind::Overlay));
    assert_eq!(s.push_default_modal(ElementId(4), 0), None);
    assert_eq!(s.default_modal_root_id(), Some(ElementId(4)));
    assert_eq!(s.remove_default_modal(), Some(ElementId(4)));
}

#[test]
fn removing_child_popup_unlinks_it_from_parent_without_cascade() {
    let mut s = stack();
    s.push_with_handle(
        LayerKind::Popup,
        ElementId(1),
        0,
        FocusPolicy::Dismissable,
        LayerOptions::popup(),
        LayerHandle(10),
        None,
    );
    s.push_with_handle(
        LayerKind::Popup,
        ElementId(2),
        0,
        FocusPolicy::Dismissable,
        LayerOptions::popup(),
        LayerHandle(11),
        Some(LayerHandle(10)),
    );
    s.push_with_handle(
        LayerKind::Popup,
        ElementId(3),
        0,
        FocusPolicy::Dismissable,
        LayerOptions::popup(),
        LayerHandle(12),
        Some(LayerHandle(11)),
    );
    assert_eq!(s.remove(LayerHandle(11)), Some(ElementId(2)));
    assert!(s.by_handle(LayerHandle(11)).is_none());
    assert!(s.by_handle(LayerHandle(10)).is_some());
    // No cascade: the grandchild stays on the stack.
    assert!(s.by_handle(LayerHandle(12)).is_some());
    assert!(s.popup_descendants(LayerHandle(10)).is_empty());
    // Closing the parent now closes only the parent.
    let roots: Vec<u64> = s.close_popup(LayerHandle(10)).iter().map(|r| r.0).collect();
    assert_eq!(roots, vec![1]);
    assert!(s.by_handle(LayerHandle(12)).is_some());
}

#[test]
fn hidden_entry_is_skipped_by_hit_test_until_shown_again() {
    let mut s = stack();
    s.push(LayerKind::Content, ElementId(1), 0, FocusPolicy::Transparent, LayerOptions::default());
    let p = s.push(LayerKind::Popup, ElementId(2), 0, FocusPolicy::Transparent, LayerOptions::default());
    s.set_visible(p, false);
    assert_eq!(s.by_handle(p).map(|e| e.visible), Some(false));
    let out = s.hit_test_top(&vec![Some(ElementId(100)), Some(ElementId(200))]);
    let (kind, el, _h) = out.hit.unwrap();
    assert_eq!(kind, LayerKind::Content);
    assert_eq!(el, ElementId(100));
    s.set_visible(p, true);
    let out = s.hit_test_top(&vec![Some(ElementId(100)), Some(ElementId(200))]);
    let (kind, el, _h) = out.hit.unwrap();
    assert_eq!(kind, LayerKind::Popup);
    assert_eq!(el, ElementId(200));
}
