use lieui::color::Color;
use lieui::layers::{Anchor, FocusPolicy, LayerKind, LayerOptions};
use lieui::signals::{LayerCmd, PopupHandle, Signals};

#[test]
fn request_then_take_once() {
    let mut s: Signals<u8, ()> = Signals::new();
    s.register_window(1);
    s.register_window(2);
    s.set_current_window(1);
    s.request_rebuild();
    s.clear_current_window();
    assert!(s.take_rebuild_requested(1));
    assert!(!s.take_rebuild_requested(1));
    assert!(!s.take_rebuild_requested(2));
}

#[test]
fn request_without_current_window_broadcasts() {
    let mut s: Signals<u8, ()> = Signals::new();
    s.register_window(1);
    s.register_window(2);
    s.request_redraw();
    assert!(s.take_redraw_requested(1));
    assert!(s.take_redraw_requested(2));
    assert!(s.request_window_close());
    assert!(s.take_window_close_requested(2));
    s.unregister_window(2);
    s.request_redraw();
    assert!(!s.take_redraw_requested(2));
    assert!(s.take_redraw_requested(1));
}

#[test]
fn layer_commands_queue_in_order() {
    let mut s: Signals<u8, ()> = Signals::new();
    s.show_modal(7);
    s.hide_overlay();
    let cmds = s.take_pending_layers();
    assert_eq!(cmds.len(), 2);
    assert!(matches!(cmds[0], LayerCmd::Show { kind: LayerKind::Modal, payload: 7, .. }));
    assert!(matches!(cmds[1], LayerCmd::Hide { kind: LayerKind::Overlay }));
    assert!(s.take_pending_layers().is_empty());
    let h = s.alloc_layer_handle();
    let p = s.show_popup(PopupHandle(h), Anchor::Below(()), 3);
    s.hide_popup(p);
    assert_eq!(s.take_popup_hides(), vec![h.0]);
}

#[test]
fn modal_overlay_and_popup_carry_their_layer_spec() {
    let mut s: Signals<u8, (i32, i32)> = Signals::new();
    s.show_modal(1);
    s.show_overlay(2);
    let h = s.alloc_layer_handle();
    s.show_popup(PopupHandle(h), Anchor::Below((10, 20)), 3);
    let cmds = s.take_pending_layers();
    assert_eq!(cmds.len(), 3);
    match &cmds[0] {
        LayerCmd::Show { kind, spec, payload, handle } => {
            assert_eq!(*kind, LayerKind::Modal);
            assert!(matches!(spec.anchor, Anchor::ScreenCenter));
            assert_eq!(spec.focus, FocusPolicy::BlockBelow);
            assert_eq!(
                spec.opts,
                LayerOptions { visible: true, dismiss_on_outside: false, backdrop: Some(Color::rgba(0, 0, 0, 80)), flip: false }
            );
            assert_eq!(*payload, 1);
            assert_eq!(handle.0, 1);
        }
        LayerCmd::Hide { .. } => panic!("expected a show command"),
    }
    match &cmds[1] {
        LayerCmd::Show { kind, spec, handle, .. } => {
            assert_eq!(*kind, LayerKind::Overlay);
            assert!(matches!(spec.anchor, Anchor::Unanchored));
            assert_eq!(spec.focus, FocusPolicy::Transparent);
            assert_eq!(spec.opts.backdrop, None);
            assert_eq!(handle.0, 2);
        }
        LayerCmd::Hide { .. } => panic!("expected a show command"),
    }
    match &cmds[2] {
        LayerCmd::Show { kind, spec, handle, .. } => {
            assert_eq!(*kind, LayerKind::Popup);
            assert!(matches!(spec.anchor, Anchor::Below((10, 20))));
            assert_eq!(spec.focus, FocusPolicy::Dismissable);
            assert_eq!(spec.opts, LayerOptions::popup());
            assert_eq!(*handle, h);
        }
        LayerCmd::Hide { .. } => panic!("expected a show command"),
    }
}
