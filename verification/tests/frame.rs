use lieui::frame::{close_allowed, needs_resize, redraw_path, CloseAction, RedrawPath};

#[test]
fn close_guard_decides() {
    assert!(close_allowed(None));
    assert!(close_allowed(Some(CloseAction::Allow)));
    assert!(!close_allowed(Some(CloseAction::Cancel)));
}

#[test]
fn resize_only_for_new_nonempty_sizes() {
    assert!(needs_resize(800, 600, (640, 480)));
    assert!(!needs_resize(800, 600, (800, 600)));
    assert!(!needs_resize(0, 600, (640, 480)));
}

#[test]
fn redraw_paths() {
    assert_eq!(redraw_path(true, true, false, false), RedrawPath::VisualsOnly);
    assert_eq!(redraw_path(false, true, false, false), RedrawPath::Full);
    assert_eq!(redraw_path(true, false, false, false), RedrawPath::Full);
    assert_eq!(redraw_path(true, true, true, false), RedrawPath::Full);
    assert_eq!(redraw_path(true, true, false, true), RedrawPath::Full);
}
