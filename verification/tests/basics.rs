use lieui::color::Color;
use lieui::effects::{EventEffects, ElementId};
use lieui::event_types::{has_focus_listener, has_ime_listener, EventResult, EventType};
use lieui::order::stable_order;
use lieui::text::{align_to_utf8_boundary, text_eq};

#[test]
fn effects_merge_as_flag_union() {
    let mut a = EventEffects::default();
    a.request_rebuild();
    let mut b = EventEffects::default();
    b.request_render();
    b.stop_propagation();
    a.merge(&b);
    assert!(a.needs_rebuild() && a.needs_render() && a.propagation_stopped());
    assert!(!a.needs_layout());
    assert_eq!(ElementId(9).as_ffi(), 9);
}

#[test]
fn hex_colors() {
    assert_eq!(Color::from_hex("#0066cc"), Color::rgba(0, 0x66, 0xcc, 255));
    assert_eq!(Color::from_hex("##FF000080"), Color::rgba(255, 0, 0, 0x80));
    assert_eq!(Color::from_hex("#12"), Color::rgba(0, 0, 0, 255));
    assert_eq!(Color::from_hex("#zz0000"), Color::rgba(0, 0, 0, 255));
    assert_eq!(Color::from_hex("#+a0000"), Color::rgba(10, 0, 0, 255));
    assert_eq!(Color::new(1, 2, 3), Color::rgba(1, 2, 3, 255));
    assert_eq!(Color::white(), Color::rgba(255, 255, 255, 255));
}

#[test]
fn utf8_alignment_and_text_equality() {
    let s = "aé";
    assert_eq!(align_to_utf8_boundary(s, 2), 1);
    assert_eq!(align_to_utf8_boundary(s, 3), 3);
    assert_eq!(align_to_utf8_boundary(s, 10), 3);
    assert!(text_eq("abc", "abc"));
    assert!(!text_eq("abc", "abd"));
    assert!(!text_eq("ab", "abc"));
}

#[test]
fn stable_order_keeps_ties_in_place() {
    assert_eq!(stable_order(&vec![3, 1, 2, 1]), vec![1, 3, 2, 0]);
}

#[test]
fn listener_kinds() {
    assert!(has_focus_listener(&vec![EventType::Click, EventType::FocusIn]));
    assert!(has_focus_listener(&vec![EventType::ImePreedit]));
    assert!(!has_focus_listener(&vec![EventType::Click]));
    assert!(has_ime_listener(&vec![EventType::ImeDisabled]));
    assert!(!has_ime_listener(&vec![EventType::FocusIn]));
    assert!(EventResult::Stop.is_stopped());
    assert!(!EventResult::Continue.is_stopped());
}
