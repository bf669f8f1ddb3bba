use lieui::external::{batch_request, wake, ExternalEvent};
use lieui::signals::Request;

#[test]
fn external_event_needs_redraw() {
    assert!(ExternalEvent::<Box<i32>>::Rebuild.needs_redraw());
    assert!(ExternalEvent::<Box<i32>>::Redraw.needs_redraw());
    assert!(!ExternalEvent::Data(Box::new(42)).needs_redraw());
}

#[test]
fn wake_before_proxy_is_noop() {
    // Without a registered proxy, waking must not panic and sends nothing.
    assert!(!wake(None));
}

#[test]
fn batch_prefers_rebuild_over_redraw() {
    assert_eq!(batch_request(true, true), Some(Request::Rebuild));
    assert_eq!(batch_request(false, true), Some(Request::Redraw));
    assert_eq!(batch_request(false, false), None);
}
