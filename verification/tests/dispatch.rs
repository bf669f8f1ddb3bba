use lieui::dispatch::{
    dispatch_three_phase, three_phase_plan, Delivery, EventManager, MoveKind, MoveRoute, NodeFacts,
    UpRoute,
};
use lieui::effects::{ElementId, EventPhase, HitTestResult};
use lieui::event_types::{Modifiers, MouseButton};
use lieui::dispatch::{
    dispatch_node_listeners, CallbackStyle, ListenerAction, ListenerInfo, ListenerKind, ListenerStep,
};
use lieui::event_context::EventContext;
use lieui::event_types::EventType;
use std::cell::RefCell;

fn id(n: u64) -> ElementId {
    ElementId(n)
}

fn hit(path: &[u64]) -> HitTestResult {
    HitTestResult { target: id(*path.last().unwrap()), path: path.iter().map(|&n| id(n)).collect() }
}

fn facts(listens: &[bool], focusable: &[bool]) -> Vec<NodeFacts> {
    listens
        .iter()
        .zip(focusable.iter())
        .map(|(&l, &f)| NodeFacts { listens: l, focusable: f, ime: false })
        .collect()
}

#[test]
fn three_phase_order_is_capture_target_bubble() {
    let plan = three_phase_plan(&hit(&[1, 2, 3]));
    let expect = vec![
        Delivery { id: id(1), phase: EventPhase::Capture },
        Delivery { id: id(2), phase: EventPhase::Capture },
        Delivery { id: id(3), phase: EventPhase::Target },
        Delivery { id: id(2), phase: EventPhase::Bubble },
        Delivery { id: id(1), phase: EventPhase::Bubble },
    ];
    assert_eq!(plan, expect);
}

#[test]
fn three_phase_on_single_node_is_target_only() {
    let plan = three_phase_plan(&hit(&[7]));
    assert_eq!(plan, vec![Delivery { id: id(7), phase: EventPhase::Target }]);
}

#[test]
fn dispatch_stops_when_handler_stops() {
    let seen = RefCell::new(Vec::new());
    let handler = |d: Delivery| {
        seen.borrow_mut().push(d);
        d.phase == EventPhase::Target
    };
    let made = dispatch_three_phase(&hit(&[1, 2, 3]), &handler);
    assert_eq!(made, 3);
    assert_eq!(seen.borrow().len(), 3);
    let all = dispatch_three_phase(&hit(&[1, 2, 3]), &|_d: Delivery| false);
    assert_eq!(all, 5);
}

#[test]
fn press_focuses_innermost_focusable_and_counts_clicks() {
    let mut em = EventManager::new();
    let h = hit(&[1, 2, 3]);
    let f = facts(&[true, true, false], &[false, true, false]);
    let plan = em.handle_mouse_down(MouseButton::Left, false, &h, &f);
    assert_eq!(plan.click_count, 1);
    let focus = plan.focus.unwrap();
    assert_eq!(focus.lost, None);
    assert_eq!(focus.gained, Some(id(2)));
    assert_eq!(em.focused(), Some(id(2)));
    assert_eq!(plan.press, vec![id(3), id(1), id(2)]);
    assert!(plan.release.is_empty());
    assert!(plan.effects.needs_render());
    em.complete_mouse_down(MouseButton::Left, Modifiers::default(), None, None);
    let up = em.handle_mouse_up(&h);
    assert_eq!(up.release, vec![id(3), id(1), id(2)]);
    assert!(matches!(up.route, UpRoute::Bubbling { .. }));
    // repeated presses cycle 2, 3, 1
    let p2 = em.handle_mouse_down(MouseButton::Left, true, &h, &f);
    assert_eq!(p2.click_count, 2);
    assert!(p2.focus.is_none());
    let p3 = em.handle_mouse_down(MouseButton::Left, true, &h, &f);
    assert_eq!(p3.click_count, 3);
    let p4 = em.handle_mouse_down(MouseButton::Left, true, &h, &f);
    assert_eq!(p4.click_count, 1);
    // another button starts over
    let p5 = em.handle_mouse_down(MouseButton::Right, true, &h, &f);
    assert_eq!(p5.click_count, 1);
}

#[test]
fn press_on_non_focusable_area_clears_focus() {
    let mut em = EventManager::new();
    let f1 = facts(&[true], &[true]);
    em.handle_mouse_down(MouseButton::Left, false, &hit(&[5]), &f1);
    assert_eq!(em.focused(), Some(id(5)));
    let f2 = facts(&[false, false], &[false, false]);
    let plan = em.handle_mouse_down(MouseButton::Left, false, &hit(&[1, 2]), &f2);
    let focus = plan.focus.unwrap();
    assert_eq!(focus.lost, Some(id(5)));
    assert_eq!(focus.gained, None);
    assert_eq!(em.focused(), None);
    assert_eq!(em.handle_key_down(), None);
}

#[test]
fn captured_release_clicks_only_without_drag() {
    let mut em = EventManager::new();
    let h = hit(&[1, 2]);
    let f = facts(&[false, true], &[false, false]);
    em.handle_mouse_down(MouseButton::Left, false, &h, &f);
    em.complete_mouse_down(MouseButton::Left, Modifiers::default(), Some(id(2)), None);
    assert_eq!(em.mouse_capture(), Some(id(2)));
    let up = em.handle_mouse_up(&h);
    match up.route {
        UpRoute::Captured { id: c, click } => {
            assert_eq!(c, id(2));
            assert!(click);
        }
        _ => panic!("expected captured release"),
    }
    assert_eq!(em.mouse_capture(), None);
    assert!(!em.is_mouse_down());

    // a drag that started suppresses the click and ends with DragEnd
    em.handle_mouse_down(MouseButton::Left, false, &h, &f);
    em.complete_mouse_down(MouseButton::Left, Modifiers::default(), None, Some(id(2)));
    let m1 = em.handle_mouse_move(Some(&h), &f, false);
    assert_eq!(m1.kind, MoveKind::MouseMove);
    let m2 = em.handle_mouse_move(Some(&h), &f, true);
    assert_eq!(m2.kind, MoveKind::DragStart);
    assert!(matches!(m2.route, MoveRoute::Captured(c) if c == id(2)));
    let m3 = em.handle_mouse_move(Some(&h), &f, true);
    assert_eq!(m3.kind, MoveKind::DragMove);
    let up = em.handle_mouse_up(&h);
    assert_eq!(up.drag_end.map(|d| d.source), Some(id(2)));
    match up.route {
        UpRoute::Captured { click, .. } => assert!(!click),
        _ => panic!("expected captured release"),
    }
}

#[test]
fn hover_enter_and_leave_follow_the_path() {
    let mut em = EventManager::new();
    let f3 = facts(&[true, false, true], &[false, false, false]);
    let a = em.handle_mouse_move(Some(&hit(&[1, 2, 3])), &f3, false);
    assert_eq!(a.enter, vec![id(1), id(3)]);
    assert!(a.leave.is_empty());
    assert_eq!(a.hover.unwrap().entered, Some(id(3)));
    let f2 = facts(&[true, true], &[false, false]);
    let b = em.handle_mouse_move(Some(&hit(&[1, 4])), &f2, false);
    assert_eq!(b.leave, vec![id(3)]);
    assert_eq!(b.enter, vec![id(4)]);
    let c = em.handle_mouse_move(None, &Vec::new(), false);
    assert_eq!(c.leave, vec![id(1), id(4)]);
    assert!(c.enter.is_empty());
    assert_eq!(em.hovered(), None);
    assert!(matches!(c.route, MoveRoute::Unrouted));
}

#[test]
fn listener_passes_run_builtin_first_and_follow_phase_rules() {
    let ls = vec![
        ListenerInfo { event: EventType::Click, kind: ListenerKind::User, style: CallbackStyle::Simple },
        ListenerInfo { event: EventType::Click, kind: ListenerKind::BuiltIn, style: CallbackStyle::WithCtx },
        ListenerInfo { event: EventType::KeyDown, kind: ListenerKind::BuiltIn, style: CallbackStyle::Simple },
        ListenerInfo { event: EventType::Click, kind: ListenerKind::User, style: CallbackStyle::WithCtx },
    ];
    let (builtin, user) = dispatch_node_listeners(&ls, EventType::Click, EventPhase::Target);
    assert_eq!(builtin, vec![ListenerStep { index: 1, action: ListenerAction::Call }]);
    assert_eq!(
        user,
        vec![
            ListenerStep { index: 0, action: ListenerAction::CallThenStop },
            ListenerStep { index: 3, action: ListenerAction::Call },
        ]
    );
    let (_, user) = dispatch_node_listeners(&ls, EventType::Click, EventPhase::Capture);
    assert_eq!(user[0].action, ListenerAction::Skip);
    assert_eq!(user[1].action, ListenerAction::Call);
    let (_, user) = dispatch_node_listeners(&ls, EventType::Click, EventPhase::Bubble);
    assert_eq!(user[0].action, ListenerAction::Call);
    assert_eq!(user[1].action, ListenerAction::Skip);
}

#[test]
fn context_collects_requests() {
    let mut ctx = EventContext::with_target(id(4));
    assert_eq!(ctx.target(), Some(id(4)));
    assert!(!ctx.begin_drag());
    ctx.set_current(id(2));
    ctx.capture_mouse();
    assert!(ctx.begin_drag());
    ctx.request_render();
    ctx.set_phase(EventPhase::Bubble);
    assert_eq!(ctx.phase(), EventPhase::Bubble);
    assert!(!ctx.is_stopped());
    ctx.stop_propagation();
    assert!(ctx.is_stopped());
    assert_eq!(ctx.take_capture_request(), Some(id(2)));
    assert_eq!(ctx.take_capture_request(), None);
    assert_eq!(ctx.take_drag_request(), Some(id(2)));
    let e = ctx.take_effects();
    assert!(e.needs_render());
    assert!(!ctx.take_effects().needs_render());
}
