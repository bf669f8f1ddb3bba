//! Event routing: three-phase delivery order and the pointer/focus state
//! machine that decides who receives each input event.
//!
//! The manager never calls handlers itself. Each `handle_*` method updates the
//! routing state and returns a plan: which nodes get which event, in what
//! order, and which interaction flags (hovered, pressed, focused) change. The
//! caller performs the plan with its handlers and reports back what the
//! handlers requested (mouse capture, drag tracking).

use vstd::prelude::*;
use crate::effects::{ElementId, EventPhase, HitTestResult, EventEffects, EffectsModel, no_effects};
use crate::event_types::{EventType, MouseButton, Modifiers, has_focus_listener, spec_any_focus_kind, spec_any_ime_kind};
use crate::tree::{ElementState, ElementTree, EntryView, TreeModel, node, slot};

verus! {

/// One delivery of an event to a node in a phase.
#[derive(Debug, Clone, Copy, PartialEq, Eq, Structural)]
pub struct Delivery {
    pub id: ElementId,
    pub phase: EventPhase,
}

/// Number of ancestors that see the capture and bubble phases.
pub open spec fn ancestor_count(path_len: int) -> int {
    if path_len > 0 {
        path_len - 1
    } else {
        0
    }
}

/// Capture deliveries: root first, down to the target's parent.
pub open spec fn capture_deliveries(path: Seq<ElementId>) -> Seq<Delivery> {
    Seq::new(
        ancestor_count(path.len() as int) as nat,
        |i: int| Delivery { id: path[i], phase: EventPhase::Capture },
    )
}

/// Bubble deliveries: the target's parent first, up to the root.
pub open spec fn bubble_deliveries(path: Seq<ElementId>) -> Seq<Delivery> {
    let n = ancestor_count(path.len() as int);
    Seq::new(n as nat, |i: int| Delivery { id: path[n - 1 - i], phase: EventPhase::Bubble })
}

/// The full delivery order of a three-phase dispatch over a hit path
/// (root first, target last): capture over the ancestors outside in, the
/// target itself, then bubble over the ancestors inside out.
pub open spec fn three_phase(path: Seq<ElementId>, target: ElementId) -> Seq<Delivery> {
    capture_deliveries(path).push(Delivery { id: target, phase: EventPhase::Target })
        + bubble_deliveries(path)
}

/// The delivery order for a hit test result.
pub fn three_phase_plan(hit: &HitTestResult) -> (r: Vec<Delivery>)
    ensures
        r@ == three_phase(hit.path@, hit.target),
{
    let len = hit.path.len();
    let n: usize = if len > 0 { len - 1 } else { 0 };
    let mut out: Vec<Delivery> = Vec::new();
    let mut i: usize = 0;
    while i < n
        invariant
            n == ancestor_count(hit.path@.len() as int),
            i <= n,
            out@ =~= capture_deliveries(hit.path@).subrange(0, i as int),
        decreases n - i,
    {
        out.push(Delivery { id: hit.path[i], phase: EventPhase::Capture });
        i = i + 1;
    }
    assert(out@ =~= capture_deliveries(hit.path@));
    out.push(Delivery { id: hit.target, phase: EventPhase::Target });
    let ghost head = out@;
    let mut k: usize = 0;
    while k < n
        invariant
            n == ancestor_count(hit.path@.len() as int),
            k <= n,
            head == capture_deliveries(hit.path@).push(
                Delivery { id: hit.target, phase: EventPhase::Target },
            ),
            out@ =~= head + bubble_deliveries(hit.path@).subrange(0, k as int),
        decreases n - k,
    {
        out.push(Delivery { id: hit.path[n - 1 - k], phase: EventPhase::Bubble });
        k = k + 1;
    }
    assert(out@ =~= three_phase(hit.path@, hit.target));
    out
}

/// The bubble phase retraces the capture phase in reverse: the delivery at
/// position `i` and the one at the mirrored position go to the same node,
/// and the target sits exactly in the middle.
pub proof fn lemma_three_phase_mirror(path: Seq<ElementId>, target: ElementId)
    ensures
        ({
            let n = ancestor_count(path.len() as int);
            let d = three_phase(path, target);
            &&& d.len() == 2 * n + 1
            &&& d[n] == Delivery { id: target, phase: EventPhase::Target }
            &&& forall|i: int|
                0 <= i < n ==> (#[trigger] d[i]).id == d[2 * n - i].id && d[i].phase
                    == EventPhase::Capture && d[2 * n - i].phase == EventPhase::Bubble
        }),
{
    let n = ancestor_count(path.len() as int);
    let d = three_phase(path, target);
    assert forall|i: int| 0 <= i < n implies (#[trigger] d[i]).id == d[2 * n - i].id
        && d[i].phase == EventPhase::Capture && d[2 * n - i].phase == EventPhase::Bubble by {
        assert(d[i] == capture_deliveries(path)[i]);
        assert(d[2 * n - i] == bubble_deliveries(path)[n - 1 - i]);
    }
}

/// Delivers the three-phase order to `handler` until it reports that
/// propagation stopped. Returns how many deliveries were made: all of them,
/// or up to and including the one whose handler stopped propagation.
pub fn dispatch_three_phase<F: Fn(Delivery) -> bool>(hit: &HitTestResult, handler: &F) -> (made:
    usize)
    requires
        forall|d: Delivery| #[trigger] call_requires(*handler, (d,)),
    ensures
        ({
            let plan = three_phase(hit.path@, hit.target);
            &&& 1 <= made <= plan.len()
            &&& made < plan.len() ==> call_ensures(*handler, (plan[made - 1],), true)
            &&& forall|i: int| 0 <= i < made - 1 ==> call_ensures(*handler, (plan[i],), false)
        }),
{
    let plan = three_phase_plan(hit);
    let mut i: usize = 0;
    while i < plan.len()
        invariant
            plan@ == three_phase(hit.path@, hit.target),
            i <= plan.len(),
            forall|d: Delivery| #[trigger] call_requires(*handler, (d,)),
            forall|j: int| 0 <= j < i ==> call_ensures(*handler, (plan@[j],), false),
        decreases plan.len() - i,
    {
        let stopped = handler(plan[i]);
        if stopped {
            return i + 1;
        }
        i = i + 1;
    }
    plan.len()
}

/// What the caller knows about a node on the hit path.
#[derive(Debug, Clone, Copy, PartialEq, Eq, Structural)]
pub struct NodeFacts {
    /// The node has listeners or declares hover/pressed styling, so it takes
    /// part in hover and pressed feedback.
    pub listens: bool,
    /// The node listens for focus or input-method events.
    pub focusable: bool,
    /// The node listens for input-method events.
    pub ime: bool,
}

/// The facts of the element `id` as the tree holds them; `styled` tells
/// whether it declares hover or pressed styling.
pub open spec fn facts_of(t: TreeModel, id: ElementId, styled: bool) -> NodeFacts {
    match slot(t, id) {
        Some(e) => NodeFacts {
            listens: e.listeners@.len() > 0 || styled,
            focusable: spec_any_focus_kind(e.listeners@),
            ime: spec_any_ime_kind(e.listeners@),
        },
        None => NodeFacts { listens: styled, focusable: false, ime: false },
    }
}

/// The facts of each node of a hit path, read from the tree: whether it
/// takes part in hover and pressed feedback (it has listeners, or
/// `styled[i]` says it declares hover or pressed styling), whether it takes
/// focus (a focus or input-method listener), and whether it receives
/// input-method events.
pub fn node_facts(tree: &ElementTree, path: &Vec<ElementId>, styled: &Vec<bool>) -> (r: Vec<NodeFacts>)
    requires
        styled@.len() == path@.len(),
    ensures
        r@.len() == path@.len(),
        forall|i: int| 0 <= i < path@.len() ==> #[trigger] r@[i] == facts_of(tree@, path@[i], styled@[i]),
{
    let mut r: Vec<NodeFacts> = Vec::new();
    let mut i: usize = 0;
    while i < path.len()
        invariant
            i <= path@.len(),
            styled@.len() == path@.len(),
            r@.len() == i,
            forall|k: int| 0 <= k < i ==> #[trigger] r@[k] == facts_of(tree@, path@[k], styled@[k]),
        decreases path@.len() - i,
    {
        let id = path[i];
        let kinds = tree.listeners(id);
        let f = NodeFacts {
            listens: kinds.len() > 0 || styled[i],
            focusable: has_focus_listener(&kinds),
            ime: tree.has_ime_listener(id),
        };
        r.push(f);
        i = i + 1;
    }
    r
}

/// Which interaction flag a plan sets or clears.
#[derive(Debug, Clone, Copy, PartialEq, Eq, Structural)]
pub enum Flag {
    Hovered,
    Pressed,
    Focused,
}

/// `s` with flag `f` set to `v`.
pub open spec fn with_flag(s: ElementState, f: Flag, v: bool) -> ElementState {
    match f {
        Flag::Hovered => ElementState { hovered: v, ..s },
        Flag::Pressed => ElementState { pressed: v, ..s },
        Flag::Focused => ElementState { focused: v, ..s },
    }
}

/// The element `x` of `t` after flag `f` was set to `v` on the elements
/// `ids`.
pub open spec fn flagged(t: TreeModel, ids: Seq<ElementId>, f: Flag, v: bool, x: ElementId) -> Option<EntryView> {
    if ids.contains(x) {
        match node(t, x) {
            Some(e) => Some(EntryView { state: with_flag(e.state, f, v), ..e }),
            None => None,
        }
    } else {
        node(t, x)
    }
}

/// Sets flag `f` to `v` on every live element of `ids` (as a plan's
/// `press`, `release`, hover or focus change asks); nothing else changes.
pub fn set_flag_on(tree: &mut ElementTree, ids: &Vec<ElementId>, f: Flag, v: bool)
    ensures
        final(tree)@.slots.len() == old(tree)@.slots.len(),
        final(tree)@.root == old(tree)@.root,
        forall|x: ElementId| #[trigger] node(final(tree)@, x) == flagged(old(tree)@, ids@, f, v, x),
{
    let ghost t0 = tree@;
    let mut i: usize = 0;
    while i < ids.len()
        invariant
            i <= ids@.len(),
            tree@.slots.len() == t0.slots.len(),
            tree@.root == t0.root,
            forall|x: ElementId| #[trigger] node(tree@, x) == flagged(t0, ids@.subrange(0, i as int), f, v, x),
        decreases ids@.len() - i,
    {
        let id = ids[i];
        let st = tree.state(id);
        let nst = match f {
            Flag::Hovered => ElementState { hovered: v, ..st },
            Flag::Pressed => ElementState { pressed: v, ..st },
            Flag::Focused => ElementState { focused: v, ..st },
        };
        let ghost before = tree@;
        tree.set_state(id, nst);
        proof {
            let pre = ids@.subrange(0, i as int);
            let post = ids@.subrange(0, i + 1);
            assert(post =~= pre.push(id));
            assert forall|x: ElementId| #[trigger] node(tree@, x) == flagged(t0, post, f, v, x) by {
                crate::seqs::lemma_push_contains(pre, id, x);
                if x != id {
                    assert(node(tree@, x) == node(before, x));
                }
            }
        }
        i = i + 1;
    }
    assert(ids@.subrange(0, ids@.len() as int) =~= ids@);
}

/// The nodes among the first `n` path entries that take part in hover and
/// pressed feedback, in path order.
pub open spec fn listening(path: Seq<ElementId>, facts: Seq<NodeFacts>, n: int) -> Seq<ElementId>
    decreases n,
{
    if n <= 0 {
        Seq::empty()
    } else {
        let p = listening(path, facts, n - 1);
        if facts[n - 1].listens {
            p.push(path[n - 1])
        } else {
            p
        }
    }
}

/// Index of the innermost focusable node among the first `n`, or -1.
pub open spec fn last_focusable(facts: Seq<NodeFacts>, n: int) -> int
    decreases n,
{
    if n <= 0 {
        -1
    } else if facts[n - 1].focusable {
        n - 1
    } else {
        last_focusable(facts, n - 1)
    }
}

/// The node that takes focus when the path is pressed: the innermost
/// focusable node, or none (pressing a non-focusable area clears focus).
pub open spec fn focus_target(path: Seq<ElementId>, facts: Seq<NodeFacts>) -> Option<ElementId> {
    let i = last_focusable(facts, path.len() as int);
    if i >= 0 {
        Some(path[i])
    } else {
        None
    }
}

/// Whether the focus target listens for input-method events.
pub open spec fn focus_target_ime(path: Seq<ElementId>, facts: Seq<NodeFacts>) -> bool {
    let i = last_focusable(facts, path.len() as int);
    i >= 0 && facts[i].ime
}

/// The entries of `a[..n]` that do not occur in `b`, in order.
pub open spec fn absent_from(a: Seq<ElementId>, b: Seq<ElementId>, n: int) -> Seq<ElementId>
    decreases n,
{
    if n <= 0 {
        Seq::empty()
    } else {
        let p = absent_from(a, b, n - 1);
        if b.contains(a[n - 1]) {
            p
        } else {
            p.push(a[n - 1])
        }
    }
}

/// Click counter after a press: a repeated press (same button, close in time
/// and place) advances 1 → 2 → 3 → 1, any other press starts at 1.
pub open spec fn next_click_count(prev: u8, repeat: bool) -> u8 {
    if repeat {
        (prev % 3 + 1) as u8
    } else {
        1
    }
}

/// The `Some` values of an optional id, as a sequence of zero or one ids.
pub open spec fn opt_seq(o: Option<ElementId>) -> Seq<ElementId> {
    match o {
        Some(x) => seq![x],
        None => Seq::empty(),
    }
}

/// Membership in `absent_from`: exactly the entries of the prefix that the
/// other sequence lacks.
pub proof fn lemma_absent_from_members(a: Seq<ElementId>, b: Seq<ElementId>, n: int, x: ElementId)
    requires
        0 <= n <= a.len(),
    ensures
        absent_from(a, b, n).contains(x) <==> a.subrange(0, n).contains(x) && !b.contains(x),
    decreases n,
{
    if n > 0 {
        lemma_absent_from_members(a, b, n - 1, x);
        crate::seqs::lemma_prefix_contains(a, n - 1, x);
        crate::seqs::lemma_push_contains(absent_from(a, b, n - 1), a[n - 1], x);
    } else {
        assert(a.subrange(0, 0) =~= Seq::<ElementId>::empty());
    }
}

fn contains_id(v: &Vec<ElementId>, x: ElementId) -> (r: bool)
    ensures
        r == v@.contains(x),
{
    let mut i: usize = 0;
    while i < v.len()
        invariant
            i <= v.len(),
            forall|j: int| 0 <= j < i ==> v@[j] != x,
        decreases v.len() - i,
    {
        if v[i] == x {
            assert(v@[i as int] == x);
            return true;
        }
        i = i + 1;
    }
    false
}

fn listening_nodes(path: &Vec<ElementId>, facts: &Vec<NodeFacts>) -> (r: Vec<ElementId>)
    requires
        facts.len() == path.len(),
    ensures
        r@ == listening(path@, facts@, path@.len() as int),
{
    let mut out: Vec<ElementId> = Vec::new();
    let mut i: usize = 0;
    while i < path.len()
        invariant
            facts.len() == path.len(),
            i <= path.len(),
            out@ == listening(path@, facts@, i as int),
        decreases path.len() - i,
    {
        if facts[i].listens {
            out.push(path[i]);
        }
        i = i + 1;
    }
    out
}

fn absent_nodes(a: &Vec<ElementId>, b: &Vec<ElementId>) -> (r: Vec<ElementId>)
    ensures
        r@ == absent_from(a@, b@, a@.len() as int),
{
    let mut out: Vec<ElementId> = Vec::new();
    let mut i: usize = 0;
    while i < a.len()
        invariant
            i <= a.len(),
            out@ == absent_from(a@, b@, i as int),
        decreases a.len() - i,
    {
        if !contains_id(b, a[i]) {
            out.push(a[i]);
        }
        i = i + 1;
    }
    out
}

fn copy_ids(v: &Vec<ElementId>) -> (r: Vec<ElementId>)
    ensures
        r@ == v@,
{
    let mut out: Vec<ElementId> = Vec::new();
    let mut i: usize = 0;
    while i < v.len()
        invariant
            i <= v.len(),
            out@ =~= v@.subrange(0, i as int),
        decreases v.len() - i,
    {
        out.push(v[i]);
        i = i + 1;
    }
    assert(out@ =~= v@);
    out
}


/// An ongoing drag, started by a handler during a press. The pointer
/// positions and the distance threshold are tracked by the caller, which
/// reports when the threshold has been crossed.
#[derive(Debug, Clone, Copy, PartialEq, Eq, Structural)]
pub struct DragState {
    /// The node that asked for the drag; all drag events go to it.
    pub source: ElementId,
    /// Whether the pointer has moved past the threshold (drag events began).
    pub started: bool,
    pub button: MouseButton,
    pub modifiers: Modifiers,
}

/// Focus moved from one node (or none) to another (or none).
#[derive(Debug, Clone, Copy, PartialEq, Eq, Structural)]
pub struct FocusTransition {
    /// Receives `FocusOut` and loses its focused flag.
    pub lost: Option<ElementId>,
    /// Receives `FocusIn` and gains its focused flag.
    pub gained: Option<ElementId>,
}

/// The innermost hovered node changed.
#[derive(Debug, Clone, Copy, PartialEq, Eq, Structural)]
pub struct HoverChange {
    /// Loses its hovered flag.
    pub left: Option<ElementId>,
    /// Gains its hovered flag.
    pub entered: Option<ElementId>,
}

/// What to do for a press.
pub struct MouseDownPlan {
    /// Click counter carried by the `MouseDown` event (1, 2 or 3).
    pub click_count: u8,
    /// Focus change to perform first, if focus moves.
    pub focus: Option<FocusTransition>,
    /// Nodes whose pressed flag is cleared (leftovers of an earlier press).
    pub release: Vec<ElementId>,
    /// Nodes whose pressed flag is set: the target, then the feedback nodes.
    pub press: Vec<ElementId>,
    /// Requests made by the manager itself (a repaint for pressed feedback).
    pub effects: EventEffects,
    /// Delivery order of the `MouseDown` event.
    pub deliveries: Vec<Delivery>,
}

/// Where a release goes.
pub enum UpRoute {
    /// Straight to the capturing node; `click` tells whether a `Click`
    /// follows (released over the same node and no real drag happened).
    Captured { id: ElementId, click: bool },
    /// Three-phase `MouseUp` and then three-phase `Click` over the hit path.
    Bubbling { deliveries: Vec<Delivery> },
}

/// What to do for a release.
pub struct MouseUpPlan {
    /// A `DragEnd` for the drag source, delivered first, if a drag started.
    pub drag_end: Option<DragState>,
    /// Nodes whose pressed flag is cleared.
    pub release: Vec<ElementId>,
    pub effects: EventEffects,
    pub route: UpRoute,
}

/// Which event a pointer move becomes.
#[derive(Debug, Clone, Copy, PartialEq, Eq, Structural)]
pub enum MoveKind {
    MouseMove,
    DragStart,
    DragMove,
}

/// Where a pointer move goes.
pub enum MoveRoute {
    Captured(ElementId),
    Bubbling(Vec<Delivery>),
    Unrouted,
}

/// What to do for a pointer move.
pub struct MouseMovePlan {
    pub kind: MoveKind,
    pub route: MoveRoute,
    /// Change of the innermost hovered node, if any.
    pub hover: Option<HoverChange>,
    /// Feedback nodes the pointer left: they get `MouseLeave`, in this order.
    pub leave: Vec<ElementId>,
    /// Feedback nodes the pointer entered: they get `MouseEnter`, in this order.
    pub enter: Vec<ElementId>,
    pub effects: EventEffects,
}

/// The routing state of one window.
pub struct EventManager {
    focused: Option<ElementId>,
    mouse_capture: Option<ElementId>,
    mouse_down: bool,
    drag: Option<DragState>,
    hovered: Option<ElementId>,
    hovered_listeners: Vec<ElementId>,
    pressed_node: Option<ElementId>,
    pressed_listeners: Vec<ElementId>,
    focused_ime: bool,
    last_click_button: Option<MouseButton>,
    click_count: u8,
}

/// The routing state as plain values.
pub struct ManagerModel {
    pub focused: Option<ElementId>,
    pub mouse_capture: Option<ElementId>,
    pub mouse_down: bool,
    pub drag: Option<DragState>,
    /// Innermost hovered node.
    pub hovered: Option<ElementId>,
    /// Feedback nodes on the hovered path.
    pub hovered_listeners: Seq<ElementId>,
    /// The node that was actually pressed.
    pub pressed_node: Option<ElementId>,
    /// Feedback nodes on the pressed path.
    pub pressed_listeners: Seq<ElementId>,
    /// Whether the focused node listens for input-method events.
    pub focused_ime: bool,
    pub last_click_button: Option<MouseButton>,
    pub click_count: u8,
}

impl View for EventManager {
    type V = ManagerModel;

    closed spec fn view(&self) -> ManagerModel {
        ManagerModel {
            focused: self.focused,
            mouse_capture: self.mouse_capture,
            mouse_down: self.mouse_down,
            drag: self.drag,
            hovered: self.hovered,
            hovered_listeners: self.hovered_listeners@,
            pressed_node: self.pressed_node,
            pressed_listeners: self.pressed_listeners@,
            focused_ime: self.focused_ime,
            last_click_button: self.last_click_button,
            click_count: self.click_count,
        }
    }
}

/// The state of a manager that has seen no input.
pub open spec fn initial_model() -> ManagerModel {
    ManagerModel {
        focused: None,
        mouse_capture: None,
        mouse_down: false,
        drag: None,
        hovered: None,
        hovered_listeners: Seq::empty(),
        pressed_node: None,
        pressed_listeners: Seq::empty(),
        focused_ime: false,
        last_click_button: None,
        click_count: 0,
    }
}

/// The state after moving focus to `new_focus` (no change when it already
/// has it).
pub open spec fn refocused(m: ManagerModel, new_focus: Option<ElementId>, new_ime: bool) -> ManagerModel {
    if m.focused == new_focus {
        m
    } else {
        ManagerModel { focused: new_focus, focused_ime: new_focus is Some && new_ime, ..m }
    }
}

impl EventManager {
    pub fn new() -> (r: Self)
        ensures
            r@ == initial_model(),
    {
        EventManager {
            focused: None,
            mouse_capture: None,
            mouse_down: false,
            drag: None,
            hovered: None,
            hovered_listeners: Vec::new(),
            pressed_node: None,
            pressed_listeners: Vec::new(),
            focused_ime: false,
            last_click_button: None,
            click_count: 0,
        }
    }

    pub fn focused(&self) -> (r: Option<ElementId>)
        ensures
            r == self@.focused,
    {
        self.focused
    }

    pub fn focused_ime(&self) -> (r: bool)
        ensures
            r == self@.focused_ime,
    {
        self.focused_ime
    }

    pub fn hovered(&self) -> (r: Option<ElementId>)
        ensures
            r == self@.hovered,
    {
        self.hovered
    }

    pub fn mouse_capture(&self) -> (r: Option<ElementId>)
        ensures
            r == self@.mouse_capture,
    {
        self.mouse_capture
    }

    /// Whether a button is held.
    pub fn is_mouse_down(&self) -> (r: bool)
        ensures
            r == self@.mouse_down,
    {
        self.mouse_down
    }

    /// The ongoing drag, if any.
    pub fn drag(&self) -> (r: Option<DragState>)
        ensures
            r == self@.drag,
    {
        self.drag
    }

    /// Sets or clears the mouse capture explicitly (for example while a
    /// scroll view drags its content).
    pub fn set_mouse_capture(&mut self, id: Option<ElementId>)
        ensures
            final(self)@ == (ManagerModel { mouse_capture: id, ..old(self)@ }),
    {
        self.mouse_capture = id;
    }

    /// Moves focus. Returns the transition to perform (`FocusOut` to the old
    /// node, `FocusIn` to the new one), or `None` when focus does not move.
    /// `new_ime` tells whether the new node listens for input-method events.
    pub fn handle_focus_change(&mut self, new_focus: Option<ElementId>, new_ime: bool) -> (r:
        Option<FocusTransition>)
        ensures
            final(self)@ == refocused(old(self)@, new_focus, new_ime),
            r == (if old(self)@.focused == new_focus {
                None
            } else {
                Some(FocusTransition { lost: old(self)@.focused, gained: new_focus })
            }),
    {
        let old_focus = self.focused;
        if old_focus == new_focus {
            return None;
        }
        self.focused_ime = new_focus.is_some() && new_ime;
        self.focused = new_focus;
        Some(FocusTransition { lost: old_focus, gained: new_focus })
    }

    /// A press. `repeat` tells whether this press is close enough in time and
    /// place to the previous one to count as a repeated click; it only counts
    /// when the button is also the same. `facts` describes each node of
    /// `hit.path`.
    pub fn handle_mouse_down(
        &mut self,
        button: MouseButton,
        repeat: bool,
        hit: &HitTestResult,
        facts: &Vec<NodeFacts>,
    ) -> (r: MouseDownPlan)
        requires
            facts.len() == hit.path.len(),
        ensures
            ({
                let o = old(self)@;
                let path = hit.path@;
                let target = focus_target(path, facts@);
                let count = next_click_count(
                    o.click_count,
                    repeat && o.last_click_button == Some(button),
                );
                let feedback = listening(path, facts@, path.len() as int);
                let f = refocused(o, target, focus_target_ime(path, facts@));
                &&& r.click_count == count
                &&& 1 <= count <= 3
                &&& r.focus == (if o.focused == target {
                    None
                } else {
                    Some(FocusTransition { lost: o.focused, gained: target })
                })
                &&& r.release@ == opt_seq(o.pressed_node) + o.pressed_listeners
                &&& r.press@ == seq![hit.target] + feedback
                &&& r.effects@ == (EffectsModel { render: feedback.len() > 0, ..no_effects() })
                &&& r.deliveries@ == three_phase(path, hit.target)
                &&& final(self)@ == (ManagerModel {
                    mouse_down: true,
                    drag: None,
                    click_count: count,
                    last_click_button: Some(button),
                    pressed_node: Some(hit.target),
                    pressed_listeners: feedback,
                    ..f
                })
            }),
    {
        self.drag = None;
        self.mouse_down = true;
        let is_multi = repeat && self.last_click_button == Some(button);
        self.click_count = if is_multi {
            self.click_count % 3 + 1
        } else {
            1
        };
        self.last_click_button = Some(button);

        let mut idx: usize = hit.path.len();
        while idx > 0 && !facts[idx - 1].focusable
            invariant
                facts.len() == hit.path.len(),
                idx <= hit.path.len(),
                last_focusable(facts@, hit.path@.len() as int) == last_focusable(
                    facts@,
                    idx as int,
                ),
            decreases idx,
        {
            idx = idx - 1;
        }
        let (target, target_ime) = if idx > 0 {
            (Some(hit.path[idx - 1]), facts[idx - 1].ime)
        } else {
            (None, false)
        };
        let focus = self.handle_focus_change(target, target_ime);

        let mut release: Vec<ElementId> = Vec::new();
        if let Some(p) = self.pressed_node {
            release.push(p);
        }
        let mut i: usize = 0;
        let ghost head = release@;
        while i < self.pressed_listeners.len()
            invariant
                i <= self.pressed_listeners.len(),
                release@ =~= head + self.pressed_listeners@.subrange(0, i as int),
            decreases self.pressed_listeners.len() - i,
        {
            release.push(self.pressed_listeners[i]);
            i = i + 1;
        }
        assert(release@ =~= head + self.pressed_listeners@);

        let feedback = listening_nodes(&hit.path, facts);
        let mut press: Vec<ElementId> = Vec::new();
        press.push(hit.target);
        let mut j: usize = 0;
        while j < feedback.len()
            invariant
                j <= feedback.len(),
                press@ =~= seq![hit.target] + feedback@.subrange(0, j as int),
            decreases feedback.len() - j,
        {
            press.push(feedback[j]);
            j = j + 1;
        }
        assert(press@ =~= seq![hit.target] + feedback@);

        let mut effects = EventEffects::default();
        if feedback.len() > 0 {
            effects.request_render();
        }
        self.pressed_node = Some(hit.target);
        self.pressed_listeners = feedback;
        let deliveries = three_phase_plan(hit);
        MouseDownPlan {
            click_count: self.click_count,
            focus,
            release,
            press,
            effects,
            deliveries,
        }
    }

    /// Records what the `MouseDown` handlers asked for: a mouse capture
    /// and/or a drag (a drag implies capture by its source). A later request
    /// wins over an earlier one.
    pub fn complete_mouse_down(
        &mut self,
        button: MouseButton,
        modifiers: Modifiers,
        capture_request: Option<ElementId>,
        drag_request: Option<ElementId>,
    )
        ensures
            ({
                let o = old(self)@;
                let cap = match drag_request {
                    Some(s) => Some(s),
                    None => match capture_request {
                        Some(c) => Some(c),
                        None => o.mouse_capture,
                    },
                };
                let drag = match drag_request {
                    Some(s) => Some(
                        DragState { source: s, started: false, button, modifiers },
                    ),
                    None => o.drag,
                };
                final(self)@ == (ManagerModel { mouse_capture: cap, drag, ..o })
            }),
    {
        if let Some(c) = capture_request {
            self.mouse_capture = Some(c);
        }
        if let Some(s) = drag_request {
            self.mouse_capture = Some(s);
            self.drag = Some(DragState { source: s, started: false, button, modifiers });
        }
    }
}

/// The drag after a pointer move: it starts once the pointer passed the
/// threshold.
pub open spec fn advanced_drag(d: Option<DragState>, past_threshold: bool) -> Option<DragState> {
    match d {
        Some(g) => Some(DragState { started: g.started || past_threshold, ..g }),
        None => None,
    }
}

/// The event a captured pointer move becomes.
pub open spec fn captured_move_kind(d: Option<DragState>, past_threshold: bool) -> MoveKind {
    match d {
        Some(g) => if g.started {
            MoveKind::DragMove
        } else if past_threshold {
            MoveKind::DragStart
        } else {
            MoveKind::MouseMove
        },
        None => MoveKind::MouseMove,
    }
}

impl EventManager {
    /// A release over `hit` (the capturing node stands in for the hit when
    /// the pointer is over nothing).
    pub fn handle_mouse_up(&mut self, hit: &HitTestResult) -> (r: MouseUpPlan)
        ensures
            ({
                let o = old(self)@;
                let dragged = o.drag is Some && o.drag->0.started;
                &&& r.drag_end == (if dragged {
                    o.drag
                } else {
                    None
                })
                &&& r.release@ == opt_seq(o.mouse_capture) + opt_seq(o.pressed_node)
                    + o.pressed_listeners
                &&& r.effects@ == (EffectsModel {
                    render: o.pressed_node is Some || o.pressed_listeners.len() > 0,
                    ..no_effects()
                })
                &&& match o.mouse_capture {
                    Some(c) => r.route matches UpRoute::Captured { id, click } && id == c
                        && click == (hit.target == c && !dragged),
                    None => r.route matches UpRoute::Bubbling { deliveries } && deliveries@
                        == three_phase(hit.path@, hit.target),
                }
                &&& final(self)@ == (ManagerModel {
                    drag: None,
                    mouse_capture: None,
                    mouse_down: false,
                    pressed_node: None,
                    pressed_listeners: Seq::empty(),
                    ..o
                })
            }),
    {
        let dragged = match self.drag {
            Some(d) => d.started,
            None => false,
        };
        let drag_end = if dragged {
            self.drag
        } else {
            None
        };
        self.drag = None;

        let mut release: Vec<ElementId> = Vec::new();
        if let Some(c) = self.mouse_capture {
            release.push(c);
        }
        if let Some(p) = self.pressed_node {
            release.push(p);
        }
        let ghost head = release@;
        let mut i: usize = 0;
        while i < self.pressed_listeners.len()
            invariant
                i <= self.pressed_listeners.len(),
                release@ =~= head + self.pressed_listeners@.subrange(0, i as int),
            decreases self.pressed_listeners.len() - i,
        {
            release.push(self.pressed_listeners[i]);
            i = i + 1;
        }
        assert(release@ =~= head + self.pressed_listeners@);
        let mut effects = EventEffects::default();
        if self.pressed_node.is_some() || self.pressed_listeners.len() > 0 {
            effects.request_render();
        }
        self.pressed_node = None;
        self.pressed_listeners = Vec::new();

        let route = match self.mouse_capture {
            Some(c) => {
                self.mouse_capture = None;
                UpRoute::Captured { id: c, click: hit.target == c && !dragged }
            },
            None => UpRoute::Bubbling { deliveries: three_phase_plan(hit) },
        };
        self.mouse_down = false;
        MouseUpPlan { drag_end, release, effects, route }
    }

    /// A pointer move over `hit` (`None` when the pointer is over nothing).
    /// `past_threshold` tells whether the pointer is now far enough from the
    /// press point to start a pending drag. `facts` describes each node of
    /// the hit path.
    pub fn handle_mouse_move(
        &mut self,
        hit: Option<&HitTestResult>,
        facts: &Vec<NodeFacts>,
        past_threshold: bool,
    ) -> (r: MouseMovePlan)
        requires
            hit matches Some(h) ==> facts.len() == h.path.len(),
        ensures
            ({
                let o = old(self)@;
                let new_target = match hit {
                    Some(h) => Some(h.target),
                    None => None,
                };
                let feedback = match hit {
                    Some(h) => listening(h.path@, facts@, h.path@.len() as int),
                    None => Seq::empty(),
                };
                let leave = absent_from(o.hovered_listeners, feedback, o.hovered_listeners.len() as int);
                let enter = absent_from(feedback, o.hovered_listeners, feedback.len() as int);
                let drag = if o.mouse_capture is Some {
                    advanced_drag(o.drag, past_threshold)
                } else {
                    o.drag
                };
                &&& r.kind == (if o.mouse_capture is Some {
                    captured_move_kind(o.drag, past_threshold)
                } else {
                    MoveKind::MouseMove
                })
                &&& match o.mouse_capture {
                    Some(c) => r.route matches MoveRoute::Captured(id) && id == c,
                    None => match hit {
                        Some(h) => r.route matches MoveRoute::Bubbling(d) && d@ == three_phase(
                            h.path@,
                            h.target,
                        ),
                        None => r.route is Unrouted,
                    },
                }
                &&& r.hover == (if new_target != o.hovered {
                    Some(HoverChange { left: o.hovered, entered: new_target })
                } else {
                    None
                })
                &&& r.leave@ == leave
                &&& r.enter@ == enter
                &&& r.effects@ == (EffectsModel {
                    render: o.mouse_capture is Some || new_target != o.hovered || leave.len() > 0
                        || enter.len() > 0,
                    ..no_effects()
                })
                &&& final(self)@ == (ManagerModel {
                    drag,
                    hovered: new_target,
                    hovered_listeners: feedback,
                    ..o
                })
            }),
    {
        let mut effects = EventEffects::default();
        let mut kind = MoveKind::MouseMove;
        let route = match self.mouse_capture {
            Some(c) => {
                if let Some(d) = self.drag {
                    if d.started {
                        kind = MoveKind::DragMove;
                    } else if past_threshold {
                        kind = MoveKind::DragStart;
                    }
                    self.drag = Some(DragState { started: d.started || past_threshold, ..d });
                }
                effects.request_render();
                MoveRoute::Captured(c)
            },
            None => match hit {
                Some(h) => MoveRoute::Bubbling(three_phase_plan(h)),
                None => MoveRoute::Unrouted,
            },
        };

        let new_target = match hit {
            Some(h) => Some(h.target),
            None => None,
        };
        let feedback = match hit {
            Some(h) => listening_nodes(&h.path, facts),
            None => Vec::new(),
        };
        let hover = if new_target != self.hovered {
            effects.request_render();
            let change = HoverChange { left: self.hovered, entered: new_target };
            self.hovered = new_target;
            Some(change)
        } else {
            None
        };
        let leave = absent_nodes(&self.hovered_listeners, &feedback);
        let enter = absent_nodes(&feedback, &self.hovered_listeners);
        if leave.len() > 0 || enter.len() > 0 {
            effects.request_render();
        }
        self.hovered_listeners = feedback;
        MouseMovePlan { kind, route, hover, leave, enter, effects }
    }

    /// A wheel turn: delivered in three phases over the hit path.
    pub fn handle_wheel(&self, hit: &HitTestResult) -> (r: Vec<Delivery>)
        ensures
            r@ == three_phase(hit.path@, hit.target),
    {
        three_phase_plan(hit)
    }

    /// A key press goes to the focused node, if any.
    pub fn handle_key_down(&self) -> (r: Option<ElementId>)
        ensures
            r == self@.focused,
    {
        self.focused
    }

    /// A key release goes to the focused node, if any.
    pub fn handle_key_up(&self) -> (r: Option<ElementId>)
        ensures
            r == self@.focused,
    {
        self.focused
    }

    /// Input-method composition text goes to the focused node, if any.
    pub fn handle_ime_preedit(&self) -> (r: Option<ElementId>)
        ensures
            r == self@.focused,
    {
        self.focused
    }

    /// Committed input-method text goes to the focused node, if any.
    pub fn handle_ime_commit(&self) -> (r: Option<ElementId>)
        ensures
            r == self@.focused,
    {
        self.focused
    }

    /// The end of input-method composition goes to the focused node, if any.
    pub fn handle_ime_disabled(&self) -> (r: Option<ElementId>)
        ensures
            r == self@.focused,
    {
        self.focused
    }
}

impl Default for EventManager {
    fn default() -> (r: Self)
        ensures
            r@ == initial_model(),
    {
        EventManager::new()
    }
}

/// Pointer enter/leave follow set semantics: a node gets `MouseEnter` only if
/// it is on the new feedback path and was not hovered before, and
/// `MouseLeave` only if it was hovered and is not on the new path; no node
/// gets both.
pub proof fn lemma_enter_leave_disjoint(old_hovered: Seq<ElementId>, new_hovered: Seq<ElementId>, x: ElementId)
    ensures
        absent_from(new_hovered, old_hovered, new_hovered.len() as int).contains(x) <==> (
        new_hovered.contains(x) && !old_hovered.contains(x)),
        absent_from(old_hovered, new_hovered, old_hovered.len() as int).contains(x) <==> (
        old_hovered.contains(x) && !new_hovered.contains(x)),
        !(absent_from(new_hovered, old_hovered, new_hovered.len() as int).contains(x)
            && absent_from(old_hovered, new_hovered, old_hovered.len() as int).contains(x)),
{
    lemma_absent_from_members(new_hovered, old_hovered, new_hovered.len() as int, x);
    lemma_absent_from_members(old_hovered, new_hovered, old_hovered.len() as int, x);
    assert(new_hovered.subrange(0, new_hovered.len() as int) =~= new_hovered);
    assert(old_hovered.subrange(0, old_hovered.len() as int) =~= old_hovered);
}

/// Every node that a press marks as pressed is cleared again by the next
/// release, whichever node the release happens over: the release clears the
/// capturing node, the pressed node and the pressed feedback nodes.
pub proof fn lemma_release_clears_press(
    capture: Option<ElementId>,
    target: ElementId,
    feedback: Seq<ElementId>,
    x: ElementId,
)
    ensures
        (seq![target] + feedback).contains(x) ==> (opt_seq(capture) + opt_seq(Some(target))
            + feedback).contains(x),
{
    if (seq![target] + feedback).contains(x) {
        let i = choose|i: int| 0 <= i < (seq![target] + feedback).len() && (seq![target] + feedback)[i] == x;
        let r = opt_seq(capture) + opt_seq(Some(target)) + feedback;
        let c = opt_seq(capture).len() as int;
        assert(r[c + i] == x);
    }
}

/// Repeated clicks cycle through single, double and triple click.
pub proof fn lemma_click_count_cycle(prev: u8)
    ensures
        1 <= next_click_count(prev, true) <= 3,
        next_click_count(1, true) == 2,
        next_click_count(2, true) == 3,
        next_click_count(3, true) == 1,
        next_click_count(prev, false) == 1,
{
}
/// Who attached a listener: the component itself (built-in behaviour) or
/// the application.
#[derive(Debug, Clone, Copy, PartialEq, Eq, Structural)]
pub enum ListenerKind {
    BuiltIn,
    User,
}

/// Shape of a listener's callback: a plain callback, or one that receives
/// the event context.
#[derive(Debug, Clone, Copy, PartialEq, Eq, Structural)]
pub enum CallbackStyle {
    Simple,
    WithCtx,
}

/// What the dispatcher knows of one listener of a node.
#[derive(Debug, Clone, Copy, PartialEq, Eq, Structural)]
pub struct ListenerInfo {
    pub event: EventType,
    pub kind: ListenerKind,
    pub style: CallbackStyle,
}

/// What to do with a matching listener in the current phase.
#[derive(Debug, Clone, Copy, PartialEq, Eq, Structural)]
pub enum ListenerAction {
    /// Do not call it (the phase does not reach this callback style).
    Skip,
    /// Call it.
    Call,
    /// Call it, then stop propagation.
    CallThenStop,
}

/// One step over a matching listener. After each step, the caller stops the
/// current pass when propagation has been stopped.
#[derive(Debug, Clone, Copy, PartialEq, Eq, Structural)]
pub struct ListenerStep {
    /// Position of the listener in the node's list.
    pub index: usize,
    pub action: ListenerAction,
}

/// The action for a callback style in a phase: context callbacks run in the
/// capture and target phases, plain callbacks in the target and bubble
/// phases; a plain callback at the target stops propagation.
pub open spec fn action_for(phase: EventPhase, style: CallbackStyle) -> ListenerAction {
    match phase {
        EventPhase::Capture => if style == CallbackStyle::WithCtx {
            ListenerAction::Call
        } else {
            ListenerAction::Skip
        },
        EventPhase::Target => if style == CallbackStyle::Simple {
            ListenerAction::CallThenStop
        } else {
            ListenerAction::Call
        },
        EventPhase::Bubble => if style == CallbackStyle::Simple {
            ListenerAction::Call
        } else {
            ListenerAction::Skip
        },
    }
}

/// Steps over the listeners of `ls[..n]` of kind `kind` listening for
/// `event`, in list order.
pub open spec fn pass_steps(
    ls: Seq<ListenerInfo>,
    event: EventType,
    phase: EventPhase,
    kind: ListenerKind,
    n: int,
) -> Seq<ListenerStep>
    decreases n,
{
    if n <= 0 {
        Seq::empty()
    } else {
        let p = pass_steps(ls, event, phase, kind, n - 1);
        if ls[n - 1].kind == kind && ls[n - 1].event == event {
            p.push(ListenerStep { index: (n - 1) as usize, action: action_for(phase, ls[n - 1].style) })
        } else {
            p
        }
    }
}

fn action_of(phase: EventPhase, style: CallbackStyle) -> (r: ListenerAction)
    ensures
        r == action_for(phase, style),
{
    match phase {
        EventPhase::Capture => match style {
            CallbackStyle::WithCtx => ListenerAction::Call,
            CallbackStyle::Simple => ListenerAction::Skip,
        },
        EventPhase::Target => match style {
            CallbackStyle::Simple => ListenerAction::CallThenStop,
            CallbackStyle::WithCtx => ListenerAction::Call,
        },
        EventPhase::Bubble => match style {
            CallbackStyle::Simple => ListenerAction::Call,
            CallbackStyle::WithCtx => ListenerAction::Skip,
        },
    }
}

fn pass_of(ls: &Vec<ListenerInfo>, event: EventType, phase: EventPhase, kind: ListenerKind) -> (r: Vec<
    ListenerStep,
>)
    ensures
        r@ == pass_steps(ls@, event, phase, kind, ls@.len() as int),
{
    let mut out: Vec<ListenerStep> = Vec::new();
    let mut i: usize = 0;
    while i < ls.len()
        invariant
            i <= ls.len(),
            out@ == pass_steps(ls@, event, phase, kind, i as int),
        decreases ls.len() - i,
    {
        let l = ls[i];
        if l.kind == kind && l.event == event {
            out.push(ListenerStep { index: i, action: action_of(phase, l.style) });
        }
        i = i + 1;
    }
    out
}

/// How the listeners of one node handle an event in a phase: two passes,
/// built-in listeners first, then the application's. Within a pass the
/// steps follow the list; the caller performs each step and ends the pass as
/// soon as propagation is stopped, then goes on with the next pass. A stop
/// requested by an application listener therefore never undoes built-in
/// behaviour that already ran on the same node.
pub fn dispatch_node_listeners(ls: &Vec<ListenerInfo>, event: EventType, phase: EventPhase) -> (r: (
    Vec<ListenerStep>,
    Vec<ListenerStep>,
))
    ensures
        r.0@ == pass_steps(ls@, event, phase, ListenerKind::BuiltIn, ls@.len() as int),
        r.1@ == pass_steps(ls@, event, phase, ListenerKind::User, ls@.len() as int),
{
    (pass_of(ls, event, phase, ListenerKind::BuiltIn), pass_of(ls, event, phase, ListenerKind::User))
}


proof fn lemma_last_focusable_innermost(facts: Seq<NodeFacts>, n: int)
    requires
        0 <= n <= facts.len(),
    ensures
        last_focusable(facts, n) == -1 ==> forall|j: int| 0 <= j < n ==> !(#[trigger] facts[j]).focusable,
        last_focusable(facts, n) != -1 ==> {
            let i = last_focusable(facts, n);
            &&& 0 <= i < n
            &&& facts[i].focusable
            &&& forall|j: int| i < j < n ==> !(#[trigger] facts[j]).focusable
        },
    decreases n,
{
    if n > 0 {
        lemma_last_focusable_innermost(facts, n - 1);
    }
}

/// A press focuses the innermost focusable node of the hit path: the focus
/// target is a focusable node of the path and no node after it (closer to
/// the hit target) is focusable; there is none exactly when no node of the
/// path is focusable. Its input-method flag is that node's.
pub proof fn lemma_focus_goes_to_innermost_focusable(path: Seq<ElementId>, facts: Seq<NodeFacts>)
    requires
        facts.len() == path.len(),
    ensures
        focus_target(path, facts) is None <==> forall|j: int| 0 <= j < path.len() ==> !(#[trigger] facts[j]).focusable,
        focus_target(path, facts) is Some ==> exists|i: int|
            0 <= i < path.len() && focus_target(path, facts) == Some(path[i]) && (#[trigger] facts[i]).focusable
                && focus_target_ime(path, facts) == facts[i].ime && forall|j: int|
                i < j < path.len() ==> !(#[trigger] facts[j]).focusable,
{
    lemma_last_focusable_innermost(facts, path.len() as int);
    let i = last_focusable(facts, path.len() as int);
    if i != -1 {
        assert(facts[i].focusable);
    }
}

} // verus!
