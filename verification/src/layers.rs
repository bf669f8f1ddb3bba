//! Layer stack bookkeeping: z ordering of layer kinds, per-kind insertion
//! sequence numbers, handles, the popup ownership tree, and the queries used
//! for rendering and hit testing.
//!
//! The stack is generic over the anchor type `A`, which the host fills with
//! its placement description; the stack stores and hands it back unchanged.

use vstd::prelude::*;
use crate::color::Color;
use crate::effects::ElementId;
use crate::order::{stable_order, is_stable_order};
use crate::popup_tree::{descendants, contains_u64, popup_descends};
use crate::tree::{ElementTree, EntryView, ViewNode, node, same_outside};
use std::collections::HashMap;

verus! {

broadcast use vstd::std_specs::hash::group_hash_axioms;

/// Semantic layer classes, from bottom to top.
#[derive(Debug, Clone, Copy, PartialEq, Eq, Hash, Structural)]
pub enum LayerKind {
    /// z 0..=999: main content.
    Content,
    /// z 1000..=1999: popup menus, drop-down lists.
    Popup,
    /// z 2000..=2999: toasts and notifications.
    Overlay,
    /// z 3000..=3999: modal dialogs.
    Modal,
    /// z 4000..=4999: tooltips.
    Tooltip,
    /// z 5000..=5999: debug panels, drag ghosts.
    System,
}

impl LayerKind {
    /// Position of the kind from the bottom (0 for `Content`).
    pub open spec fn rank(self) -> int {
        match self {
            LayerKind::Content => 0,
            LayerKind::Popup => 1,
            LayerKind::Overlay => 2,
            LayerKind::Modal => 3,
            LayerKind::Tooltip => 4,
            LayerKind::System => 5,
        }
    }

    pub open spec fn spec_z_base(self) -> int {
        1000 * self.rank()
    }

    /// First z value of the kind; each kind owns 1000 consecutive values.
    pub fn z_base(&self) -> (r: i32)
        ensures
            r == self.spec_z_base(),
    {
        match self {
            LayerKind::Content => 0,
            LayerKind::Popup => 1000,
            LayerKind::Overlay => 2000,
            LayerKind::Modal => 3000,
            LayerKind::Tooltip => 4000,
            LayerKind::System => 5000,
        }
    }

    /// The z values reserved for the kind: `z_base ..= z_base + 999`.
    pub fn z_range(&self) -> (r: std::ops::RangeInclusive<i32>)
        ensures
            r@.start == self.spec_z_base(),
            r@.end == self.spec_z_base() + 999,
            !r@.exhausted,
    {
        let base = self.z_base();
        std::ops::RangeInclusive::new(base, base + 999)
    }

    /// Kinds in event dispatch / hit test order: highest z first.
    pub fn dispatch_order() -> (r: [LayerKind; 6])
        ensures
            r@ == seq![
                LayerKind::System,
                LayerKind::Tooltip,
                LayerKind::Modal,
                LayerKind::Overlay,
                LayerKind::Popup,
                LayerKind::Content,
            ],
    {
        let r = [
            LayerKind::System,
            LayerKind::Tooltip,
            LayerKind::Modal,
            LayerKind::Overlay,
            LayerKind::Popup,
            LayerKind::Content,
        ];
        assert(r@ =~= seq![
            LayerKind::System,
            LayerKind::Tooltip,
            LayerKind::Modal,
            LayerKind::Overlay,
            LayerKind::Popup,
            LayerKind::Content,
        ]);
        r
    }
}

/// The dispatch order lists every kind exactly once, strictly from the
/// highest z range to the lowest, and the z ranges of the kinds are disjoint.
pub proof fn lemma_dispatch_order_is_descending_z()
    ensures
        forall|i: int, j: int|
            0 <= i < j < 6 ==> dispatch_seq()[i].spec_z_base() > dispatch_seq()[j].spec_z_base(),
        forall|k: LayerKind| #[trigger] dispatch_seq().contains(k),
        forall|k1: LayerKind, k2: LayerKind|
            k1 != k2 ==> k1.spec_z_base() + 999 < k2.spec_z_base() || k2.spec_z_base() + 999
                < k1.spec_z_base(),
{
    assert forall|k: LayerKind| #[trigger] dispatch_seq().contains(k) by {
        match k {
            LayerKind::System => assert(dispatch_seq()[0] == k),
            LayerKind::Tooltip => assert(dispatch_seq()[1] == k),
            LayerKind::Modal => assert(dispatch_seq()[2] == k),
            LayerKind::Overlay => assert(dispatch_seq()[3] == k),
            LayerKind::Popup => assert(dispatch_seq()[4] == k),
            LayerKind::Content => assert(dispatch_seq()[5] == k),
        }
    }
}

/// The sequence `dispatch_order` returns.
pub open spec fn dispatch_seq() -> Seq<LayerKind> {
    seq![
        LayerKind::System,
        LayerKind::Tooltip,
        LayerKind::Modal,
        LayerKind::Overlay,
        LayerKind::Popup,
        LayerKind::Content,
    ]
}

/// Handle of a layer entry.
#[derive(Debug, Clone, Copy, PartialEq, Eq, Hash, Structural)]
pub struct LayerHandle(pub u64);

/// Where a layer is placed. `G` is the host's geometry: the trigger
/// rectangle and gap for the relative placements, the screen point for
/// `Fixed`.
#[derive(Debug, Clone, Copy)]
pub enum Anchor<G> {
    /// Laid out normally (modal and content layers).
    Unanchored,
    /// Above the trigger rectangle, horizontally centred on it.
    Above(G),
    /// Below the trigger rectangle.
    Below(G),
    /// Left of the trigger rectangle.
    LeftOf(G),
    /// Right of the trigger rectangle.
    RightOf(G),
    /// Top-left corner at a fixed screen point.
    Fixed(G),
    /// Centred on the screen.
    ScreenCenter,
}

/// Whether an entry blocks events aimed at the entries below it.
#[derive(Debug, Clone, Copy, PartialEq, Eq, Structural)]
pub enum FocusPolicy {
    /// Events outside the entry go on to the entries below.
    Transparent,
    /// Events outside the entry may dismiss it, then go on below.
    Dismissable,
    /// Entries below receive no events.
    BlockBelow,
}

/// Options given when an entry is pushed.
#[derive(Debug, Clone, Copy, PartialEq, Eq, Structural)]
pub struct LayerOptions {
    pub visible: bool,
    pub dismiss_on_outside: bool,
    pub backdrop: Option<Color>,
    /// Flip to the opposite side when the preferred placement overflows.
    pub flip: bool,
}

impl Default for LayerOptions {
    fn default() -> (r: Self)
        ensures
            r == (LayerOptions { visible: true, dismiss_on_outside: false, backdrop: None, flip: false }),
    {
        LayerOptions { visible: true, dismiss_on_outside: false, backdrop: None, flip: false }
    }
}

impl LayerOptions {
    /// Preset for popups: visible, dismissed by an outside click, flipping.
    pub fn popup() -> (r: Self)
        ensures
            r == (LayerOptions { visible: true, dismiss_on_outside: true, backdrop: None, flip: true }),
    {
        LayerOptions { visible: true, dismiss_on_outside: true, backdrop: None, flip: true }
    }
}

/// One entry of the stack: a visual and interactive unit.
#[derive(Debug, Clone, Copy)]
pub struct LayerEntry<A> {
    pub handle: LayerHandle,
    pub kind: LayerKind,
    /// Root element of the entry's subtree.
    pub root_id: ElementId,
    /// Placement description, interpreted by the host's layout.
    pub anchor: A,
    /// Hidden entries are skipped by hit testing and rendering.
    pub visible: bool,
    pub focus: FocusPolicy,
    /// Insertion sequence within the kind (0 = earliest).
    pub seq: i32,
    /// Dismiss when a click lands outside (with `FocusPolicy::Dismissable`).
    pub dismiss_on_outside_click: bool,
    /// Color of the backdrop drawn below the entry (modals).
    pub backdrop: Option<Color>,
    pub flip: bool,
}

impl<A> LayerEntry<A> {
    /// Render z of the entry.
    pub open spec fn spec_z(&self) -> int {
        self.kind.spec_z_base() + self.seq
    }

    /// Render z: the kind's base plus the insertion sequence.
    pub fn z(&self) -> (r: i32)
        requires
            i32::MIN <= self.spec_z() <= i32::MAX,
        ensures
            r == self.spec_z(),
    {
        self.kind.z_base() + self.seq
    }
}

/// Largest sequence number the stack hands out: keeps every z within `i32`.
pub open spec fn seq_limit() -> int {
    i32::MAX - 5000
}

/// Mathematical content of a `LayerStack`.
pub struct LayerModel<A> {
    /// Entries in insertion order.
    pub entries: Seq<LayerEntry<A>>,
    /// Next sequence number of each kind, indexed by `LayerKind::rank`.
    pub kind_seq: Seq<i32>,
    pub next_handle: u64,
    pub content: Option<LayerHandle>,
    pub overlay: Option<LayerHandle>,
    pub modal: Option<LayerHandle>,
    /// Popup ownership: child handle to parent handle.
    pub parents: Map<u64, u64>,
    /// Popup ownership: parent handle to its direct children.
    pub children: Map<u64, Seq<u64>>,
}

/// Index of the first entry with handle `h`, if any.
pub open spec fn first_with<A>(s: Seq<LayerEntry<A>>, h: LayerHandle) -> Option<int> {
    if exists|i: int| 0 <= i < s.len() && s[i].handle == h && forall|j: int| 0 <= j < i ==> s[j].handle != h {
        Some(choose|i: int| 0 <= i < s.len() && s[i].handle == h && forall|j: int| 0 <= j < i ==> s[j].handle != h)
    } else {
        None
    }
}

/// Entries after removing the first entry with handle `h` (if any).
pub open spec fn without_first<A>(s: Seq<LayerEntry<A>>, h: LayerHandle) -> Seq<LayerEntry<A>> {
    match first_with(s, h) {
        Some(i) => s.remove(i),
        None => s,
    }
}

/// `s[..n]` without the occurrences of `x`.
pub open spec fn without_handle(s: Seq<u64>, x: u64, n: int) -> Seq<u64>
    decreases n,
{
    if n <= 0 {
        Seq::empty()
    } else {
        let p = without_handle(s, x, n - 1);
        if s[n - 1] == x {
            p
        } else {
            p.push(s[n - 1])
        }
    }
}

/// Popup children lists once `h` leaves the list of its parent (when it has
/// a parent with a list).
pub open spec fn unlinked_children(parents: Map<u64, u64>, children: Map<u64, Seq<u64>>, h: u64) -> Map<
    u64,
    Seq<u64>,
> {
    if parents.contains_key(h) && children.contains_key(parents[h]) {
        let p = parents[h];
        children.insert(p, without_handle(children[p], h, children[p].len() as int))
    } else {
        children
    }
}

/// Stack content after `remove(h)`, with the root of the removed entry: the
/// entry is gone, and so are the popup ownership records of `h` (its parent
/// link, its place in its parent's children, and its own children list);
/// its descendants stay.
pub open spec fn removed<A>(m: LayerModel<A>, h: LayerHandle) -> (LayerModel<A>, Option<ElementId>) {
    (
        LayerModel {
            entries: without_first(m.entries, h),
            parents: m.parents.remove(h.0),
            children: unlinked_children(m.parents, m.children, h.0).remove(h.0),
            ..m
        },
        match first_with(m.entries, h) {
            Some(i) => Some(m.entries[i].root_id),
            None => None,
        },
    )
}

proof fn lemma_without_handle(s: Seq<u64>, x: u64, n: int)
    requires
        0 <= n <= s.len(),
    ensures
        forall|i: int| 0 <= i < without_handle(s, x, n).len() ==> #[trigger] without_handle(s, x, n)[i] != x,
    decreases n,
{
    if n > 0 {
        lemma_without_handle(s, x, n - 1);
        let p = without_handle(s, x, n - 1);
        if s[n - 1] != x {
            let q = p.push(s[n - 1]);
            assert(without_handle(s, x, n) =~= q);
            assert forall|i: int| 0 <= i < q.len() implies #[trigger] q[i] != x by {
                if i < p.len() {
                    assert(q[i] == p[i]);
                }
            }
        }
    }
}

/// Removing a popup that has a parent takes it out of its parent's children
/// (keeping the parent's other children, in order) and drops its own
/// ownership records; every other popup's records stay as they were, so
/// nothing is closed along with it.
pub proof fn lemma_remove_unlinks_child_without_cascade<A>(m: LayerModel<A>, h: LayerHandle)
    requires
        m.parents.contains_key(h.0),
        m.children.contains_key(m.parents[h.0]),
        m.parents[h.0] != h.0,
    ensures
        ({
            let p = m.parents[h.0];
            let m1 = removed(m, h).0;
            &&& m1.children.contains_key(p)
            &&& !m1.children[p].contains(h.0)
            &&& m1.children[p] == without_handle(m.children[p], h.0, m.children[p].len() as int)
            &&& !m1.children.contains_key(h.0)
            &&& !m1.parents.contains_key(h.0)
            &&& forall|q: u64|
                q != p && q != h.0 ==> (#[trigger] m1.children.contains_key(q) == m.children.contains_key(q))
                    && (m.children.contains_key(q) ==> m1.children[q] == m.children[q])
            &&& forall|c: u64| c != h.0 ==> #[trigger] m1.parents.contains_key(c) == m.parents.contains_key(c)
                && (m.parents.contains_key(c) ==> m1.parents[c] == m.parents[c])
        }),
{
    let p = m.parents[h.0];
    let l = m.children[p];
    lemma_without_handle(l, h.0, l.len() as int);
}

/// Stack content after removing each handle of `hs` in turn, with the roots
/// of the removed entries in removal order.
pub open spec fn removed_all<A>(m: LayerModel<A>, hs: Seq<u64>) -> (LayerModel<A>, Seq<ElementId>)
    decreases hs.len(),
{
    if hs.len() == 0 {
        (m, Seq::empty())
    } else {
        let (m1, r1) = removed(m, LayerHandle(hs[0]));
        let (m2, rs) = removed_all(m1, hs.drop_first());
        (m2, match r1 {
            Some(r) => seq![r] + rs,
            None => rs,
        })
    }
}

/// A layer pushed under a handle that no entry uses yet is found under that
/// handle, and removing it gives back the previous entries and its root.
pub proof fn lemma_push_then_remove<A>(m: LayerModel<A>, e: LayerEntry<A>)
    requires
        forall|i: int| 0 <= i < m.entries.len() ==> (#[trigger] m.entries[i]).handle != e.handle,
    ensures
        first_with(pushed(m, e).entries, e.handle) == Some(m.entries.len() as int),
        removed(pushed(m, e), e.handle).0.entries == m.entries,
        removed(pushed(m, e), e.handle).1 == Some(e.root_id),
{
    let s = pushed(m, e).entries;
    let n = m.entries.len() as int;
    assert(s[n] == e);
    assert(forall|j: int| 0 <= j < n ==> s[j] == m.entries[j]);
    assert(exists|i: int| 0 <= i < s.len() && s[i].handle == e.handle && forall|j: int| 0 <= j < i ==> s[j].handle != e.handle);
    let c = choose|i: int| 0 <= i < s.len() && s[i].handle == e.handle && forall|j: int| 0 <= j < i ==> s[j].handle != e.handle;
    if c < n {
        assert(s[c] == m.entries[c]);
    }
    assert(c == n);
    assert(s.remove(n) =~= m.entries);
}

fn without_u64(v: &Vec<u64>, x: u64) -> (r: Vec<u64>)
    ensures
        r@ == without_handle(v@, x, v@.len() as int),
{
    let mut out: Vec<u64> = Vec::new();
    let mut i: usize = 0;
    while i < v.len()
        invariant
            i <= v.len(),
            out@ == without_handle(v@, x, i as int),
        decreases v.len() - i,
    {
        if v[i] != x {
            out.push(v[i]);
        }
        i = i + 1;
    }
    out
}

/// Stack of layer entries ordered by z.
pub struct LayerStack<A> {
    entries: Vec<LayerEntry<A>>,
    kind_seq: Vec<i32>,
    next_handle: u64,
    content_handle: Option<LayerHandle>,
    default_overlay_handle: Option<LayerHandle>,
    default_modal_handle: Option<LayerHandle>,
    popup_parent: HashMap<u64, u64>,
    popup_children: HashMap<u64, Vec<u64>>,
}

impl<A> View for LayerStack<A> {
    type V = LayerModel<A>;

    closed spec fn view(&self) -> LayerModel<A> {
        LayerModel {
            entries: self.entries@,
            kind_seq: self.kind_seq@,
            next_handle: self.next_handle,
            content: self.content_handle,
            overlay: self.default_overlay_handle,
            modal: self.default_modal_handle,
            parents: self.popup_parent@,
            children: self.popup_children@.map_values(|v: Vec<u64>| v@),
        }
    }
}

/// Well-formed stack content: one counter per kind, every entry's sequence
/// below its kind's counter, and counters within the z limit.
pub open spec fn model_wf<A>(m: LayerModel<A>) -> bool {
    &&& m.kind_seq.len() == 6
    &&& forall|k: int| 0 <= k < 6 ==> 0 <= #[trigger] m.kind_seq[k] <= seq_limit()
    &&& forall|i: int|
        0 <= i < m.entries.len() ==> 0 <= #[trigger] m.entries[i].seq < m.kind_seq[m.entries[i].kind.rank()]
}

/// An entry for kind `kind` with sequence number `seq`.
pub open spec fn make_entry<A>(
    handle: LayerHandle,
    kind: LayerKind,
    root_id: ElementId,
    anchor: A,
    focus: FocusPolicy,
    opts: LayerOptions,
    seq: i32,
) -> LayerEntry<A> {
    LayerEntry {
        handle,
        kind,
        root_id,
        anchor,
        visible: opts.visible,
        focus,
        seq,
        dismiss_on_outside_click: opts.dismiss_on_outside,
        backdrop: opts.backdrop,
        flip: opts.flip,
    }
}

/// Content after appending an entry of `kind`, which takes the kind's next
/// sequence number.
pub open spec fn pushed<A>(m: LayerModel<A>, e: LayerEntry<A>) -> LayerModel<A> {
    LayerModel {
        entries: m.entries.push(e),
        kind_seq: m.kind_seq.update(e.kind.rank(), (m.kind_seq[e.kind.rank()] + 1) as i32),
        ..m
    }
}

impl<A: Copy> LayerStack<A> {
    pub closed spec fn wf(&self) -> bool {
        &&& model_wf(self@)
        &&& self.kind_seq@.len() == 6
    }

    /// An empty stack.
    pub fn new() -> (s: Self)
        ensures
            s.wf(),
            s@.entries.len() == 0,
            s@.kind_seq == seq![0i32, 0, 0, 0, 0, 0],
            s@.next_handle == 0,
            s@.content.is_none(),
            s@.overlay.is_none(),
            s@.modal.is_none(),
            s@.parents.is_empty(),
            s@.children.is_empty(),
    {
        let s = LayerStack {
            entries: Vec::new(),
            kind_seq: vec![0, 0, 0, 0, 0, 0],
            next_handle: 0,
            content_handle: None,
            default_overlay_handle: None,
            default_modal_handle: None,
            popup_parent: HashMap::new(),
            popup_children: HashMap::new(),
        };
        assert(s@.kind_seq =~= seq![0i32, 0, 0, 0, 0, 0]);
        assert(s@.children =~= Map::empty());
        s
    }

    fn kind_index(kind: LayerKind) -> (r: usize)
        ensures
            r == kind.rank(),
    {
        match kind {
            LayerKind::Content => 0,
            LayerKind::Popup => 1,
            LayerKind::Overlay => 2,
            LayerKind::Modal => 3,
            LayerKind::Tooltip => 4,
            LayerKind::System => 5,
        }
    }

    /// The handle the next entry pushed without one gets.
    pub fn next_handle_value(&self) -> (r: u64)
        ensures
            r == self@.next_handle,
    {
        self.next_handle
    }

    /// The sequence number the next entry of `kind` gets.
    pub fn next_seq_of(&self, kind: LayerKind) -> (r: i32)
        requires
            self.wf(),
        ensures
            r == self@.kind_seq[kind.rank()],
            self@.kind_seq.len() == 6,
    {
        self.kind_seq[Self::kind_index(kind)]
    }

    /// Takes the next sequence number of `kind`.
    fn alloc_seq(&mut self, kind: LayerKind) -> (s: i32)
        requires
            old(self).wf(),
            old(self)@.kind_seq[kind.rank()] < seq_limit(),
        ensures
            s == old(self)@.kind_seq[kind.rank()],
            final(self)@ == (LayerModel {
                kind_seq: old(self)@.kind_seq.update(kind.rank(), (s + 1) as i32),
                ..old(self)@
            }),
    {
        let idx = Self::kind_index(kind);
        let s = self.kind_seq[idx];
        self.kind_seq.set(idx, s + 1);
        s
    }

    /// Index of the first entry with `handle`.
    fn position_of(&self, handle: LayerHandle) -> (r: Option<usize>)
        ensures
            match r {
                Some(i) => first_with(self@.entries, handle) == Some(i as int),
                None => first_with(self@.entries, handle).is_none(),
            },
    {
        let mut i: usize = 0;
        while i < self.entries.len()
            invariant
                i <= self.entries@.len(),
                forall|j: int| 0 <= j < i ==> self.entries@[j].handle != handle,
            decreases self.entries@.len() - i,
        {
            if self.entries[i].handle == handle {
                assert(first_with(self@.entries, handle) == Some(i as int)) by {
                    let s = self@.entries;
                    assert(0 <= i < s.len() && s[i as int].handle == handle && forall|j: int|
                        0 <= j < i ==> s[j].handle != handle);
                    let c = choose|c: int|
                        0 <= c < s.len() && s[c].handle == handle && forall|j: int|
                            0 <= j < c ==> s[j].handle != handle;
                    if c < i {
                    } else if c > i {
                    }
                }
                return Some(i);
            }
            i = i + 1;
        }
        None
    }

    /// The first entry with `handle`, if any.
    pub fn by_handle(&self, handle: LayerHandle) -> (r: Option<LayerEntry<A>>)
        ensures
            r == (match first_with(self@.entries, handle) {
                Some(i) => Some(self@.entries[i]),
                None => None,
            }),
    {
        match self.position_of(handle) {
            Some(i) => Some(self.entries[i]),
            None => None,
        }
    }
}


impl<A: Copy> LayerStack<A> {
    /// Gives the root element of entry `handle` the configuration of
    /// `new_view` (nothing happens without such an entry).
    pub fn update_view(&self, tree: &mut ElementTree, handle: LayerHandle, new_view: &ViewNode)
        ensures
            match first_with(self@.entries, handle) {
                Some(i) => {
                    let id = self@.entries[i].root_id;
                    &&& same_outside(old(tree)@, final(tree)@, |x: ElementId| x == id)
                    &&& node(final(tree)@, id) == (match node(old(tree)@, id) {
                        Some(v) => Some(
                            EntryView {
                                kind: new_view.kind,
                                key: new_view.key,
                                config: new_view.config,
                                listeners: new_view.listeners@,
                                dirty: true,
                                ..v
                            },
                        ),
                        None => None,
                    })
                },
                None => final(tree)@ == old(tree)@,
            },
    {
        if let Some(e) = self.by_handle(handle) {
            tree.update_node(e.root_id, new_view);
        }
    }
}

impl<A: Copy> LayerStack<A> {
    /// Pushes an entry rooted at `root_id` with a fresh handle.
    pub fn push(
        &mut self,
        kind: LayerKind,
        root_id: ElementId,
        anchor: A,
        focus: FocusPolicy,
        opts: LayerOptions,
    ) -> (h: LayerHandle)
        requires
            old(self).wf(),
            old(self)@.next_handle < u64::MAX,
            old(self)@.kind_seq[kind.rank()] < seq_limit(),
        ensures
            final(self).wf(),
            h == LayerHandle(old(self)@.next_handle),
            final(self)@ == (LayerModel {
                next_handle: (old(self)@.next_handle + 1) as u64,
                ..pushed(
                    old(self)@,
                    make_entry(h, kind, root_id, anchor, focus, opts, old(self)@.kind_seq[kind.rank()]),
                )
            }),
    {
        let handle = LayerHandle(self.next_handle);
        self.next_handle = self.next_handle + 1;
        let seq = self.alloc_seq(kind);
        let entry = LayerEntry {
            handle,
            kind,
            root_id,
            anchor,
            visible: opts.visible,
            focus,
            seq,
            dismiss_on_outside_click: opts.dismiss_on_outside,
            backdrop: opts.backdrop,
            flip: opts.flip,
        };
        self.entries.push(entry);
        handle
    }

    /// Pushes an entry under a handle chosen by the caller. The handle counter
    /// moves past `handle` when needed. With `parent`, the entry is recorded as
    /// a child popup of `parent` (closing the parent closes it too).
    pub fn push_with_handle(
        &mut self,
        kind: LayerKind,
        root_id: ElementId,
        anchor: A,
        focus: FocusPolicy,
        opts: LayerOptions,
        handle: LayerHandle,
        parent: Option<LayerHandle>,
    ) -> (h: LayerHandle)
        requires
            old(self).wf(),
            handle.0 < u64::MAX,
            old(self)@.kind_seq[kind.rank()] < seq_limit(),
        ensures
            final(self).wf(),
            h == handle,
            final(self)@ == (LayerModel {
                next_handle: if handle.0 >= old(self)@.next_handle {
                    (handle.0 + 1) as u64
                } else {
                    old(self)@.next_handle
                },
                parents: match parent {
                    Some(p) => old(self)@.parents.insert(handle.0, p.0),
                    None => old(self)@.parents,
                },
                children: match parent {
                    Some(p) => old(self)@.children.insert(
                        p.0,
                        if old(self)@.children.contains_key(p.0) {
                            old(self)@.children[p.0]
                        } else {
                            Seq::empty()
                        }.push(handle.0),
                    ),
                    None => old(self)@.children,
                },
                ..pushed(
                    old(self)@,
                    make_entry(handle, kind, root_id, anchor, focus, opts, old(self)@.kind_seq[kind.rank()]),
                )
            }),
    {
        if handle.0 >= self.next_handle {
            self.next_handle = handle.0 + 1;
        }
        let seq = self.alloc_seq(kind);
        let entry = LayerEntry {
            handle,
            kind,
            root_id,
            anchor,
            visible: opts.visible,
            focus,
            seq,
            dismiss_on_outside_click: opts.dismiss_on_outside,
            backdrop: opts.backdrop,
            flip: opts.flip,
        };
        self.entries.push(entry);
        if let Some(p) = parent {
            let ghost old_children = self.popup_children@;
            self.popup_parent.insert(handle.0, p.0);
            let mut list = match self.popup_children.remove(&p.0) {
                Some(v) => v,
                None => Vec::new(),
            };
            list.push(handle.0);
            self.popup_children.insert(p.0, list);
            assert(self.popup_children@.map_values(|v: Vec<u64>| v@) =~= old_children.map_values(
                |v: Vec<u64>| v@,
            ).insert(
                p.0,
                if old_children.contains_key(p.0) {
                    old_children[p.0]@
                } else {
                    Seq::empty()
                }.push(handle.0),
            ));
        }
        handle
    }

    /// Removes the first entry with `handle` and forgets the handle's popup
    /// ownership (its parent link, its place in its parent's children and
    /// its own children list; descendants are not closed). Returns the root element of the removed entry, for the caller
    /// to drop from its element tree.
    pub fn remove(&mut self, handle: LayerHandle) -> (r: Option<ElementId>)
        requires
            old(self).wf(),
        ensures
            final(self).wf(),
            (final(self)@, r) == removed(old(self)@, handle),
    {
        let ghost old_parents = self.popup_parent@;
        let ghost old_children = self.popup_children@.map_values(|v: Vec<u64>| v@);
        let r = match self.position_of(handle) {
            Some(i) => {
                let e = self.entries.remove(i);
                Some(e.root_id)
            },
            None => None,
        };
        match self.popup_parent.get(&handle.0) {
            Some(p) => {
                let p = *p;
                let kept = match self.popup_children.get(&p) {
                    Some(list) => Some(without_u64(list, handle.0)),
                    None => None,
                };
                if let Some(k) = kept {
                    self.popup_children.insert(p, k);
                }
            },
            None => {},
        }
        assert(self.popup_children@.map_values(|v: Vec<u64>| v@) =~= unlinked_children(
            old_parents,
            old_children,
            handle.0,
        ));
        let ghost mid = self.popup_children@.map_values(|v: Vec<u64>| v@);
        self.popup_parent.remove(&handle.0);
        self.popup_children.remove(&handle.0);
        assert(self.popup_children@.map_values(|v: Vec<u64>| v@) =~= mid.remove(handle.0));
        r
    }
}

impl<A: Copy> LayerStack<A> {
    /// All descendants (children, grandchildren, ...) of popup `handle`,
    /// each once, in no particular order.
    pub fn popup_descendants(&self, handle: LayerHandle) -> (r: Vec<LayerHandle>)
        ensures
            forall|i: int| 0 <= i < r@.len() ==> popup_descends(self@.children, handle.0, #[trigger] r@[i].0),
            forall|x: u64|
                popup_descends(self@.children, handle.0, x) ==> exists|i: int|
                    0 <= i < r@.len() && #[trigger] r@[i].0 == x,
            forall|i: int, j: int| 0 <= i < j < r@.len() ==> r@[i] != r@[j],
    {
        let out = descendants(&self.popup_children, handle.0);
        let ghost ch = self@.children;
        let mut r: Vec<LayerHandle> = Vec::new();
        let mut i: usize = 0;
        while i < out.len()
            invariant
                i <= out@.len(),
                r@.len() == i,
                forall|k: int| 0 <= k < i ==> #[trigger] r@[k].0 == out@[k],
            decreases out@.len() - i,
        {
            r.push(LayerHandle(out[i]));
            i = i + 1;
        }
        proof {
            assert forall|x: u64| popup_descends(ch, handle.0, x) implies exists|i: int|
                0 <= i < r@.len() && #[trigger] r@[i].0 == x by {
                assert(out@.contains(x));
                let k = choose|k: int| 0 <= k < out@.len() && out@[k] == x;
                assert(r@[k].0 == x);
            }
            assert forall|i: int, j: int| 0 <= i < j < r@.len() implies r@[i] != r@[j] by {
                assert(r@[i].0 == out@[i] && r@[j].0 == out@[j]);
            }
            assert forall|i: int| 0 <= i < r@.len() implies popup_descends(ch, handle.0, #[trigger] r@[i].0) by {
                assert(r@[i].0 == out@[i]);
            }
        }
        r
    }
}

/// `ds` lists the descendants of popup `h`, each exactly once.
pub open spec fn lists_descendants(children: Map<u64, Seq<u64>>, h: u64, ds: Seq<u64>) -> bool {
    &&& forall|i: int| 0 <= i < ds.len() ==> popup_descends(children, h, #[trigger] ds[i])
    &&& forall|x: u64| popup_descends(children, h, x) ==> ds.contains(x)
    &&& ds.no_duplicates()
}

/// `m2` is `m` after closing popup `h` with its whole subtree, `roots` the
/// roots of the removed entries: every descendant is removed (in some order),
/// then `h` itself.
#[verifier::opaque]
pub open spec fn closed_popup<A>(m: LayerModel<A>, h: u64, m2: LayerModel<A>, roots: Seq<ElementId>) -> bool {
    exists|ds: Seq<u64>|
        lists_descendants(m.children, h, ds) && (m2, roots) == #[trigger] removed_all(m, ds.push(h))
}

/// The sequences of `rs`, concatenated.
pub open spec fn concat_all(rs: Seq<Seq<ElementId>>) -> Seq<ElementId>
    decreases rs.len(),
{
    if rs.len() == 0 {
        Seq::empty()
    } else {
        concat_all(rs.drop_last()) + rs.last()
    }
}

/// `ms` and `rs` witness that closing each popup of `hs` in turn takes `m`
/// to `m2` and removes the entries with roots `roots`.
pub open spec fn closing_chain<A>(
    m: LayerModel<A>,
    hs: Seq<u64>,
    m2: LayerModel<A>,
    roots: Seq<ElementId>,
    ms: Seq<LayerModel<A>>,
    rs: Seq<Seq<ElementId>>,
) -> bool {
    &&& ms.len() == hs.len() + 1
    &&& rs.len() == hs.len()
    &&& ms[0] == m
    &&& ms[hs.len() as int] == m2
    &&& forall|i: int| 0 <= i < hs.len() ==> closed_popup(#[trigger] ms[i], hs[i], ms[i + 1], rs[i])
    &&& roots == concat_all(rs)
}

/// `m2` is `m` after closing each popup of `hs` in turn.
pub open spec fn closed_all<A>(m: LayerModel<A>, hs: Seq<u64>, m2: LayerModel<A>, roots: Seq<ElementId>) -> bool {
    exists|ms: Seq<LayerModel<A>>, rs: Seq<Seq<ElementId>>| #[trigger] closing_chain(m, hs, m2, roots, ms, rs)
}

proof fn lemma_closed_all_empty<A>(m: LayerModel<A>)
    ensures
        closed_all(m, Seq::<u64>::empty(), m, Seq::<ElementId>::empty()),
{
    let ms = seq![m];
    let rs = Seq::<Seq<ElementId>>::empty();
    assert(concat_all(rs) =~= Seq::<ElementId>::empty());
    assert(closing_chain(m, Seq::<u64>::empty(), m, Seq::<ElementId>::empty(), ms, rs));
}

proof fn lemma_closed_all_step<A>(
    m: LayerModel<A>,
    hs: Seq<u64>,
    m1: LayerModel<A>,
    r1: Seq<ElementId>,
    x: u64,
    m2: LayerModel<A>,
    r2: Seq<ElementId>,
)
    requires
        closed_all(m, hs, m1, r1),
        closed_popup(m1, x, m2, r2),
    ensures
        closed_all(m, hs.push(x), m2, r1 + r2),
{
    let (ms, rs) = choose|ms: Seq<LayerModel<A>>, rs: Seq<Seq<ElementId>>| #[trigger] closing_chain(m, hs, m1, r1, ms, rs);
    let ms2 = ms.push(m2);
    let rs2 = rs.push(r2);
    let hx = hs.push(x);
    assert(rs2.drop_last() =~= rs);
    assert(concat_all(rs2) == concat_all(rs) + r2);
    assert forall|i: int| 0 <= i < hx.len() implies closed_popup(#[trigger] ms2[i], hx[i], ms2[i + 1], rs2[i]) by {
        if i < hs.len() {
            assert(ms2[i] == ms[i] && ms2[i + 1] == ms[i + 1] && rs2[i] == rs[i] && hx[i] == hs[i]);
        } else {
            assert(ms2[i] == m1 && ms2[i + 1] == m2 && rs2[i] == r2 && hx[i] == x);
        }
    }
    assert(closing_chain(m, hx, m2, r1 + r2, ms2, rs2));
}

/// Removing one more handle after a run of removals.
proof fn lemma_removed_all_push<A>(m: LayerModel<A>, hs: Seq<u64>, x: u64)
    ensures
        removed_all(m, hs.push(x)) == ({
            let (m1, rs) = removed_all(m, hs);
            let (m2, r) = removed(m1, LayerHandle(x));
            (m2, match r {
                Some(e) => rs.push(e),
                None => rs,
            })
        }),
    decreases hs.len(),
{
    if hs.len() == 0 {
        assert(hs.push(x).drop_first() =~= Seq::<u64>::empty());
        let (m1, r1) = removed(m, LayerHandle(x));
        assert(removed_all(m1, Seq::<u64>::empty()) == (m1, Seq::<ElementId>::empty()));
        match r1 {
            Some(e) => assert(seq![e] + Seq::<ElementId>::empty() =~= Seq::<ElementId>::empty().push(e)),
            None => {},
        }
    } else {
        assert(hs.push(x).drop_first() =~= hs.drop_first().push(x));
        let (m1, r1) = removed(m, LayerHandle(hs[0]));
        lemma_removed_all_push(m1, hs.drop_first(), x);
        let (m2, rs) = removed_all(m1, hs.drop_first());
        let (m3, r) = removed(m2, LayerHandle(x));
        match r1 {
            Some(e1) => match r {
                Some(e) => assert(seq![e1] + rs.push(e) =~= (seq![e1] + rs).push(e)),
                None => {},
            },
            None => {},
        }
    }
}

impl<A: Copy> LayerStack<A> {
    /// Closes popup `handle` and its whole subtree of descendant popups:
    /// each descendant is removed (in some order), then `handle` itself.
    /// Returns the roots of the removed entries, in removal order.
    pub fn close_popup(&mut self, handle: LayerHandle) -> (roots: Vec<ElementId>)
        requires
            old(self).wf(),
        ensures
            final(self).wf(),
            closed_popup(old(self)@, handle.0, final(self)@, roots@),
    {
        let descendants = self.popup_descendants(handle);
        let ghost ds = descendants@.map_values(|d: LayerHandle| d.0);
        let ghost m0 = self@;
        proof {
            assert forall|i: int| 0 <= i < ds.len() implies popup_descends(m0.children, handle.0, #[trigger] ds[i]) by {
                assert(ds[i] == descendants@[i].0);
            }
            assert forall|x: u64| popup_descends(m0.children, handle.0, x) implies ds.contains(x) by {
                let k = choose|k: int| 0 <= k < descendants@.len() && #[trigger] descendants@[k].0 == x;
                assert(ds[k] == x);
            }
            assert forall|i: int, j: int| 0 <= i < ds.len() && 0 <= j < ds.len() && i != j implies ds[i] != ds[j] by {
                if i < j {
                    assert(descendants@[i] != descendants@[j]);
                } else {
                    assert(descendants@[j] != descendants@[i]);
                }
            }
        }
        let mut roots: Vec<ElementId> = Vec::new();
        let mut i: usize = 0;
        assert(ds.subrange(0, 0) =~= Seq::<u64>::empty());
        while i < descendants.len()
            invariant
                i <= descendants@.len(),
                ds.len() == descendants@.len(),
                forall|k: int| 0 <= k < ds.len() ==> ds[k] == #[trigger] descendants@[k].0,
                self.wf(),
                (self@, roots@) == removed_all(m0, ds.subrange(0, i as int)),
            decreases descendants@.len() - i,
        {
            let d = descendants[i];
            proof {
                lemma_removed_all_push(m0, ds.subrange(0, i as int), d.0);
                assert(ds.subrange(0, i as int).push(d.0) =~= ds.subrange(0, i + 1));
            }
            match self.remove(d) {
                Some(r) => roots.push(r),
                None => {},
            }
            i = i + 1;
        }
        proof {
            assert(ds.subrange(0, ds.len() as int) =~= ds);
            lemma_removed_all_push(m0, ds, handle.0);
        }
        let ghost before = (self@, roots@);
        let last = self.remove(handle);
        match last {
            Some(r) => roots.push(r),
            None => {},
        }
        proof {
            assert(lists_descendants(m0.children, handle.0, ds));
            assert((self@, roots@) == removed_all(m0, ds.push(handle.0)));
            reveal(closed_popup);
            assert(closed_popup(m0, handle.0, self@, roots@));
        }
        roots
    }
}

/// Render order keys: the z of each entry.
pub open spec fn z_keys<A>(s: Seq<LayerEntry<A>>) -> Seq<i64> {
    s.map_values(|e: LayerEntry<A>| e.spec_z() as i64)
}

/// Hit order keys: the negated z of each entry (highest z first).
pub open spec fn neg_z_keys<A>(s: Seq<LayerEntry<A>>) -> Seq<i64> {
    s.map_values(|e: LayerEntry<A>| (-e.spec_z()) as i64)
}

/// `out` is `src` reordered by the stable order of `keys`.
pub open spec fn reordered_by<A>(src: Seq<LayerEntry<A>>, keys: Seq<i64>, out: Seq<LayerEntry<A>>) -> bool {
    exists|ord: Seq<usize>|
        is_stable_order(keys, ord) && out.len() == ord.len() && forall|k: int|
            0 <= k < out.len() ==> #[trigger] out[k] == src[ord[k] as int]
}

/// Entries that block events to everything below them.
pub open spec fn blocks_below<A>(e: LayerEntry<A>) -> bool {
    e.visible && e.focus == FocusPolicy::BlockBelow && e.kind == LayerKind::Modal
}

/// Entry `i` is the blocking modal with the highest z (the last one among
/// equal highest z values).
pub open spec fn is_top_blocking<A>(s: Seq<LayerEntry<A>>, i: int) -> bool {
    &&& 0 <= i < s.len()
    &&& blocks_below(s[i])
    &&& forall|j: int| 0 <= j < s.len() && blocks_below(#[trigger] s[j]) ==> s[j].spec_z() <= s[i].spec_z()
    &&& forall|j: int| i < j < s.len() && blocks_below(#[trigger] s[j]) ==> s[j].spec_z() < s[i].spec_z()
}

/// The stack's top blocking modal, if any.
pub open spec fn top_blocking<A>(s: Seq<LayerEntry<A>>) -> Option<LayerHandle> {
    if exists|i: int| is_top_blocking(s, i) {
        Some(s[choose|i: int| is_top_blocking(s, i)].handle)
    } else {
        None
    }
}

/// The root of the first entry with handle `h`, for an optional handle.
pub open spec fn root_of<A>(s: Seq<LayerEntry<A>>, h: Option<LayerHandle>) -> Option<ElementId> {
    match h {
        Some(h) => match first_with(s, h) {
            Some(i) => Some(s[i].root_id),
            None => None,
        },
        None => None,
    }
}

impl<A: Copy> LayerStack<A> {
    /// Shows or hides the first entry with `handle` (hidden entries are
    /// skipped by rendering and hit testing).
    pub fn set_visible(&mut self, handle: LayerHandle, v: bool)
        requires
            old(self).wf(),
        ensures
            final(self).wf(),
            final(self)@ == (LayerModel {
                entries: match first_with(old(self)@.entries, handle) {
                    Some(i) => old(self)@.entries.update(
                        i,
                        LayerEntry { visible: v, ..old(self)@.entries[i] },
                    ),
                    None => old(self)@.entries,
                },
                ..old(self)@
            }),
    {
        if let Some(i) = self.position_of(handle) {
            let e = self.entries[i];
            self.entries.set(i, LayerEntry { visible: v, ..e });
        }
    }

    /// Replaces the anchor of the first entry with `handle`.
    pub fn reanchor(&mut self, handle: LayerHandle, new_anchor: A)
        requires
            old(self).wf(),
        ensures
            final(self).wf(),
            final(self)@ == (LayerModel {
                entries: match first_with(old(self)@.entries, handle) {
                    Some(i) => old(self)@.entries.update(
                        i,
                        LayerEntry { anchor: new_anchor, ..old(self)@.entries[i] },
                    ),
                    None => old(self)@.entries,
                },
                ..old(self)@
            }),
    {
        if let Some(i) = self.position_of(handle) {
            let e = self.entries[i];
            self.entries.set(i, LayerEntry { anchor: new_anchor, ..e });
        }
    }

    fn entry_z(&self, i: usize) -> (z: i32)
        requires
            self.wf(),
            i < self@.entries.len(),
        ensures
            z == self@.entries[i as int].spec_z(),
            0 <= z,
    {
        let e = &self.entries[i];
        assert(0 <= e.seq < self@.kind_seq[e.kind.rank()] <= seq_limit());
        e.z()
    }

    fn reorder(&self, order: &Vec<usize>) -> (r: Vec<LayerEntry<A>>)
        requires
            forall|k: int| 0 <= k < order@.len() ==> order@[k] < self@.entries.len(),
        ensures
            r@.len() == order@.len(),
            forall|k: int| 0 <= k < r@.len() ==> #[trigger] r@[k] == self@.entries[order@[k] as int],
    {
        let mut r: Vec<LayerEntry<A>> = Vec::new();
        let mut k: usize = 0;
        while k < order.len()
            invariant
                k <= order@.len(),
                r@.len() == k,
                forall|j: int| 0 <= j < order@.len() ==> order@[j] < self@.entries.len(),
                forall|j: int| 0 <= j < k ==> #[trigger] r@[j] == self@.entries[order@[j] as int],
            decreases order@.len() - k,
        {
            r.push(self.entries[order[k]]);
            k = k + 1;
        }
        r
    }

    /// Entries by ascending z (render order); entries of equal z keep their
    /// insertion order.
    pub fn sorted_entries_for_render(&self) -> (r: Vec<LayerEntry<A>>)
        requires
            self.wf(),
        ensures
            reordered_by(self@.entries, z_keys(self@.entries), r@),
    {
        let mut keys: Vec<i64> = Vec::new();
        let mut i: usize = 0;
        while i < self.entries.len()
            invariant
                self.wf(),
                i <= self@.entries.len(),
                keys@ == z_keys(self@.entries).subrange(0, i as int),
            decreases self@.entries.len() - i,
        {
            let z = self.entry_z(i);
            keys.push(z as i64);
            assert(keys@ =~= z_keys(self@.entries).subrange(0, i + 1));
            i = i + 1;
        }
        assert(keys@ =~= z_keys(self@.entries));
        let order = stable_order(&keys);
        let r = self.reorder(&order);
        assert(is_stable_order(z_keys(self@.entries), order@));
        r
    }

    /// Entries by descending z (hit order: topmost first); entries of equal z
    /// keep their insertion order.
    pub fn sorted_entries_for_hit(&self) -> (r: Vec<LayerEntry<A>>)
        requires
            self.wf(),
        ensures
            reordered_by(self@.entries, neg_z_keys(self@.entries), r@),
    {
        let mut keys: Vec<i64> = Vec::new();
        let mut i: usize = 0;
        while i < self.entries.len()
            invariant
                self.wf(),
                i <= self@.entries.len(),
                keys@ == neg_z_keys(self@.entries).subrange(0, i as int),
            decreases self@.entries.len() - i,
        {
            let z = self.entry_z(i);
            keys.push(-(z as i64));
            assert(keys@ =~= neg_z_keys(self@.entries).subrange(0, i + 1));
            i = i + 1;
        }
        assert(keys@ =~= neg_z_keys(self@.entries));
        let order = stable_order(&keys);
        let r = self.reorder(&order);
        assert(is_stable_order(neg_z_keys(self@.entries), order@));
        r
    }

    /// The visible blocking modal with the highest z: only it and entries above
    /// it receive events.
    pub fn top_blocking_modal(&self) -> (r: Option<LayerHandle>)
        requires
            self.wf(),
        ensures
            r == top_blocking(self@.entries),
    {
        let ghost s = self@.entries;
        let mut best: Option<usize> = None;
        let mut best_z: i32 = 0;
        let mut i: usize = 0;
        while i < self.entries.len()
            invariant
                self.wf(),
                s == self@.entries,
                i <= s.len(),
                match best {
                    Some(b) => {
                        &&& b < i
                        &&& blocks_below(s[b as int])
                        &&& best_z == s[b as int].spec_z()
                        &&& forall|j: int| 0 <= j < i && blocks_below(#[trigger] s[j]) ==> s[j].spec_z() <= best_z
                        &&& forall|j: int| b < j < i && blocks_below(#[trigger] s[j]) ==> s[j].spec_z() < best_z
                    },
                    None => forall|j: int| 0 <= j < i ==> !blocks_below(#[trigger] s[j]),
                },
            decreases s.len() - i,
        {
            let e = &self.entries[i];
            if e.visible && e.focus == FocusPolicy::BlockBelow && e.kind == LayerKind::Modal {
                let z = self.entry_z(i);
                match best {
                    Some(_) => {
                        if z >= best_z {
                            best = Some(i);
                            best_z = z;
                        }
                    },
                    None => {
                        best = Some(i);
                        best_z = z;
                    },
                }
            }
            i = i + 1;
        }
        match best {
            Some(b) => {
                assert(is_top_blocking(s, b as int));
                proof {
                    let c = choose|c: int| is_top_blocking(s, c);
                    if c < b {
                        assert(s[b as int].spec_z() < s[c].spec_z());
                    } else if c > b {
                        assert(s[c].spec_z() < s[b as int].spec_z());
                    }
                    assert(c == b);
                }
                Some(self.entries[b].handle)
            },
            None => None,
        }
    }

    /// Root element of the content layer entry.
    pub fn content_root_id(&self) -> (r: Option<ElementId>)
        ensures
            r == root_of(self@.entries, self@.content),
    {
        match self.content_handle {
            Some(h) => match self.by_handle(h) {
                Some(e) => Some(e.root_id),
                None => None,
            },
            None => None,
        }
    }

    /// Root element of the default overlay entry.
    pub fn default_overlay_root_id(&self) -> (r: Option<ElementId>)
        ensures
            r == root_of(self@.entries, self@.overlay),
    {
        match self.default_overlay_handle {
            Some(h) => match self.by_handle(h) {
                Some(e) => Some(e.root_id),
                None => None,
            },
            None => None,
        }
    }

    /// Root element of the default modal entry.
    pub fn default_modal_root_id(&self) -> (r: Option<ElementId>)
        ensures
            r == root_of(self@.entries, self@.modal),
    {
        match self.default_modal_handle {
            Some(h) => match self.by_handle(h) {
                Some(e) => Some(e.root_id),
                None => None,
            },
            None => None,
        }
    }

    /// Whether some visible entry of `kind` exists.
    pub fn layer_has_content(&self, kind: LayerKind) -> (r: bool)
        ensures
            r == exists|i: int|
                0 <= i < self@.entries.len() && #[trigger] self@.entries[i].kind == kind
                    && self@.entries[i].visible,
    {
        let mut i: usize = 0;
        while i < self.entries.len()
            invariant
                i <= self@.entries.len(),
                forall|j: int| 0 <= j < i ==> !(#[trigger] self@.entries[j].kind == kind && self@.entries[j].visible),
            decreases self@.entries.len() - i,
        {
            if self.entries[i].kind == kind && self.entries[i].visible {
                return true;
            }
            i = i + 1;
        }
        false
    }
}

/// Minimum z that still receives events: the z of the top blocking modal's
/// handle (looked up by handle), or -1 when there is none.
pub open spec fn hit_cutoff<A>(s: Seq<LayerEntry<A>>) -> int {
    match top_blocking(s) {
        Some(h) => match first_with(s, h) {
            Some(i) => s[i].spec_z(),
            None => -1,
        },
        None => -1,
    }
}

/// Entries that take part in hit testing.
pub open spec fn hit_candidate<A>(s: Seq<LayerEntry<A>>, e: LayerEntry<A>) -> bool {
    e.visible && e.spec_z() >= hit_cutoff(s)
}

/// Position `k` of hit order `ord` is a candidate whose subtree was hit.
pub open spec fn hit_at<A>(s: Seq<LayerEntry<A>>, ord: Seq<usize>, hits: Seq<Option<ElementId>>, k: int) -> bool {
    hit_candidate(s, s[ord[k] as int]) && hits[ord[k] as int].is_some()
}

/// Handles of the dismissable candidates among the first `k` of hit order
/// `ord`, each once, in hit order.
pub open spec fn dismissals<A>(s: Seq<LayerEntry<A>>, ord: Seq<usize>, k: int) -> Seq<u64>
    decreases k,
{
    if k <= 0 {
        Seq::empty()
    } else {
        let prev = dismissals(s, ord, k - 1);
        let e = s[ord[k - 1] as int];
        if hit_candidate(s, e) && e.focus == FocusPolicy::Dismissable && e.dismiss_on_outside_click
            && !prev.contains(e.handle.0) {
            prev.push(e.handle.0)
        } else {
            prev
        }
    }
}

/// Result of a hit test across the layers: the hit layer kind, element and
/// entry handle (if any), and the roots of entries closed because the
/// pointer landed outside them.
pub struct HitOutcome {
    pub hit: Option<(LayerKind, ElementId, LayerHandle)>,
    pub closed_roots: Vec<ElementId>,
}

impl<A: Copy> LayerStack<A> {
    /// Positions of the entries in hit order (descending z, stable).
    fn hit_order(&self) -> (order: Vec<usize>)
        requires
            self.wf(),
        ensures
            is_stable_order(neg_z_keys(self@.entries), order@),
    {
        let n = self.entries.len();
        let mut keys: Vec<i64> = Vec::new();
        let mut i: usize = 0;
        while i < n
            invariant
                self.wf(),
                n == self@.entries.len(),
                i <= n,
                keys@ == neg_z_keys(self@.entries).subrange(0, i as int),
            decreases n - i,
        {
            let z = self.entry_z(i);
            keys.push(-(z as i64));
            assert(keys@ =~= neg_z_keys(self@.entries).subrange(0, i + 1));
            i = i + 1;
        }
        assert(keys@ =~= neg_z_keys(self@.entries));
        stable_order(&keys)
    }

    fn hit_cutoff_value(&self) -> (c: i64)
        requires
            self.wf(),
        ensures
            c == hit_cutoff(self@.entries),
    {
        match self.top_blocking_modal() {
            Some(h) => match self.position_of(h) {
                Some(p) => self.entry_z(p) as i64,
                None => -1,
            },
            None => -1,
        }
    }

    /// Walks hit order: the first candidate position that was hit, or else the
    /// dismissable candidates' handles.
    fn scan_hits(&self, order: &Vec<usize>, hits: &Vec<Option<ElementId>>) -> (r: Result<usize, Vec<u64>>)
        requires
            self.wf(),
            hits@.len() == self@.entries.len(),
            is_stable_order(neg_z_keys(self@.entries), order@),
        ensures
            match r {
                Ok(k) => {
                    &&& k < order@.len()
                    &&& hit_at(self@.entries, order@, hits@, k as int)
                    &&& forall|j: int| 0 <= j < k ==> !hit_at(self@.entries, order@, hits@, j)
                },
                Err(d) => {
                    &&& forall|j: int| 0 <= j < order@.len() ==> !hit_at(self@.entries, order@, hits@, j)
                    &&& d@ == dismissals(self@.entries, order@, order@.len() as int)
                },
            },
    {
        let ghost s = self@.entries;
        let ghost ord = order@;
        let n = order.len();
        let cutoff = self.hit_cutoff_value();
        let mut dismiss: Vec<u64> = Vec::new();
        let mut k: usize = 0;
        while k < n
            invariant
                self.wf(),
                s == self@.entries,
                n == ord.len(),
                ord == order@,
                ord.len() == s.len(),
                hits@.len() == s.len(),
                forall|j: int| 0 <= j < ord.len() ==> ord[j] < s.len(),
                cutoff == hit_cutoff(s),
                k <= n,
                forall|j: int| 0 <= j < k ==> !hit_at(s, ord, hits@, j),
                dismiss@ == dismissals(s, ord, k as int),
            decreases n - k,
        {
            let idx = order[k];
            let e = self.entries[idx];
            let z = self.entry_z(idx);
            if e.visible && (z as i64) >= cutoff {
                if hits[idx].is_some() {
                    return Ok(k);
                }
                if e.focus == FocusPolicy::Dismissable && e.dismiss_on_outside_click
                    && !contains_u64(&dismiss, e.handle.0) {
                    dismiss.push(e.handle.0);
                }
            }
            k = k + 1;
        }
        Err(dismiss)
    }

    /// Closes each popup of `handles` in turn, with its subtree.
    fn close_all(&mut self, handles: &Vec<u64>) -> (roots: Vec<ElementId>)
        requires
            old(self).wf(),
        ensures
            final(self).wf(),
            closed_all(old(self)@, handles@, final(self)@, roots@),
    {
        let ghost m0 = self@;
        let mut roots: Vec<ElementId> = Vec::new();
        let mut d: usize = 0;
        assert(handles@.subrange(0, 0) =~= Seq::<u64>::empty());
        proof {
            lemma_closed_all_empty(m0);
        }
        while d < handles.len()
            invariant
                self.wf(),
                d <= handles@.len(),
                closed_all(m0, handles@.subrange(0, d as int), self@, roots@),
            decreases handles@.len() - d,
        {
            let ghost m1 = self@;
            let ghost r1 = roots@;
            let closed = self.close_popup(LayerHandle(handles[d]));
            let mut j: usize = 0;
            while j < closed.len()
                invariant
                    j <= closed@.len(),
                    roots@ == r1 + closed@.subrange(0, j as int),
                decreases closed@.len() - j,
            {
                roots.push(closed[j]);
                assert(roots@ =~= r1 + closed@.subrange(0, j + 1));
                j = j + 1;
            }
            proof {
                assert(closed@.subrange(0, closed@.len() as int) =~= closed@);
                assert(handles@.subrange(0, d as int).push(handles@[d as int]) =~= handles@.subrange(0, d + 1));
                assert(roots@ == r1 + closed@);
                lemma_closed_all_step(m0, handles@.subrange(0, d as int), m1, r1, handles@[d as int], self@, closed@);
            }
            d = d + 1;
        }
        assert(handles@.subrange(0, handles@.len() as int) =~= handles@);
        roots
    }

    /// Hit test across all layers, topmost first. `hits[i]` is the element hit
    /// inside the subtree of entry `i` (in insertion order), as found by the
    /// caller's geometric test. Only visible entries at or above the top
    /// blocking modal take part. The first of them whose subtree was hit
    /// wins; when none was hit, every dismissable entry among them that asks to
    /// be dismissed by an outside click is closed with its popup subtree.
    pub fn hit_test_top(&mut self, hits: &Vec<Option<ElementId>>) -> (r: HitOutcome)
        requires
            old(self).wf(),
            hits@.len() == old(self)@.entries.len(),
        ensures
            final(self).wf(),
            exists|ord: Seq<usize>| {
                let s = old(self)@.entries;
                &&& #[trigger] is_stable_order(neg_z_keys(old(self)@.entries), ord)
                &&& if exists|k: int| 0 <= k < ord.len() && hit_at(s, ord, hits@, k) {
                    let k = choose|k: int|
                        0 <= k < ord.len() && hit_at(s, ord, hits@, k) && forall|j: int|
                            0 <= j < k ==> !hit_at(s, ord, hits@, j);
                    &&& r.hit == Some((s[ord[k] as int].kind, hits@[ord[k] as int].unwrap(), s[ord[k] as int].handle))
                    &&& r.closed_roots@.len() == 0
                    &&& final(self)@ == old(self)@
                } else {
                    &&& r.hit.is_none()
                    &&& closed_all(old(self)@, dismissals(s, ord, ord.len() as int), final(self)@, r.closed_roots@)
                }
            },
    {
        let ghost s = self@.entries;
        let order = self.hit_order();
        let ghost ord = order@;
        match self.scan_hits(&order, hits) {
            Ok(k) => {
                let idx = order[k];
                let e = self.entries[idx];
                let id = hits[idx].unwrap();
                proof {
                    let c = choose|c: int|
                        0 <= c < ord.len() && hit_at(s, ord, hits@, c) && forall|j: int|
                            0 <= j < c ==> !hit_at(s, ord, hits@, j);
                    if c < k {
                    } else if c > k {
                    }
                    assert(c == k);
                    assert(is_stable_order(neg_z_keys(s), ord));
                }
                HitOutcome { hit: Some((e.kind, id, e.handle)), closed_roots: Vec::new() }
            },
            Err(dismiss) => {
                let roots = self.close_all(&dismiss);
                proof {
                    assert(!exists|j: int| 0 <= j < ord.len() && hit_at(s, ord, hits@, j));
                    assert(is_stable_order(neg_z_keys(s), ord));
                }
                HitOutcome { hit: None, closed_roots: roots }
            },
        }
    }
}


/// Options of the built-in content, overlay and modal entries.
pub open spec fn plain_options(backdrop: Option<Color>) -> LayerOptions {
    LayerOptions { visible: true, dismiss_on_outside: false, backdrop, flip: false }
}

/// Content before pushing a default entry: the previous default entry of
/// that slot removed, with its root.
pub open spec fn without_default<A>(m: LayerModel<A>, h: Option<LayerHandle>) -> (LayerModel<A>, Option<ElementId>) {
    match h {
        Some(h) => removed(m, h),
        None => (m, None),
    }
}

/// Content after appending a built-in entry of `kind` under the next handle.
pub open spec fn pushed_fresh<A>(
    m: LayerModel<A>,
    kind: LayerKind,
    root_id: ElementId,
    anchor: A,
    focus: FocusPolicy,
    backdrop: Option<Color>,
) -> LayerModel<A> {
    LayerModel {
        next_handle: (m.next_handle + 1) as u64,
        ..pushed(
            m,
            make_entry(
                LayerHandle(m.next_handle),
                kind,
                root_id,
                anchor,
                focus,
                plain_options(backdrop),
                m.kind_seq[kind.rank()],
            ),
        )
    }
}

/// Content after setting the content root to `id`: the first time, a
/// visible, event-transparent content entry is pushed under the next handle;
/// afterwards the entry with handle 0 gets the new root.
pub open spec fn content_root_set<A>(m: LayerModel<A>, id: ElementId, anchor: A) -> LayerModel<A> {
    match m.content {
        Some(_) => match first_with(m.entries, LayerHandle(0)) {
            Some(i) => LayerModel { entries: m.entries.update(i, LayerEntry { root_id: id, ..m.entries[i] }), ..m },
            None => m,
        },
        None => LayerModel {
            content: Some(LayerHandle(m.next_handle)),
            ..pushed_fresh(m, LayerKind::Content, id, anchor, FocusPolicy::Transparent, None)
        },
    }
}

/// The backdrop color of the default modal: black at alpha 80.
pub open spec fn modal_backdrop() -> Color {
    Color { r: 0, g: 0, b: 0, a: 80 }
}

impl<A: Copy> LayerStack<A> {
    fn push_plain(
        &mut self,
        kind: LayerKind,
        root_id: ElementId,
        anchor: A,
        focus: FocusPolicy,
        backdrop: Option<Color>,
    ) -> (h: LayerHandle)
        requires
            old(self).wf(),
            old(self)@.next_handle < u64::MAX,
            old(self)@.kind_seq[kind.rank()] < seq_limit(),
        ensures
            final(self).wf(),
            h == LayerHandle(old(self)@.next_handle),
            final(self)@ == pushed_fresh(old(self)@, kind, root_id, anchor, focus, backdrop),
    {
        let opts = LayerOptions { visible: true, dismiss_on_outside: false, backdrop, flip: false };
        self.push(kind, root_id, anchor, focus, opts)
    }

    /// Sets the root of the content layer. The first time, a content entry is
    /// created (anchor `anchor`, visible, transparent to events). Afterwards
    /// the entry with handle 0 gets the new root; the previous root, when it
    /// differs, is returned for the caller to drop from its element tree.
    pub fn set_content_root(&mut self, id: ElementId, anchor: A) -> (r: Option<ElementId>)
        requires
            old(self).wf(),
            old(self)@.content.is_none() ==> old(self)@.next_handle < u64::MAX
                && old(self)@.kind_seq[LayerKind::Content.rank()] < seq_limit(),
        ensures
            final(self).wf(),
            final(self)@ == content_root_set(old(self)@, id, anchor),
            r == match old(self)@.content {
                Some(_) => match first_with(old(self)@.entries, LayerHandle(0)) {
                    Some(i) => if old(self)@.entries[i].root_id != id {
                        Some(old(self)@.entries[i].root_id)
                    } else {
                        None
                    },
                    None => None,
                },
                None => None,
            },
    {
        if self.content_handle.is_some() {
            match self.position_of(LayerHandle(0)) {
                Some(i) => {
                    let e = self.entries[i];
                    if e.root_id != id {
                        self.entries.set(i, LayerEntry { root_id: id, ..e });
                        Some(e.root_id)
                    } else {
                        assert(self@.entries.update(i as int, LayerEntry { root_id: id, ..e }) =~= self@.entries);
                        None
                    }
                },
                None => None,
            }
        } else {
            let h = self.push_plain(LayerKind::Content, id, anchor, FocusPolicy::Transparent, None);
            self.content_handle = Some(h);
            None
        }
    }

    /// Replaces the default overlay: the previous one (if any) is removed and
    /// its root returned; a new visible, event-transparent overlay entry rooted
    /// at `root_id` is pushed under the next handle.
    pub fn push_default_overlay(&mut self, root_id: ElementId, anchor: A) -> (r: Option<ElementId>)
        requires
            old(self).wf(),
            old(self)@.next_handle < u64::MAX,
            old(self)@.kind_seq[LayerKind::Overlay.rank()] < seq_limit(),
        ensures
            final(self).wf(),
            ({
                let (m1, old_root) = without_default(old(self)@, old(self)@.overlay);
                &&& r == old_root
                &&& final(self)@ == (LayerModel {
                    overlay: Some(LayerHandle(m1.next_handle)),
                    ..pushed_fresh(m1, LayerKind::Overlay, root_id, anchor, FocusPolicy::Transparent, None)
                })
            }),
    {
        let removed_root = match self.default_overlay_handle {
            Some(h) => self.remove(h),
            None => None,
        };
        let h = self.push_plain(LayerKind::Overlay, root_id, anchor, FocusPolicy::Transparent, None);
        self.default_overlay_handle = Some(h);
        removed_root
    }

    /// Removes the default overlay, returning its root.
    pub fn remove_default_overlay(&mut self) -> (r: Option<ElementId>)
        requires
            old(self).wf(),
        ensures
            final(self).wf(),
            match old(self)@.overlay {
                Some(h) => {
                    let (m1, old_root) = removed(old(self)@, h);
                    r == old_root && final(self)@ == (LayerModel { overlay: None, ..m1 })
                },
                None => r.is_none() && final(self)@ == old(self)@,
            },
    {
        match self.default_overlay_handle {
            Some(h) => {
                let r = self.remove(h);
                self.default_overlay_handle = None;
                r
            },
            None => None,
        }
    }

    /// Replaces the default modal: the previous one (if any) is removed and its
    /// root returned; a new visible modal rooted at `root_id` that blocks the
    /// layers below and draws a translucent black backdrop is pushed under the
    /// next handle.
    pub fn push_default_modal(&mut self, root_id: ElementId, anchor: A) -> (r: Option<ElementId>)
        requires
            old(self).wf(),
            old(self)@.next_handle < u64::MAX,
            old(self)@.kind_seq[LayerKind::Modal.rank()] < seq_limit(),
        ensures
            final(self).wf(),
            ({
                let (m1, old_root) = without_default(old(self)@, old(self)@.modal);
                &&& r == old_root
                &&& final(self)@ == (LayerModel {
                    modal: Some(LayerHandle(m1.next_handle)),
                    ..pushed_fresh(m1, LayerKind::Modal, root_id, anchor, FocusPolicy::BlockBelow, Some(modal_backdrop()))
                })
            }),
    {
        let removed_root = match self.default_modal_handle {
            Some(h) => self.remove(h),
            None => None,
        };
        let h = self.push_plain(
            LayerKind::Modal,
            root_id,
            anchor,
            FocusPolicy::BlockBelow,
            Some(Color::rgba(0, 0, 0, 80)),
        );
        self.default_modal_handle = Some(h);
        removed_root
    }

    /// Removes the default modal, returning its root.
    pub fn remove_default_modal(&mut self) -> (r: Option<ElementId>)
        requires
            old(self).wf(),
        ensures
            final(self).wf(),
            match old(self)@.modal {
                Some(h) => {
                    let (m1, old_root) = removed(old(self)@, h);
                    r == old_root && final(self)@ == (LayerModel { modal: None, ..m1 })
                },
                None => r.is_none() && final(self)@ == old(self)@,
            },
    {
        match self.default_modal_handle {
            Some(h) => {
                let r = self.remove(h);
                self.default_modal_handle = None;
                r
            },
            None => None,
        }
    }
}
/// No two entries share a handle.
#[verifier::opaque]
pub open spec fn distinct_handles<A>(s: Seq<LayerEntry<A>>) -> bool {
    forall|i: int, j: int| 0 <= i < j < s.len() ==> #[trigger] s[i].handle != #[trigger] s[j].handle
}

/// With distinct handles, the entry with handle `h` at `i` is the only one.
pub proof fn lemma_handle_unique<A>(s: Seq<LayerEntry<A>>, i: int, k: int)
    requires
        distinct_handles(s),
        0 <= i < s.len(),
        0 <= k < s.len(),
        k != i,
    ensures
        s[k].handle != s[i].handle,
{
    reveal(distinct_handles);
    if k < i {
        assert(s[k].handle != s[i].handle);
    } else {
        assert(s[i].handle != s[k].handle);
    }
}

/// With distinct handles, the entry carrying `h` is the first one with it.
#[verifier::spinoff_prover]
pub proof fn lemma_first_with_at<A>(s: Seq<LayerEntry<A>>, h: LayerHandle, i: int)
    requires
        distinct_handles(s),
        0 <= i < s.len(),
        s[i].handle == h,
    ensures
        first_with(s, h) == Some(i),
{
    assert forall|j: int| 0 <= j < i implies s[j].handle != h by {
        lemma_handle_unique(s, i, j);
    }
    let c = choose|c: int| 0 <= c < s.len() && s[c].handle == h && forall|j: int| 0 <= j < c ==> s[j].handle != h;
    if c != i {
        lemma_handle_unique(s, i, c);
    }
}


/// Entry `b` blocks the layers below and no blocking entry among the first
/// `n` lies higher (none after it as high).
pub open spec fn top_blocking_in<A>(s: Seq<LayerEntry<A>>, n: int, b: int) -> bool {
    &&& 0 <= b < n
    &&& blocks_below(s[b])
    &&& forall|j: int| 0 <= j < n && blocks_below(#[trigger] s[j]) ==> s[j].spec_z() <= s[b].spec_z()
    &&& forall|j: int| b < j < n && blocks_below(#[trigger] s[j]) ==> s[j].spec_z() < s[b].spec_z()
}

proof fn lemma_top_blocking_in<A>(s: Seq<LayerEntry<A>>, n: int) -> (b: int)
    requires
        0 < n <= s.len(),
        exists|j: int| 0 <= j < n && blocks_below(#[trigger] s[j]),
    ensures
        top_blocking_in(s, n, b),
    decreases n,
{
    if exists|j: int| 0 <= j < n - 1 && blocks_below(#[trigger] s[j]) {
        let b = lemma_top_blocking_in(s, n - 1);
        if blocks_below(s[n - 1]) && s[n - 1].spec_z() >= s[b].spec_z() {
            n - 1
        } else {
            b
        }
    } else {
        assert(blocks_below(s[n - 1])) by {
            let j = choose|j: int| 0 <= j < n && blocks_below(#[trigger] s[j]);
            assert(j == n - 1);
        }
        n - 1
    }
}

/// A visible modal that blocks the layers below cuts them off from the
/// pointer: the hit cutoff is the z of the highest blocking modal, so no
/// entry below any blocking modal takes part in hit testing.
pub proof fn lemma_blocking_modal_sets_cutoff<A>(s: Seq<LayerEntry<A>>, i: int, e: LayerEntry<A>)
    requires
        distinct_handles(s),
        0 <= i < s.len(),
        blocks_below(s[i]),
    ensures
        hit_cutoff(s) >= s[i].spec_z(),
        exists|b: int| 0 <= b < s.len() && blocks_below(#[trigger] s[b]) && hit_cutoff(s) == s[b].spec_z(),
        hit_candidate(s, e) ==> e.spec_z() >= s[i].spec_z(),
{
    let b = lemma_top_blocking_in(s, s.len() as int);
    assert(is_top_blocking(s, b));
    let t = choose|t: int| is_top_blocking(s, t);
    assert(is_top_blocking(s, t));
    let h = s[t].handle;
    assert(top_blocking(s) == Some(h));
    lemma_first_with_at(s, h, t);
    assert(blocks_below(s[t]));
}

/// Every handle that the outside-click pass collects belongs to an entry
/// that takes part in hit testing, met earlier in hit order.
proof fn lemma_dismissed_are_candidates<A>(s: Seq<LayerEntry<A>>, ord: Seq<usize>, k: int, h: u64)
    requires
        0 <= k <= ord.len(),
    ensures
        dismissals(s, ord, k).contains(h) ==> exists|q: int|
            0 <= q < k && #[trigger] s[ord[q] as int].handle.0 == h && hit_candidate(s, s[ord[q] as int]),
    decreases k,
{
    if k > 0 {
        lemma_dismissed_are_candidates(s, ord, k - 1, h);
        let prev = dismissals(s, ord, k - 1);
        let e = s[ord[k - 1] as int];
        if dismissals(s, ord, k).contains(h) && !prev.contains(h) {
            assert(dismissals(s, ord, k) == prev.push(e.handle.0));
            crate::seqs::lemma_push_contains(prev, e.handle.0, h);
            assert(s[ord[k - 1] as int].handle.0 == h);
        }
    }
}

/// While a visible modal blocks the layers below, a hit test never lands on
/// an entry below it and never dismisses one: the entry hit and every entry
/// closed by an outside click lie at or above the modal's z.
pub proof fn lemma_hit_test_stops_at_blocking_modal<A>(
    s: Seq<LayerEntry<A>>,
    ord: Seq<usize>,
    hits: Seq<Option<ElementId>>,
    i: int,
    k: int,
    h: u64,
)
    requires
        distinct_handles(s),
        0 <= i < s.len(),
        blocks_below(s[i]),
        0 <= k <= ord.len(),
    ensures
        k < ord.len() && hit_at(s, ord, hits, k) ==> s[ord[k] as int].spec_z() >= s[i].spec_z(),
        dismissals(s, ord, k).contains(h) ==> exists|q: int|
            0 <= q < k && #[trigger] s[ord[q] as int].handle.0 == h && s[ord[q] as int].spec_z() >= s[i].spec_z(),
{
    if k < ord.len() {
        lemma_blocking_modal_sets_cutoff(s, i, s[ord[k] as int]);
    }
    lemma_dismissed_are_candidates(s, ord, k, h);
    if dismissals(s, ord, k).contains(h) {
        let q = choose|q: int|
            0 <= q < k && #[trigger] s[ord[q] as int].handle.0 == h && hit_candidate(s, s[ord[q] as int]);
        lemma_blocking_modal_sets_cutoff(s, i, s[ord[q] as int]);
    }
}


/// With no visible blocking modal nothing is cut off: every visible entry
/// takes part in hit testing.
pub proof fn lemma_no_blocking_modal_no_cutoff<A>(s: Seq<LayerEntry<A>>, e: LayerEntry<A>)
    requires
        forall|i: int| 0 <= i < s.len() ==> !blocks_below(#[trigger] s[i]),
        e.spec_z() >= 0,
    ensures
        hit_cutoff(s) == -1,
        hit_candidate(s, e) == e.visible,
{
    assert(!exists|i: int| is_top_blocking(s, i));
}

} // verus!
