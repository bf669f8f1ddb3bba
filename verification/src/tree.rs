//! The runtime element tree: an arena of elements with parent/child links,
//! listener kinds and interaction state.
//!
//! An element id is the index of its slot. Slots of removed elements stay
//! empty and are never reused, so a stale id never resolves to a newer
//! element.

use vstd::prelude::*;
use crate::effects::ElementId;
use crate::event_types::{EventType, spec_any_ime_kind, has_ime_listener as kinds_have_ime};

verus! {

/// The kind of a view node.
#[derive(Debug, Clone, Copy, PartialEq, Eq, Structural)]
pub enum NodeKind {
    Div,
    Text,
    Image,
}

impl NodeKind {
    /// The name of the node type.
    pub fn kind_name(&self) -> (r: &'static str)
        ensures
            r@ == (match *self {
                NodeKind::Div => "Div"@,
                NodeKind::Text => "Text"@,
                NodeKind::Image => "Image"@,
            }),
    {
        match self {
            NodeKind::Div => "Div",
            NodeKind::Text => "Text",
            NodeKind::Image => "Image",
        }
    }
}

/// A node of the declarative view tree produced by a build pass.
pub struct ViewNode {
    pub kind: NodeKind,
    /// Identity across rebuilds: children with equal keys are matched first.
    pub key: Option<String>,
    /// Identifier of the node's configuration (layout, paint, text content),
    /// assigned by the builder: two nodes with the same identifier render
    /// alike, so an element whose configuration identifier is unchanged
    /// needs no update.
    pub config: u64,
    /// Kinds of the listeners attached to the node, in attachment order.
    pub listeners: Vec<EventType>,
    pub children: Vec<ViewNode>,
}

/// Interaction flags of an element.
#[derive(Debug, Clone, Copy, PartialEq, Eq, Structural)]
pub struct ElementState {
    pub hovered: bool,
    pub pressed: bool,
    pub focused: bool,
}

impl Default for ElementState {
    fn default() -> (r: Self)
        ensures
            r == (ElementState { hovered: false, pressed: false, focused: false }),
    {
        ElementState { hovered: false, pressed: false, focused: false }
    }
}

/// One element: its node configuration (without children) and its place in
/// the tree.
pub struct ElementEntry {
    pub kind: NodeKind,
    pub key: Option<String>,
    pub config: u64,
    pub listeners: Vec<EventType>,
    pub parent: Option<ElementId>,
    pub children: Vec<ElementId>,
    pub state: ElementState,
    /// Needs layout.
    pub dirty: bool,
}

/// The element arena.
pub struct ElementTree {
    slots: Vec<Option<ElementEntry>>,
    root: Option<ElementId>,
}

/// The tree as plain values: one slot per id ever created.
pub struct TreeModel {
    pub slots: Seq<Option<ElementEntry>>,
    pub root: Option<ElementId>,
}

impl View for ElementTree {
    type V = TreeModel;

    closed spec fn view(&self) -> TreeModel {
        TreeModel { slots: self.slots@, root: self.root }
    }
}

/// The element stored under `id`, if it is alive.
pub open spec fn slot(t: TreeModel, id: ElementId) -> Option<ElementEntry> {
    if id.0 < t.slots.len() {
        t.slots[id.0 as int]
    } else {
        None
    }
}

/// Whether `id` names a live element.
pub open spec fn live(t: TreeModel, id: ElementId) -> bool {
    slot(t, id) is Some
}

/// The children of `id` (empty when it is not alive).
pub open spec fn children_of_spec(t: TreeModel, id: ElementId) -> Seq<ElementId> {
    match slot(t, id) {
        Some(e) => e.children@,
        None => Seq::empty(),
    }
}

/// Number of live slots among the first `n`.
pub open spec fn live_count(slots: Seq<Option<ElementEntry>>, n: int) -> nat
    decreases n,
{
    if n <= 0 {
        0
    } else {
        live_count(slots, n - 1) + if slots[n - 1] is Some {
            1nat
        } else {
            0nat
        }
    }
}

/// The text of a key, when there is one.
pub open spec fn key_seq(k: Option<String>) -> Option<Seq<char>> {
    match k {
        Some(s) => Some(s@),
        None => None,
    }
}

/// A fresh element for `n`: no parent, no children, default state, dirty.
pub open spec fn fresh_entry(e: ElementEntry, n: &ViewNode) -> bool {
    &&& e.kind == n.kind
    &&& e.key == n.key
    &&& e.config == n.config
    &&& e.listeners@ == n.listeners@
    &&& e.parent is None
    &&& e.children@ == Seq::<ElementId>::empty()
    &&& e.state == ElementState { hovered: false, pressed: false, focused: false }
    &&& e.dirty
}

/// An element as plain values.
pub struct EntryView {
    pub kind: NodeKind,
    pub key: Option<String>,
    pub config: u64,
    pub listeners: Seq<EventType>,
    pub parent: Option<ElementId>,
    pub children: Seq<ElementId>,
    pub state: ElementState,
    pub dirty: bool,
}

pub open spec fn entry_view(e: ElementEntry) -> EntryView {
    EntryView {
        kind: e.kind,
        key: e.key,
        config: e.config,
        listeners: e.listeners@,
        parent: e.parent,
        children: e.children@,
        state: e.state,
        dirty: e.dirty,
    }
}

/// The element `id` as plain values, if it is alive.
pub open spec fn node(t: TreeModel, id: ElementId) -> Option<EntryView> {
    match slot(t, id) {
        Some(e) => Some(entry_view(e)),
        None => None,
    }
}

/// `s[..n]` without the occurrences of `x`.
pub open spec fn without_id(s: Seq<ElementId>, x: ElementId, n: int) -> Seq<ElementId>
    decreases n,
{
    if n <= 0 {
        Seq::empty()
    } else {
        let p = without_id(s, x, n - 1);
        if s[n - 1] == x {
            p
        } else {
            p.push(s[n - 1])
        }
    }
}

/// `s` without the occurrences of `x`.
pub open spec fn without(s: Seq<ElementId>, x: ElementId) -> Seq<ElementId> {
    without_id(s, x, s.len() as int)
}

/// Position at which an insertion at `pos` lands in a list of length `len`.
pub open spec fn clamped(pos: usize, len: int) -> int {
    if pos < len {
        pos as int
    } else {
        len
    }
}

/// Two trees with the same slots count, the same root, and the same
/// elements except where `changed` says otherwise.
pub open spec fn same_outside(a: TreeModel, b: TreeModel, changed: spec_fn(ElementId) -> bool) -> bool {
    &&& a.slots.len() == b.slots.len()
    &&& a.root == b.root
    &&& forall|x: ElementId| !changed(x) ==> #[trigger] node(b, x) == node(a, x)
}

fn without_child(v: &Vec<ElementId>, x: ElementId) -> (r: Vec<ElementId>)
    ensures
        r@ == without(v@, x),
{
    let mut out: Vec<ElementId> = Vec::new();
    let mut i: usize = 0;
    while i < v.len()
        invariant
            i <= v.len(),
            out@ == without_id(v@, x, i as int),
        decreases v.len() - i,
    {
        if v[i] != x {
            out.push(v[i]);
        }
        i = i + 1;
    }
    out
}

pub(crate) fn copy_kinds(v: &Vec<EventType>) -> (r: Vec<EventType>)
    ensures
        r@ == v@,
{
    let mut out: Vec<EventType> = Vec::new();
    let mut i: usize = 0;
    while i < v.len()
        invariant
            i <= v.len(),
            out@ =~= v@.subrange(0, i as int),
        decreases v.len() - i,
    {
        out.push(v[i]);
        i = i + 1;
    }
    assert(out@ =~= v@);
    out
}

pub(crate) fn copy_key(k: &Option<String>) -> (r: Option<String>)
    ensures
        r == *k,
{
    match k {
        Some(s) => Some(s.clone()),
        None => None,
    }
}

fn copy_children(v: &Vec<ElementId>) -> (r: Vec<ElementId>)
    ensures
        r@ == v@,
{
    let mut out: Vec<ElementId> = Vec::new();
    let mut i: usize = 0;
    while i < v.len()
        invariant
            i <= v.len(),
            out@ =~= v@.subrange(0, i as int),
        decreases v.len() - i,
    {
        out.push(v[i]);
        i = i + 1;
    }
    assert(out@ =~= v@);
    out
}

impl ElementTree {
    pub fn new() -> (r: Self)
        ensures
            r@.slots == Seq::<Option<ElementEntry>>::empty(),
            r@.root is None,
    {
        ElementTree { slots: Vec::new(), root: None }
    }

    fn index_of(&self, id: ElementId) -> (r: Option<usize>)
        ensures
            match r {
                Some(i) => i == id.0 && i < self@.slots.len() && self@.slots[i as int] is Some,
                None => !live(self@, id),
            },
    {
        if id.0 < self.slots.len() as u64 {
            let i = id.0 as usize;
            if self.slots[i].is_some() {
                Some(i)
            } else {
                None
            }
        } else {
            None
        }
    }

    /// Creates a detached element for `n` (its children are not created).
    pub fn create_from_node(&mut self, n: &ViewNode) -> (id: ElementId)
        requires
            old(self)@.slots.len() < u64::MAX,
        ensures
            id.0 == old(self)@.slots.len(),
            final(self)@.root == old(self)@.root,
            final(self)@.slots.len() == old(self)@.slots.len() + 1,
            final(self)@.slots.subrange(0, id.0 as int) == old(self)@.slots,
            final(self)@.slots[id.0 as int] matches Some(e) && fresh_entry(e, n),
    {
        let id = ElementId(self.slots.len() as u64);
        let entry = ElementEntry {
            kind: n.kind,
            key: copy_key(&n.key),
            config: n.config,
            listeners: copy_kinds(&n.listeners),
            parent: None,
            children: Vec::new(),
            state: ElementState::default(),
            dirty: true,
        };
        self.slots.push(Some(entry));
        assert(self@.slots.subrange(0, id.0 as int) =~= old(self)@.slots);
        id
    }

    pub fn contains(&self, id: ElementId) -> (r: bool)
        ensures
            r == live(self@, id),
    {
        self.index_of(id).is_some()
    }

    /// Number of live elements.
    /// Number of slots handed out so far (the next element takes the next
    /// one).
    pub fn slot_count(&self) -> (r: usize)
        ensures
            r == self@.slots.len(),
    {
        self.slots.len()
    }

    pub fn len(&self) -> (r: usize)
        ensures
            r == live_count(self@.slots, self@.slots.len() as int),
    {
        let mut count: usize = 0;
        let mut i: usize = 0;
        while i < self.slots.len()
            invariant
                i <= self.slots.len(),
                count == live_count(self@.slots, i as int),
                count <= i,
            decreases self.slots.len() - i,
        {
            if self.slots[i].is_some() {
                count = count + 1;
            }
            i = i + 1;
        }
        count
    }

    pub fn is_empty(&self) -> (r: bool)
        ensures
            r == (live_count(self@.slots, self@.slots.len() as int) == 0),
    {
        self.len() == 0
    }

    pub fn set_root(&mut self, id: ElementId)
        ensures
            final(self)@ == (TreeModel { root: Some(id), ..old(self)@ }),
    {
        self.root = Some(id);
    }

    pub fn root(&self) -> (r: Option<ElementId>)
        ensures
            r == self@.root,
    {
        self.root
    }

    pub fn parent_of(&self, id: ElementId) -> (r: Option<ElementId>)
        ensures
            r == (match slot(self@, id) {
                Some(e) => e.parent,
                None => None,
            }),
    {
        match self.index_of(id) {
            Some(i) => match &self.slots[i] {
                Some(e) => e.parent,
                None => None,
            },
            None => None,
        }
    }

    pub fn children_of(&self, id: ElementId) -> (r: Vec<ElementId>)
        ensures
            r@ == children_of_spec(self@, id),
    {
        match self.index_of(id) {
            Some(i) => match &self.slots[i] {
                Some(e) => copy_children(&e.children),
                None => Vec::new(),
            },
            None => Vec::new(),
        }
    }

    /// The kind of the element's node.
    pub fn node_type_of(&self, id: ElementId) -> (r: Option<NodeKind>)
        ensures
            r == (match slot(self@, id) {
                Some(e) => Some(e.kind),
                None => None,
            }),
    {
        match self.index_of(id) {
            Some(i) => match &self.slots[i] {
                Some(e) => Some(e.kind),
                None => None,
            },
            None => None,
        }
    }

    /// The element's key.
    pub fn key_of(&self, id: ElementId) -> (r: Option<String>)
        ensures
            r == (match slot(self@, id) {
                Some(e) => e.key,
                None => None,
            }),
    {
        match self.index_of(id) {
            Some(i) => match &self.slots[i] {
                Some(e) => copy_key(&e.key),
                None => None,
            },
            None => None,
        }
    }

    /// The element's configuration identifier.
    pub fn config_of(&self, id: ElementId) -> (r: Option<u64>)
        ensures
            r == (match slot(self@, id) {
                Some(e) => Some(e.config),
                None => None,
            }),
    {
        match self.index_of(id) {
            Some(i) => match &self.slots[i] {
                Some(e) => Some(e.config),
                None => None,
            },
            None => None,
        }
    }

    /// Whether the live element `id` has the same configuration as `n`
    /// (false when `id` is not alive).
    pub fn config_eq(&self, id: ElementId, n: &ViewNode) -> (r: bool)
        ensures
            r == (match slot(self@, id) {
                Some(e) => e.kind == n.kind && key_seq(e.key) == key_seq(n.key) && e.config
                    == n.config,
                None => false,
            }),
    {
        match self.index_of(id) {
            Some(i) => match &self.slots[i] {
                Some(e) => {
                    let same_key = match (&e.key, &n.key) {
                        (Some(a), Some(b)) => *a == *b,
                        (None, None) => true,
                        _ => false,
                    };
                    e.kind == n.kind && same_key && e.config == n.config
                },
                None => false,
            },
            None => false,
        }
    }

    /// The listener kinds attached to the element (empty when not alive).
    pub fn listeners(&self, id: ElementId) -> (r: Vec<EventType>)
        ensures
            r@ == (match slot(self@, id) {
                Some(e) => e.listeners@,
                None => Seq::empty(),
            }),
    {
        match self.index_of(id) {
            Some(i) => match &self.slots[i] {
                Some(e) => copy_kinds(&e.listeners),
                None => Vec::new(),
            },
            None => Vec::new(),
        }
    }

    /// Whether the element has any listener.
    pub fn has_any_listener(&self, id: ElementId) -> (r: bool)
        ensures
            r == (match slot(self@, id) {
                Some(e) => e.listeners@.len() > 0,
                None => false,
            }),
    {
        match self.index_of(id) {
            Some(i) => match &self.slots[i] {
                Some(e) => e.listeners.len() > 0,
                None => false,
            },
            None => false,
        }
    }

    /// Whether the element listens for input-method events.
    pub fn has_ime_listener(&self, id: ElementId) -> (r: bool)
        ensures
            r == (match slot(self@, id) {
                Some(e) => spec_any_ime_kind(e.listeners@),
                None => false,
            }),
    {
        match self.index_of(id) {
            Some(i) => match &self.slots[i] {
                Some(e) => kinds_have_ime(&e.listeners),
                None => false,
            },
            None => false,
        }
    }

    /// The element's interaction flags (all clear when not alive).
    pub fn state(&self, id: ElementId) -> (r: ElementState)
        ensures
            r == (match slot(self@, id) {
                Some(e) => e.state,
                None => ElementState { hovered: false, pressed: false, focused: false },
            }),
    {
        match self.index_of(id) {
            Some(i) => match &self.slots[i] {
                Some(e) => e.state,
                None => ElementState::default(),
            },
            None => ElementState::default(),
        }
    }

    /// Whether the element needs layout.
    pub fn is_dirty(&self, id: ElementId) -> (r: bool)
        ensures
            r == (match slot(self@, id) {
                Some(e) => e.dirty,
                None => false,
            }),
    {
        match self.index_of(id) {
            Some(i) => match &self.slots[i] {
                Some(e) => e.dirty,
                None => false,
            },
            None => false,
        }
    }
}

/// `x` after `id` left the child list of its current parent.
pub open spec fn unlinked_node(o: TreeModel, id: ElementId, x: ElementId) -> Option<EntryView> {
    let op = match node(o, id) {
        Some(v) => v.parent,
        None => None,
    };
    if op == Some(x) {
        match node(o, x) {
            Some(v) => Some(EntryView { children: without(v.children, id), ..v }),
            None => None,
        }
    } else {
        node(o, x)
    }
}

/// `x` after `id` moved under `new_parent` at `position`: `id` leaves its
/// old parent's children, takes the new parent and is marked for layout, and
/// is inserted among the new parent's children.
pub open spec fn moved_node(
    o: TreeModel,
    id: ElementId,
    new_parent: ElementId,
    position: usize,
    x: ElementId,
) -> Option<EntryView> {
    let n2 = if x == id {
        match unlinked_node(o, id, x) {
            Some(v) => Some(EntryView { parent: Some(new_parent), dirty: true, ..v }),
            None => None,
        }
    } else {
        unlinked_node(o, id, x)
    };
    if x == new_parent {
        match n2 {
            Some(v) => Some(
                EntryView {
                    children: v.children.insert(clamped(position, v.children.len() as int), id),
                    ..v
                },
            ),
            None => None,
        }
    } else {
        n2
    }
}

impl ElementTree {
    /// Sets the interaction flags of a live element.
    pub fn set_state(&mut self, id: ElementId, st: ElementState)
        ensures
            same_outside(old(self)@, final(self)@, |x: ElementId| x == id),
            node(final(self)@, id) == (match node(old(self)@, id) {
                Some(v) => Some(EntryView { state: st, ..v }),
                None => None,
            }),
    {
        if let Some(i) = self.index_of(id) {
            match &mut self.slots[i] {
                Some(e) => {
                    e.state = st;
                },
                None => {},
            }
        }
    }

    /// Points `cid` at its new parent `pid` (when `cid` is alive).
    fn set_parent(&mut self, cid: ElementId, pid: ElementId, mark_dirty: bool)
        ensures
            same_outside(old(self)@, final(self)@, |x: ElementId| x == cid),
            node(final(self)@, cid) == (match node(old(self)@, cid) {
                Some(v) => Some(EntryView { parent: Some(pid), dirty: v.dirty || mark_dirty, ..v }),
                None => None,
            }),
    {
        if let Some(i) = self.index_of(cid) {
            match &mut self.slots[i] {
                Some(e) => {
                    e.parent = Some(pid);
                    e.dirty = e.dirty || mark_dirty;
                },
                None => {},
            }
        }
    }

    /// Inserts `cid` into the children of `pid` at `pos`, or at the end when
    /// `pos` is past it (when `pid` is alive).
    fn insert_into_children(&mut self, pid: ElementId, pos: usize, cid: ElementId)
        ensures
            same_outside(old(self)@, final(self)@, |x: ElementId| x == pid),
            node(final(self)@, pid) == (match node(old(self)@, pid) {
                Some(v) => Some(
                    EntryView { children: v.children.insert(clamped(pos, v.children.len() as int), cid), ..v },
                ),
                None => None,
            }),
    {
        if let Some(i) = self.index_of(pid) {
            match &mut self.slots[i] {
                Some(e) => {
                    let at = if pos < e.children.len() {
                        pos
                    } else {
                        e.children.len()
                    };
                    e.children.insert(at, cid);
                },
                None => {},
            }
        }
    }

    /// Removes every occurrence of `cid` from the children of `pid` (when
    /// `pid` is alive).
    fn drop_from_children(&mut self, pid: ElementId, cid: ElementId)
        ensures
            same_outside(old(self)@, final(self)@, |x: ElementId| x == pid),
            node(final(self)@, pid) == (match node(old(self)@, pid) {
                Some(v) => Some(EntryView { children: without(v.children, cid), ..v }),
                None => None,
            }),
    {
        if let Some(i) = self.index_of(pid) {
            match &mut self.slots[i] {
                Some(e) => {
                    let kept = without_child(&e.children, cid);
                    e.children = kept;
                },
                None => {},
            }
        }
    }

    /// Appends `cid` to the children of `pid` and makes `pid` its parent
    /// (each side only when alive).
    pub fn add_child(&mut self, pid: ElementId, cid: ElementId)
        ensures
            same_outside(old(self)@, final(self)@, |x: ElementId| x == pid || x == cid),
            ({
                let mid = if pid == cid {
                    match node(old(self)@, cid) {
                        Some(v) => Some(EntryView { parent: Some(pid), ..v }),
                        None => None,
                    }
                } else {
                    node(old(self)@, pid)
                };
                &&& node(final(self)@, pid) == (match mid {
                    Some(v) => Some(EntryView { children: v.children.push(cid), ..v }),
                    None => None,
                })
                &&& pid != cid ==> node(final(self)@, cid) == (match node(old(self)@, cid) {
                    Some(v) => Some(EntryView { parent: Some(pid), ..v }),
                    None => None,
                })
            }),
    {
        self.set_parent(cid, pid, false);
        let len = match self.index_of(pid) {
            Some(i) => match &self.slots[i] {
                Some(e) => e.children.len(),
                None => 0,
            },
            None => 0,
        };
        self.insert_into_children(pid, len, cid);
        proof {
            match node(self@, pid) {
                Some(v) => {
                    assert(v.children =~= node(old(self)@, pid)->0.children.push(cid));
                },
                None => {},
            }
        }
    }

    /// Inserts `cid` among the children of `pid` at `pos` (at the end when
    /// `pos` is past it) and makes `pid` its parent (each side only when
    /// alive).
    pub fn insert_child(&mut self, pid: ElementId, pos: usize, cid: ElementId)
        ensures
            same_outside(old(self)@, final(self)@, |x: ElementId| x == pid || x == cid),
            ({
                let mid = if pid == cid {
                    match node(old(self)@, cid) {
                        Some(v) => Some(EntryView { parent: Some(pid), ..v }),
                        None => None,
                    }
                } else {
                    node(old(self)@, pid)
                };
                &&& node(final(self)@, pid) == (match mid {
                    Some(v) => Some(
                        EntryView {
                            children: v.children.insert(clamped(pos, v.children.len() as int), cid),
                            ..v
                        },
                    ),
                    None => None,
                })
                &&& pid != cid ==> node(final(self)@, cid) == (match node(old(self)@, cid) {
                    Some(v) => Some(EntryView { parent: Some(pid), ..v }),
                    None => None,
                })
            }),
    {
        self.set_parent(cid, pid, false);
        self.insert_into_children(pid, pos, cid);
    }

    /// Moves the live element `id` under `new_parent` at `position` (at the
    /// end when past it), keeping the element itself: it leaves the children
    /// of its current parent, takes the new parent and is marked for layout.
    pub fn move_child(&mut self, id: ElementId, new_parent: ElementId, position: usize)
        ensures
            final(self)@.slots.len() == old(self)@.slots.len(),
            final(self)@.root == old(self)@.root,
            forall|x: ElementId|
                #[trigger] node(final(self)@, x) == moved_node(old(self)@, id, new_parent, position, x),
    {
        let op = self.parent_of(id);
        if let Some(p) = op {
            self.drop_from_children(p, id);
        }
        let ghost a = self@;
        assert forall|x: ElementId| #[trigger] node(a, x) == unlinked_node(old(self)@, id, x) by {
            if op != Some(x) {
                assert(node(a, x) == node(old(self)@, x));
            }
        }
        self.set_parent(id, new_parent, true);
        let ghost b = self@;
        assert forall|x: ElementId| x != id implies #[trigger] node(b, x) == node(a, x) by {}
        self.insert_into_children(new_parent, position, id);
        assert forall|x: ElementId| x != new_parent implies #[trigger] node(self@, x) == node(b, x) by {}
    }
}

/// Whether the element `c` exists and carries the key `key`.
pub open spec fn has_key(t: TreeModel, c: ElementId, key: Seq<char>) -> bool {
    match node(t, c) {
        Some(v) => key_seq(v.key) == Some(key),
        None => false,
    }
}

impl ElementTree {
    /// Replaces the configuration of a live element by that of `n` (its
    /// children and place in the tree stay) and marks it for layout.
    pub fn update_node(&mut self, id: ElementId, n: &ViewNode)
        ensures
            same_outside(old(self)@, final(self)@, |x: ElementId| x == id),
            node(final(self)@, id) == (match node(old(self)@, id) {
                Some(v) => Some(
                    EntryView {
                        kind: n.kind,
                        key: n.key,
                        config: n.config,
                        listeners: n.listeners@,
                        dirty: true,
                        ..v
                    },
                ),
                None => None,
            }),
    {
        if let Some(i) = self.index_of(id) {
            match &mut self.slots[i] {
                Some(e) => {
                    e.kind = n.kind;
                    e.key = copy_key(&n.key);
                    e.config = n.config;
                    e.listeners = copy_kinds(&n.listeners);
                    e.dirty = true;
                },
                None => {},
            }
        }
    }

    /// Replaces only the listeners of a live element; it is not marked for
    /// layout.
    pub fn set_listeners(&mut self, id: ElementId, listeners: Vec<EventType>)
        ensures
            same_outside(old(self)@, final(self)@, |x: ElementId| x == id),
            node(final(self)@, id) == (match node(old(self)@, id) {
                Some(v) => Some(EntryView { listeners: listeners@, ..v }),
                None => None,
            }),
    {
        if let Some(i) = self.index_of(id) {
            match &mut self.slots[i] {
                Some(e) => {
                    e.listeners = listeners;
                },
                None => {},
            }
        }
    }

    fn set_all_dirty(&mut self, flag: bool)
        ensures
            final(self)@.slots.len() == old(self)@.slots.len(),
            final(self)@.root == old(self)@.root,
            forall|x: ElementId| #[trigger] node(final(self)@, x) == (match node(old(self)@, x) {
                Some(v) => Some(EntryView { dirty: flag, ..v }),
                None => None,
            }),
    {
        let mut i: usize = 0;
        while i < self.slots.len()
            invariant
                i <= self.slots.len(),
                self@.slots.len() == old(self)@.slots.len(),
                self@.root == old(self)@.root,
                forall|k: int| 0 <= k < self@.slots.len() ==> (#[trigger] self@.slots[k] is Some) == (
                old(self)@.slots[k] is Some),
                forall|k: int|
                    0 <= k < i && #[trigger] self@.slots[k] is Some ==> entry_view(self@.slots[k]->0)
                        == (EntryView { dirty: flag, ..entry_view(old(self)@.slots[k]->0) }),
                forall|k: int|
                    i <= k < self@.slots.len() ==> #[trigger] self@.slots[k] == old(self)@.slots[k],
            decreases self.slots.len() - i,
        {
            match &mut self.slots[i] {
                Some(e) => {
                    e.dirty = flag;
                },
                None => {},
            }
            i = i + 1;
        }
        proof {
            assert forall|x: ElementId| #[trigger] node(self@, x) == (match node(old(self)@, x) {
                Some(v) => Some(EntryView { dirty: flag, ..v }),
                None => None,
            }) by {
                if x.0 < self@.slots.len() {
                    let k = x.0 as int;
                    if self@.slots[k] is Some {
                        assert(entry_view(self@.slots[k]->0) == (EntryView {
                            dirty: flag,
                            ..entry_view(old(self)@.slots[k]->0)
                        }));
                    }
                }
            }
        }
    }

    /// Marks every element for layout (for example after a viewport change).
    pub fn mark_dirty_all(&mut self)
        ensures
            final(self)@.slots.len() == old(self)@.slots.len(),
            final(self)@.root == old(self)@.root,
            forall|x: ElementId| #[trigger] node(final(self)@, x) == (match node(old(self)@, x) {
                Some(v) => Some(EntryView { dirty: true, ..v }),
                None => None,
            }),
    {
        self.set_all_dirty(true);
    }

    /// Clears every layout mark (after a layout pass).
    pub fn clear_dirty(&mut self)
        ensures
            final(self)@.slots.len() == old(self)@.slots.len(),
            final(self)@.root == old(self)@.root,
            forall|x: ElementId| #[trigger] node(final(self)@, x) == (match node(old(self)@, x) {
                Some(v) => Some(EntryView { dirty: false, ..v }),
                None => None,
            }),
    {
        self.set_all_dirty(false);
    }

    /// Whether some live element needs layout.
    pub fn has_dirty_node(&self) -> (r: bool)
        ensures
            r == exists|x: ElementId| #[trigger] node(self@, x) matches Some(v) && v.dirty,
    {
        let mut i: usize = 0;
        while i < self.slots.len()
            invariant
                i <= self.slots.len(),
                forall|k: int|
                    0 <= k < i ==> !(#[trigger] self@.slots[k] matches Some(e) && e.dirty),
            decreases self.slots.len() - i,
        {
            let d = match &self.slots[i] {
                Some(e) => e.dirty,
                None => false,
            };
            if d {
                assert(node(self@, ElementId(i as u64)) matches Some(v) && v.dirty);
                return true;
            }
            i = i + 1;
        }
        proof {
            assert forall|x: ElementId| !(#[trigger] node(self@, x) matches Some(v) && v.dirty) by {
                if x.0 < self@.slots.len() {
                    let k = x.0 as int;
                    assert(!(self@.slots[k] matches Some(e) && e.dirty));
                }
            }
        }
        false
    }

    /// The first child of `id` whose key is `key`.
    pub fn find_child_by_key(&self, id: ElementId, key: &str) -> (r: Option<ElementId>)
        ensures
            ({
                let cs = children_of_spec(self@, id);
                match r {
                    Some(c) => exists|i: int|
                        0 <= i < cs.len() && cs[i] == c && has_key(self@, c, key@) && forall|j: int|
                            0 <= j < i ==> !has_key(self@, #[trigger] cs[j], key@),
                    None => forall|j: int| 0 <= j < cs.len() ==> !has_key(self@, #[trigger] cs[j], key@),
                }
            }),
    {
        let cs = self.children_of(id);
        let mut i: usize = 0;
        while i < cs.len()
            invariant
                cs@ == children_of_spec(self@, id),
                i <= cs.len(),
                forall|j: int| 0 <= j < i ==> !has_key(self@, #[trigger] cs@[j], key@),
            decreases cs.len() - i,
        {
            let c = cs[i];
            let hit = match self.index_of(c) {
                Some(k) => match &self.slots[k] {
                    Some(e) => match &e.key {
                        Some(s) => crate::text::text_eq(s.as_str(), key),
                        None => false,
                    },
                    None => false,
                },
                None => false,
            };
            if hit {
                return Some(c);
            }
            i = i + 1;
        }
        None
    }

    /// The path from the outermost ancestor down to `tgt`, following parent
    /// links. The walk takes at most one step per slot, which a tree without
    /// parent cycles never reaches.
    pub fn path_to(&self, tgt: ElementId) -> (r: Vec<ElementId>)
        ensures
            r@.len() <= self@.slots.len(),
            live(self@, tgt) <==> r@.len() > 0,
            r@.len() > 0 ==> r@.last() == tgt,
            forall|i: int| 0 <= i < r@.len() ==> live(self@, #[trigger] r@[i]),
            forall|i: int|
                0 < i < r@.len() ==> (#[trigger] node(self@, r@[i]))->0.parent == Some(r@[i - 1]),
            r@.len() > 0 && r@.len() < self@.slots.len() ==> match node(self@, r@[0])->0.parent {
                Some(p) => !live(self@, p),
                None => true,
            },
    {
        let mut up: Vec<ElementId> = Vec::new();
        let mut c = tgt;
        let mut going = self.contains(c);
        while going && up.len() < self.slots.len()
            invariant
                up@.len() <= self@.slots.len(),
                going ==> live(self@, c),
                !going ==> (up@.len() == 0 <==> !live(self@, tgt)),
                up@.len() == 0 ==> c == tgt,
                up@.len() > 0 ==> up@[0] == tgt,
                forall|i: int| 0 <= i < up@.len() ==> live(self@, #[trigger] up@[i]),
                forall|i: int|
                    0 < i < up@.len() ==> (#[trigger] node(self@, up@[i - 1]))->0.parent == Some(up@[i]),
                going && up@.len() > 0 ==> node(self@, up@.last())->0.parent == Some(c),
                !going && up@.len() > 0 ==> match node(self@, up@.last())->0.parent {
                    Some(p) => !live(self@, p),
                    None => true,
                },
            decreases self.slots.len() - up.len(),
        {
            up.push(c);
            match self.parent_of(c) {
                Some(p) => {
                    if self.contains(p) {
                        c = p;
                    } else {
                        going = false;
                    }
                },
                None => {
                    going = false;
                },
            }
        }
        let mut r: Vec<ElementId> = Vec::new();
        let mut k: usize = up.len();
        while k > 0
            invariant
                k <= up.len(),
                r@.len() == up@.len() - k,
                forall|i: int| 0 <= i < r@.len() ==> #[trigger] r@[i] == up@[up@.len() - 1 - i],
            decreases k,
        {
            r.push(up[k - 1]);
            k = k - 1;
        }
        proof {
            assert forall|i: int| 0 < i < r@.len() implies (#[trigger] node(self@, r@[i]))->0.parent
                == Some(r@[i - 1]) by {
                let a = up@.len() - 1 - i;
                assert(r@[i] == up@[a]);
                assert(r@[i - 1] == up@[a + 1]);
                assert(node(self@, up@[a + 1 - 1])->0.parent == Some(up@[a + 1]));
            }
            if r@.len() > 0 {
                assert(r@.last() == up@[0]);
                assert(r@[0] == up@.last());
            }
        }
        r
    }
}

/// The element `x` once `id` has left the child list of its parent.
pub open spec fn detached_node(t: TreeModel, id: ElementId, x: ElementId) -> Option<EntryView> {
    let op = match node(t, id) {
        Some(v) => v.parent,
        None => None,
    };
    if op == Some(x) {
        match node(t, x) {
            Some(v) => Some(EntryView { children: without(v.children, id), ..v }),
            None => None,
        }
    } else {
        node(t, x)
    }
}

/// The children of `p` once `id` has left the child list of its parent.
pub open spec fn detached_children(t: TreeModel, id: ElementId, p: ElementId) -> Seq<ElementId> {
    match detached_node(t, id, p) {
        Some(v) => v.children,
        None => Seq::empty(),
    }
}

/// `x` was alive in `a` and is gone in `b`.
pub open spec fn gone(a: TreeModel, b: TreeModel, x: ElementId) -> bool {
    live(a, x) && !live(b, x)
}

proof fn lemma_live_count_clear(s: Seq<Option<ElementEntry>>, k: int, n: int)
    requires
        0 <= k < s.len(),
        0 <= n <= s.len(),
        s[k] is Some,
    ensures
        live_count(s.update(k, None), n) + (if k < n {
            1nat
        } else {
            0nat
        }) == live_count(s, n),
    decreases n,
{
    if n > 0 {
        lemma_live_count_clear(s, k, n - 1);
    }
}

/// `f` is `o` after removing `id` (nothing changes when `id` is not alive):
/// `id` leaves its parent's child list and the root; it and everything
/// reachable from it through child links is gone; nothing else is touched.
pub open spec fn removal_done(o: TreeModel, id: ElementId, f: TreeModel) -> bool {
    &&& !live(o, id) ==> f == o
    &&& live(o, id) ==> {
        &&& f.slots.len() == o.slots.len()
        &&& f.root == (if o.root == Some(id) {
            None
        } else {
            o.root
        })
        &&& !live(f, id)
        &&& forall|x: ElementId| live(f, x) ==> #[trigger] node(f, x) == detached_node(o, id, x)
        &&& forall|p: ElementId, c: ElementId|
            gone(o, f, p) && #[trigger] detached_children(o, id, p).contains(c) ==> !live(f, c)
        &&& forall|x: ElementId|
            #[trigger] gone(o, f, x) && x != id ==> exists|p: ElementId|
                gone(o, f, p) && #[trigger] detached_children(o, id, p).contains(x)
    }
}

/// `x` is the element being removed or a child of an element already gone.
pub open spec fn justified(d: TreeModel, cur: TreeModel, x: ElementId, id: ElementId) -> bool {
    x == id || exists|p: ElementId| gone(d, cur, p) && #[trigger] children_of_spec(d, p).contains(x)
}

/// What holds at each step of the removal walk over the detached tree `d`.
pub open spec fn removal_inv(d: TreeModel, cur: TreeModel, work: Seq<ElementId>, id: ElementId) -> bool {
    &&& cur.slots.len() == d.slots.len()
    &&& cur.root == d.root
    &&& live(d, id)
    &&& forall|x: ElementId| live(cur, x) ==> #[trigger] node(cur, x) == node(d, x)
    &&& forall|k: int| 0 <= k < work.len() ==> justified(d, cur, #[trigger] work[k], id)
    &&& forall|x: ElementId| #[trigger] gone(d, cur, x) ==> justified(d, cur, x, id)
    &&& forall|p: ElementId, c: ElementId|
        gone(d, cur, p) && #[trigger] children_of_spec(d, p).contains(c) ==> !live(cur, c)
            || work.contains(c)
    &&& live(cur, id) ==> work.contains(id)
}

proof fn lemma_pop_contains(wb: Seq<ElementId>, c: ElementId)
    requires
        wb.len() > 0,
        wb.contains(c),
        c != wb.last(),
    ensures
        wb.drop_last().contains(c),
{
    let k = choose|k: int| 0 <= k < wb.len() && wb[k] == c;
    assert(wb.drop_last()[k] == c);
}

proof fn lemma_step_dead(d: TreeModel, cur: TreeModel, wb: Seq<ElementId>, id: ElementId)
    requires
        removal_inv(d, cur, wb, id),
        wb.len() > 0,
        !live(cur, wb.last()),
    ensures
        removal_inv(d, cur, wb.drop_last(), id),
{
    let w = wb.drop_last();
    assert forall|k: int| 0 <= k < w.len() implies justified(d, cur, #[trigger] w[k], id) by {
        assert(w[k] == wb[k]);
    }
    assert forall|p: ElementId, c: ElementId|
        gone(d, cur, p) && #[trigger] children_of_spec(d, p).contains(c) implies !live(cur, c)
        || w.contains(c) by {
        if live(cur, c) {
            lemma_pop_contains(wb, c);
        }
    }
    if live(cur, id) {
        lemma_pop_contains(wb, id);
    }
}

proof fn lemma_step_live(
    d: TreeModel,
    cur: TreeModel,
    next: TreeModel,
    wb: Seq<ElementId>,
    id: ElementId,
)
    requires
        removal_inv(d, cur, wb, id),
        wb.len() > 0,
        live(cur, wb.last()),
        next.slots == cur.slots.update(wb.last().0 as int, None),
        next.root == cur.root,
    ensures
        removal_inv(d, next, wb.drop_last() + children_of_spec(d, wb.last()), id),
{
    let x = wb.last();
    let base = wb.drop_last();
    let kids = children_of_spec(d, x);
    let w = base + kids;
    assert forall|y: ElementId| y != x implies #[trigger] node(next, y) == node(cur, y) by {
        if y.0 < next.slots.len() {
            assert(y.0 != x.0);
        }
    }
    assert(!live(next, x));
    assert(node(cur, x) == node(d, x));
    assert forall|y: ElementId| #[trigger] gone(d, cur, y) implies gone(d, next, y) by {
        if y != x {
            assert(node(next, y) == node(cur, y));
        }
    }
    assert(gone(d, next, x));
    assert forall|y: ElementId| justified(d, cur, y, id) implies justified(d, next, y, id) by {
        if y != id {
            let p = choose|p: ElementId| gone(d, cur, p) && #[trigger] children_of_spec(d, p).contains(y);
            assert(gone(d, next, p));
        }
    }
    assert forall|y: ElementId| live(next, y) implies #[trigger] node(next, y) == node(d, y) by {
        assert(node(next, y) == node(cur, y));
    }
    assert forall|k: int| 0 <= k < w.len() implies justified(d, next, #[trigger] w[k], id) by {
        if k < base.len() {
            assert(w[k] == wb[k]);
            assert(justified(d, cur, wb[k], id));
        } else {
            assert(w[k] == kids[k - base.len()]);
            assert(kids.contains(w[k]));
        }
    }
    assert(justified(d, cur, x, id)) by {
        assert(wb[wb.len() - 1] == x);
    }
    assert forall|y: ElementId| #[trigger] gone(d, next, y) implies justified(d, next, y, id) by {
        if y != x {
            assert(node(next, y) == node(cur, y));
            assert(gone(d, cur, y));
            assert(justified(d, cur, y, id));
        }
    }
    assert forall|c: ElementId| base.contains(c) implies w.contains(c) by {
        let k = choose|k: int| 0 <= k < base.len() && base[k] == c;
        assert(w[k] == c);
    }
    assert forall|c: ElementId| kids.contains(c) implies w.contains(c) by {
        let k = choose|k: int| 0 <= k < kids.len() && kids[k] == c;
        assert(w[base.len() + k] == c);
    }
    assert forall|p: ElementId, c: ElementId|
        gone(d, next, p) && #[trigger] children_of_spec(d, p).contains(c) implies !live(next, c)
        || w.contains(c) by {
        if p != x && live(next, c) {
            assert(node(next, p) == node(cur, p));
            assert(gone(d, cur, p));
            assert(node(next, c) == node(cur, c));
            assert(live(cur, c));
            lemma_pop_contains(wb, c);
        }
    }
    if live(next, id) {
        assert(node(next, id) == node(cur, id));
        lemma_pop_contains(wb, id);
    }
}

impl ElementTree {
    /// Removes the element `id` with every element reachable from it through
    /// child links, after taking it out of its parent's child list. Returns
    /// whether `id` was alive.
    pub fn remove(&mut self, id: ElementId) -> (found: bool)
        ensures
            found == live(old(self)@, id),
            removal_done(old(self)@, id, final(self)@),
    {
        if self.index_of(id).is_none() {
            return false;
        }
        let op = self.parent_of(id);
        if let Some(p) = op {
            self.drop_from_children(p, id);
        }
        proof {
            assert forall|x: ElementId| #[trigger] node(self@, x) == detached_node(old(self)@, id, x) by {
                if op != Some(x) {
                    assert(node(self@, x) == node(old(self)@, x));
                }
            }
        }
        let ghost pre = self@;
        if self.root == Some(id) {
            self.root = None;
        }
        let ghost d = self@;
        assert(d.slots == pre.slots);
        assert forall|x: ElementId| #[trigger] node(d, x) == detached_node(old(self)@, id, x) by {
            assert(node(d, x) == node(pre, x));
        }
        assert(live(d, id)) by {
            assert(node(d, id) == detached_node(old(self)@, id, id));
        }
        let mut work: Vec<ElementId> = Vec::new();
        work.push(id);
        assert(work@[0] == id);
        assert(removal_inv(d, self@, work@, id));
        while work.len() > 0
            invariant
                removal_inv(d, self@, work@, id),
            decreases live_count(self@.slots, self@.slots.len() as int), work@.len(),
        {
            let ghost before = self@;
            let ghost wb = work@;
            let x = work.pop().unwrap();
            if let Some(i) = self.index_of(x) {
                let ghost old_slot = before.slots[i as int];
                let mut taken: Option<ElementEntry> = None;
                std::mem::swap(&mut taken, &mut self.slots[i]);
                proof {
                    assert(taken == old_slot);
                    assert(self@.slots == before.slots.update(i as int, None));
                    lemma_live_count_clear(before.slots, i as int, before.slots.len() as int);
                    assert(node(before, x) == node(d, x));
                }
                let ghost base = work@;
                let ghost kids = children_of_spec(d, x);
                match taken {
                    Some(e) => {
                        assert(e.children@ == kids);
                        let mut j: usize = 0;
                        while j < e.children.len()
                            invariant
                                j <= e.children.len(),
                                e.children@ == kids,
                                work@ =~= base + kids.subrange(0, j as int),
                            decreases e.children.len() - j,
                        {
                            work.push(e.children[j]);
                            j = j + 1;
                        }
                        assert(work@ =~= base + kids);
                    },
                    None => {},
                }
                proof {
                    lemma_step_live(d, before, self@, wb, id);
                }
            } else {
                proof {
                    lemma_step_dead(d, self@, wb, id);
                }
            }
        }
        proof {
            let o = old(self)@;
            let f = self@;
            assert forall|x: ElementId| live(d, x) == live(o, x) by {
                assert(node(d, x) == detached_node(o, id, x));
            }
            assert forall|p: ElementId| #[trigger] detached_children(o, id, p) == children_of_spec(d, p) by {
                assert(node(d, p) == detached_node(o, id, p));
            }
            assert forall|x: ElementId| #[trigger] gone(o, f, x) == gone(d, f, x) by {
                assert(node(d, x) == detached_node(o, id, x));
            }
            assert forall|x: ElementId| #[trigger] gone(o, f, x) && x != id implies exists|p: ElementId|
                gone(o, f, p) && #[trigger] detached_children(o, id, p).contains(x) by {
                assert(gone(d, f, x));
                assert(justified(d, f, x, id));
                let p = choose|p: ElementId| gone(d, f, p) && #[trigger] children_of_spec(d, p).contains(x);
                assert(gone(o, f, p));
                assert(detached_children(o, id, p) == children_of_spec(d, p));
            }
            assert forall|p: ElementId, c: ElementId|
                gone(o, f, p) && #[trigger] detached_children(o, id, p).contains(c) implies !live(f, c) by {
                assert(gone(d, f, p));
                assert(detached_children(o, id, p) == children_of_spec(d, p));
            }
        }
        true
    }
}

} // verus!
