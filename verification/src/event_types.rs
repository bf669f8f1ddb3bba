//! Event kinds, buttons, keys and modifiers shared by the dispatch logic.

use vstd::prelude::*;

verus! {

/// Category of an event, used to match listeners.
#[derive(Debug, Clone, Copy, PartialEq, Eq, Hash, Structural)]
pub enum EventType {
    MouseMove,
    MouseDown,
    MouseUp,
    MouseEnter,
    MouseLeave,
    Click,
    MouseWheel,
    DragStart,
    DragMove,
    DragEnd,
    KeyDown,
    KeyUp,
    FocusIn,
    FocusOut,
    ImePreedit,
    ImeCommit,
    ImeDisabled,
}

/// Kinds of listener that make a node take keyboard focus.
pub open spec fn spec_is_focus_kind(t: EventType) -> bool {
    t == EventType::FocusIn || spec_is_ime_kind(t)
}

/// Kinds of listener that receive input-method text.
pub open spec fn spec_is_ime_kind(t: EventType) -> bool {
    t == EventType::ImePreedit || t == EventType::ImeCommit || t == EventType::ImeDisabled
}

impl EventType {
    /// Whether a listener of this kind makes its node focusable.
    pub fn is_focus_kind(&self) -> (r: bool)
        ensures
            r == spec_is_focus_kind(*self),
    {
        match self {
            EventType::FocusIn | EventType::ImePreedit | EventType::ImeCommit
            | EventType::ImeDisabled => true,
            _ => false,
        }
    }

    /// Whether a listener of this kind receives input-method events.
    pub fn is_ime_kind(&self) -> (r: bool)
        ensures
            r == spec_is_ime_kind(*self),
    {
        match self {
            EventType::ImePreedit | EventType::ImeCommit | EventType::ImeDisabled => true,
            _ => false,
        }
    }
}

/// Whether any listener kind in `kinds` makes a node focusable.
pub open spec fn spec_any_focus_kind(kinds: Seq<EventType>) -> bool {
    exists|i: int| 0 <= i < kinds.len() && spec_is_focus_kind(#[trigger] kinds[i])
}

/// Whether any listener kind in `kinds` receives input-method events.
pub open spec fn spec_any_ime_kind(kinds: Seq<EventType>) -> bool {
    exists|i: int| 0 <= i < kinds.len() && spec_is_ime_kind(#[trigger] kinds[i])
}

/// Whether a node with these listener kinds is focusable (it listens for
/// `FocusIn` or for any input-method event).
pub fn has_focus_listener(kinds: &Vec<EventType>) -> (r: bool)
    ensures
        r == spec_any_focus_kind(kinds@),
{
    let mut i: usize = 0;
    while i < kinds.len()
        invariant
            i <= kinds.len(),
            forall|j: int| 0 <= j < i ==> !spec_is_focus_kind(#[trigger] kinds@[j]),
        decreases kinds.len() - i,
    {
        if kinds[i].is_focus_kind() {
            return true;
        }
        i = i + 1;
    }
    false
}

/// Whether a node with these listener kinds receives input-method events.
pub fn has_ime_listener(kinds: &Vec<EventType>) -> (r: bool)
    ensures
        r == spec_any_ime_kind(kinds@),
{
    let mut i: usize = 0;
    while i < kinds.len()
        invariant
            i <= kinds.len(),
            forall|j: int| 0 <= j < i ==> !spec_is_ime_kind(#[trigger] kinds@[j]),
        decreases kinds.len() - i,
    {
        if kinds[i].is_ime_kind() {
            return true;
        }
        i = i + 1;
    }
    false
}

/// A mouse button.
#[derive(Debug, Clone, Copy, PartialEq, Eq, Structural)]
pub enum MouseButton {
    Left,
    Right,
    Middle,
}

/// A logical key.
#[derive(Debug, Clone, Copy, PartialEq, Eq, Structural)]
pub enum Key {
    Character(char),
    Enter,
    Escape,
    Backspace,
    Delete,
    Tab,
    Space,
    Home,
    End,
    PageUp,
    PageDown,
    ArrowUp,
    ArrowDown,
    ArrowLeft,
    ArrowRight,
    Shift,
    Ctrl,
    Alt,
    Meta,
    Unknown,
}

/// Keyboard modifiers held during an event.
#[derive(Debug, Clone, Copy, PartialEq, Eq, Structural)]
pub struct Modifiers {
    pub shift: bool,
    pub ctrl: bool,
    pub alt: bool,
    pub meta: bool,
}

impl Default for Modifiers {
    fn default() -> (r: Self)
        ensures
            r == (Modifiers { shift: false, ctrl: false, alt: false, meta: false }),
    {
        Modifiers { shift: false, ctrl: false, alt: false, meta: false }
    }
}

/// Outcome of a handler: keep propagating or stop.
#[derive(Debug, Clone, Copy, PartialEq, Eq, Structural)]
pub enum EventResult {
    Continue,
    Stop,
}

impl EventResult {
    pub fn is_stopped(&self) -> (r: bool)
        ensures
            r <==> *self == EventResult::Stop,
    {
        match self {
            EventResult::Stop => true,
            EventResult::Continue => false,
        }
    }
}

} // verus!
