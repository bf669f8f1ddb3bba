//! Interaction state used when painting: a node that is interactive (has a
//! listener or declares hover/pressed styling) is drawn with its own state;
//! any other node follows its nearest interactive ancestor, so the inner
//! parts of a button change together with it.

use vstd::prelude::*;
use crate::tree::ElementState;

verus! {

/// No interaction.
pub open spec fn idle_state() -> ElementState {
    ElementState { hovered: false, pressed: false, focused: false }
}

/// One step down the tree: the state a node is drawn with and the state
/// handed to its children, given whether it is interactive, its own state,
/// and what its parent handed down.
pub open spec fn state_step(interactive: bool, own: ElementState, handed: Option<ElementState>) -> (
    ElementState,
    Option<ElementState>,
) {
    if interactive {
        (own, Some(own))
    } else {
        (
            match handed {
                Some(s) => s,
                None => idle_state(),
            },
            handed,
        )
    }
}

/// The state a node draws with, given whether it is interactive, its own
/// state and the state handed down by its parent; also returns the state to
/// hand to its children.
pub fn inherited_state(interactive: bool, own: ElementState, handed: Option<ElementState>) -> (r: (
    ElementState,
    Option<ElementState>,
))
    ensures
        r == state_step(interactive, own, handed),
{
    if interactive {
        (own, Some(own))
    } else {
        let drawn = match handed {
            Some(s) => s,
            None => ElementState::default(),
        };
        (drawn, handed)
    }
}

/// What is handed down below the last node of a root-to-node path of
/// `(interactive, own state)` pairs.
pub open spec fn handed_along(path: Seq<(bool, ElementState)>) -> Option<ElementState>
    decreases path.len(),
{
    if path.len() == 0 {
        None
    } else {
        state_step(path.last().0, path.last().1, handed_along(path.drop_last())).1
    }
}

/// The state the last node of a non-empty root-to-node path draws with.
pub open spec fn drawn_along(path: Seq<(bool, ElementState)>) -> ElementState
    recommends
        path.len() > 0,
{
    state_step(path.last().0, path.last().1, handed_along(path.drop_last())).0
}

/// Index of the last interactive node of the path, if any.
pub open spec fn last_interactive(path: Seq<(bool, ElementState)>) -> Option<int>
    decreases path.len(),
{
    if path.len() == 0 {
        None
    } else if path.last().0 {
        Some(path.len() - 1)
    } else {
        last_interactive(path.drop_last())
    }
}

proof fn lemma_handed_is_nearest(path: Seq<(bool, ElementState)>)
    ensures
        handed_along(path) == match last_interactive(path) {
            Some(i) => Some(path[i].1),
            None => None::<ElementState>,
        },
        last_interactive(path) matches Some(i) ==> 0 <= i < path.len() && path[i].0 && forall|j: int|
            i < j < path.len() ==> !(#[trigger] path[j]).0,
        last_interactive(path) is None ==> forall|j: int| 0 <= j < path.len() ==> !(#[trigger] path[j]).0,
    decreases path.len(),
{
    if path.len() > 0 {
        let init = path.drop_last();
        lemma_handed_is_nearest(init);
        assert forall|j: int| 0 <= j < init.len() implies init[j] == path[j] by {}
    }
}

/// A node draws with the state of its nearest interactive ancestor-or-self
/// on its path from the root, and with no interaction when there is none.
pub proof fn lemma_drawn_state_is_nearest_interactive(path: Seq<(bool, ElementState)>)
    requires
        path.len() > 0,
    ensures
        drawn_along(path) == match last_interactive(path) {
            Some(i) => path[i].1,
            None => idle_state(),
        },
        last_interactive(path) matches Some(i) ==> 0 <= i < path.len() && path[i].0 && forall|j: int|
            i < j < path.len() ==> !(#[trigger] path[j]).0,
        last_interactive(path) is None ==> forall|j: int| 0 <= j < path.len() ==> !(#[trigger] path[j]).0,
{
    lemma_handed_is_nearest(path);
    lemma_handed_is_nearest(path.drop_last());
    assert forall|j: int| 0 <= j < path.len() - 1 implies path.drop_last()[j] == path[j] by {}
}

/// Text colour for a drawing state: the pressed colour while pressed (the
/// normal one when none is set), else the hover colour while hovered (the
/// normal one when none is set), else the normal colour.
pub fn state_color<T: Copy>(state: ElementState, color: T, hover: Option<T>, pressed: Option<T>) -> (r: T)
    ensures
        r == if state.pressed {
            match pressed {
                Some(c) => c,
                None => color,
            }
        } else if state.hovered {
            match hover {
                Some(c) => c,
                None => color,
            }
        } else {
            color
        },
{
    if state.pressed {
        match pressed {
            Some(c) => c,
            None => color,
        }
    } else if state.hovered {
        match hover {
            Some(c) => c,
            None => color,
        }
    } else {
        color
    }
}

/// Background for a drawing state: the pressed background when pressed and
/// one is set, else the hover background when hovered and one is set, else
/// the normal background.
pub fn state_background<T: Copy>(
    state: ElementState,
    background: Option<T>,
    hover: Option<T>,
    pressed: Option<T>,
) -> (r: Option<T>)
    ensures
        r == if state.pressed && pressed.is_some() {
            pressed
        } else if state.hovered && hover.is_some() {
            hover
        } else {
            background
        },
{
    if state.pressed && pressed.is_some() {
        pressed
    } else if state.hovered && hover.is_some() {
        hover
    } else {
        background
    }
}

} // verus!
