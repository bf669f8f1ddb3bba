//! Per-window frame decisions: closing, resizing and which redraw path a
//! redraw request takes.

use vstd::prelude::*;

verus! {

/// Answer of a close guard: whether the window may close now.
#[derive(Debug, Clone, Copy, PartialEq, Eq, Structural)]
pub enum CloseAction {
    /// Close the window right away.
    Allow,
    /// Keep the window open; the application handles the rest.
    Cancel,
}

impl CloseAction {
    /// Whether the window closes.
    pub fn allows_close(&self) -> (r: bool)
        ensures
            r == (*self == CloseAction::Allow),
    {
        match self {
            CloseAction::Allow => true,
            CloseAction::Cancel => false,
        }
    }
}

/// Whether a close request closes the window: without a guard it does,
/// otherwise the guard's answer decides.
pub fn close_allowed(guard_answer: Option<CloseAction>) -> (r: bool)
    ensures
        r == (guard_answer is None || guard_answer == Some(CloseAction::Allow)),
{
    match guard_answer {
        Some(a) => a.allows_close(),
        None => true,
    }
}

/// Whether a reported window size requires resizing the render targets: it
/// must be non-empty and differ from the current size.
pub fn needs_resize(width: u32, height: u32, current: (u32, u32)) -> (r: bool)
    ensures
        r == (width > 0 && height > 0 && (width != current.0 || height != current.1)),
{
    width > 0 && height > 0 && (width != current.0 || height != current.1)
}

/// How a redraw request is served.
#[derive(Debug, Clone, Copy, PartialEq, Eq, Structural)]
pub enum RedrawPath {
    /// Run the builder, reconcile, lay out and render.
    Full,
    /// Only render the visuals again (for example after a shared surface
    /// changed).
    VisualsOnly,
}

/// The redraw path: a full frame before the first render, without a
/// surface, after a rebuild request or when the viewport no longer matches
/// the window; the visuals only otherwise.
pub fn redraw_path(
    rendered_once: bool,
    has_surface: bool,
    rebuild_requested: bool,
    size_mismatch: bool,
) -> (r: RedrawPath)
    ensures
        r == (if !rendered_once || !has_surface || rebuild_requested || size_mismatch {
            RedrawPath::Full
        } else {
            RedrawPath::VisualsOnly
        }),
{
    if !rendered_once || !has_surface || rebuild_requested || size_mismatch {
        RedrawPath::Full
    } else {
        RedrawPath::VisualsOnly
    }
}

/// Identifier of a shared pixel surface.
#[derive(Debug, Clone, Copy, PartialEq, Eq, Hash, Structural)]
pub struct SurfaceId(pub u64);

} // verus!
