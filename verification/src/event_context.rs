//! The context handed to event handlers: phase, requested effects,
//! propagation, and the capture and drag requests that the event manager
//! collects after dispatch.
//!
//! The event value and the layout rectangle of the current node carry
//! floating-point coordinates and travel beside this context, as does the
//! distance threshold of a drag request.

use vstd::prelude::*;
use crate::effects::{ElementId, EventPhase, Propagation, EventEffects, EffectsModel, no_effects};

verus! {

/// Event handling context.
pub struct EventContext {
    target_id: Option<ElementId>,
    phase: EventPhase,
    effects: EventEffects,
    propagation: Propagation,
    current_id: Option<ElementId>,
    capture_request: Option<ElementId>,
    drag_request: Option<ElementId>,
}

/// The context as plain values.
pub struct ContextModel {
    pub target: Option<ElementId>,
    pub phase: EventPhase,
    pub effects: EffectsModel,
    pub stopped: bool,
    /// Node whose callback runs now.
    pub current: Option<ElementId>,
    /// Node that asked to capture the mouse.
    pub capture_request: Option<ElementId>,
    /// Node that asked to track a drag.
    pub drag_request: Option<ElementId>,
}

impl View for EventContext {
    type V = ContextModel;

    closed spec fn view(&self) -> ContextModel {
        ContextModel {
            target: self.target_id,
            phase: self.phase,
            effects: self.effects@,
            stopped: self.propagation == Propagation::Stop,
            current: self.current_id,
            capture_request: self.capture_request,
            drag_request: self.drag_request,
        }
    }
}

/// A fresh context aimed at `target`, in the target phase.
pub open spec fn fresh_context(target: Option<ElementId>) -> ContextModel {
    ContextModel {
        target,
        phase: EventPhase::Target,
        effects: no_effects(),
        stopped: false,
        current: None,
        capture_request: None,
        drag_request: None,
    }
}

impl EventContext {
    pub fn new() -> (r: Self)
        ensures
            r@ == fresh_context(None),
    {
        EventContext {
            target_id: None,
            phase: EventPhase::Target,
            effects: EventEffects::default(),
            propagation: Propagation::Continue,
            current_id: None,
            capture_request: None,
            drag_request: None,
        }
    }

    pub fn with_target(target: ElementId) -> (r: Self)
        ensures
            r@ == fresh_context(Some(target)),
    {
        EventContext {
            target_id: Some(target),
            phase: EventPhase::Target,
            effects: EventEffects::default(),
            propagation: Propagation::Continue,
            current_id: None,
            capture_request: None,
            drag_request: None,
        }
    }

    pub fn phase(&self) -> (r: EventPhase)
        ensures
            r == self@.phase,
    {
        self.phase
    }

    pub fn set_phase(&mut self, phase: EventPhase)
        ensures
            final(self)@ == (ContextModel { phase, ..old(self)@ }),
    {
        self.phase = phase;
    }

    pub fn request_rebuild(&mut self)
        ensures
            final(self)@ == (ContextModel {
                effects: EffectsModel { rebuild: true, ..old(self)@.effects },
                ..old(self)@
            }),
    {
        self.effects.request_rebuild();
    }

    pub fn request_layout(&mut self)
        ensures
            final(self)@ == (ContextModel {
                effects: EffectsModel { layout: true, ..old(self)@.effects },
                ..old(self)@
            }),
    {
        self.effects.request_layout();
    }

    pub fn request_render(&mut self)
        ensures
            final(self)@ == (ContextModel {
                effects: EffectsModel { render: true, ..old(self)@.effects },
                ..old(self)@
            }),
    {
        self.effects.request_render();
    }

    /// Takes the collected effects, leaving none.
    pub fn take_effects(&mut self) -> (r: EventEffects)
        ensures
            r@ == old(self)@.effects,
            final(self)@ == (ContextModel { effects: no_effects(), ..old(self)@ }),
    {
        let mut out = EventEffects::default();
        std::mem::swap(&mut out, &mut self.effects);
        out
    }

    pub fn stop_propagation(&mut self)
        ensures
            final(self)@ == (ContextModel { stopped: true, ..old(self)@ }),
    {
        self.propagation = Propagation::Stop;
    }

    pub fn is_stopped(&self) -> (r: bool)
        ensures
            r == self@.stopped,
    {
        match self.propagation {
            Propagation::Stop => true,
            Propagation::Continue => false,
        }
    }

    pub fn target(&self) -> (r: Option<ElementId>)
        ensures
            r == self@.target,
    {
        self.target_id
    }

    /// Records the node whose callback runs next.
    pub fn set_current(&mut self, id: ElementId)
        ensures
            final(self)@ == (ContextModel { current: Some(id), ..old(self)@ }),
    {
        self.current_id = Some(id);
    }

    /// Asks that later moves and the release go to the current node.
    pub fn capture_mouse(&mut self)
        ensures
            final(self)@ == (ContextModel { capture_request: old(self)@.current, ..old(self)@ }),
    {
        self.capture_request = self.current_id;
    }

    pub fn take_capture_request(&mut self) -> (r: Option<ElementId>)
        ensures
            r == old(self)@.capture_request,
            final(self)@ == (ContextModel { capture_request: None, ..old(self)@ }),
    {
        let r = self.capture_request;
        self.capture_request = None;
        r
    }

    /// Asks for drag tracking by the current node (nothing without one).
    /// Returns whether the request was recorded.
    pub fn begin_drag(&mut self) -> (recorded: bool)
        ensures
            recorded == old(self)@.current is Some,
            final(self)@ == (ContextModel {
                drag_request: if recorded {
                    old(self)@.current
                } else {
                    old(self)@.drag_request
                },
                ..old(self)@
            }),
    {
        match self.current_id {
            Some(id) => {
                self.drag_request = Some(id);
                true
            },
            None => false,
        }
    }

    pub fn take_drag_request(&mut self) -> (r: Option<ElementId>)
        ensures
            r == old(self)@.drag_request,
            final(self)@ == (ContextModel { drag_request: None, ..old(self)@ }),
    {
        let r = self.drag_request;
        self.drag_request = None;
        r
    }
}

} // verus!
