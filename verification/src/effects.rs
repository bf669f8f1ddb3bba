//! Event propagation control and the side effects an event handler requests.

use vstd::prelude::*;

verus! {

/// Identifier of a runtime element (the numeric form of its arena key).
#[derive(Debug, Clone, Copy, PartialEq, Eq, Hash, Structural)]
pub struct ElementId(pub u64);

impl ElementId {
    /// The numeric value of the id (for logging and rendering bookkeeping).
    pub fn as_ffi(&self) -> (r: u64)
        ensures
            r == self.0,
    {
        self.0
    }
}

/// Result of a hit test: the innermost target and the root-to-target path.
#[derive(Debug)]
pub struct HitTestResult {
    pub target: ElementId,
    pub path: Vec<ElementId>,
}

/// Phase in which an event is delivered to a node.
#[derive(Debug, Clone, Copy, PartialEq, Eq, Structural)]
pub enum EventPhase {
    Target,
    Capture,
    Bubble,
}

impl Default for EventPhase {
    fn default() -> (r: Self)
        ensures
            r == EventPhase::Target,
    {
        EventPhase::Target
    }
}

/// Whether propagation continues.
#[derive(Debug, Clone, Copy, PartialEq, Eq, Structural)]
pub enum Propagation {
    Continue,
    Stop,
}

impl Default for Propagation {
    fn default() -> (r: Self)
        ensures
            r == Propagation::Continue,
    {
        Propagation::Continue
    }
}

/// Side effects requested while handling an event.
#[derive(Debug, Clone, Copy, PartialEq, Eq, Structural)]
pub struct EventEffects {
    needs_rebuild: bool,
    needs_layout: bool,
    needs_render: bool,
    propagation_stopped: bool,
}

/// The mathematical content of an `EventEffects`: four independent requests.
pub struct EffectsModel {
    pub rebuild: bool,
    pub layout: bool,
    pub render: bool,
    pub stopped: bool,
}

impl View for EventEffects {
    type V = EffectsModel;

    closed spec fn view(&self) -> EffectsModel {
        EffectsModel {
            rebuild: self.needs_rebuild,
            layout: self.needs_layout,
            render: self.needs_render,
            stopped: self.propagation_stopped,
        }
    }
}

/// Flag-wise disjunction of two effect sets.
pub open spec fn merged(a: EffectsModel, b: EffectsModel) -> EffectsModel {
    EffectsModel {
        rebuild: a.rebuild || b.rebuild,
        layout: a.layout || b.layout,
        render: a.render || b.render,
        stopped: a.stopped || b.stopped,
    }
}

/// The effect set with every request cleared.
pub open spec fn no_effects() -> EffectsModel {
    EffectsModel { rebuild: false, layout: false, render: false, stopped: false }
}

impl Default for EventEffects {
    fn default() -> (r: Self)
        ensures
            r@ == no_effects(),
    {
        EventEffects {
            needs_rebuild: false,
            needs_layout: false,
            needs_render: false,
            propagation_stopped: false,
        }
    }
}

impl EventEffects {
    pub fn needs_rebuild(&self) -> (r: bool)
        ensures
            r == self@.rebuild,
    {
        self.needs_rebuild
    }

    pub fn needs_layout(&self) -> (r: bool)
        ensures
            r == self@.layout,
    {
        self.needs_layout
    }

    pub fn needs_render(&self) -> (r: bool)
        ensures
            r == self@.render,
    {
        self.needs_render
    }

    pub fn propagation_stopped(&self) -> (r: bool)
        ensures
            r == self@.stopped,
    {
        self.propagation_stopped
    }

    pub fn request_rebuild(&mut self)
        ensures
            final(self)@ == (EffectsModel { rebuild: true, ..old(self)@ }),
    {
        self.needs_rebuild = true;
    }

    pub fn request_layout(&mut self)
        ensures
            final(self)@ == (EffectsModel { layout: true, ..old(self)@ }),
    {
        self.needs_layout = true;
    }

    pub fn request_render(&mut self)
        ensures
            final(self)@ == (EffectsModel { render: true, ..old(self)@ }),
    {
        self.needs_render = true;
    }

    pub fn stop_propagation(&mut self)
        ensures
            final(self)@ == (EffectsModel { stopped: true, ..old(self)@ }),
    {
        self.propagation_stopped = true;
    }

    /// Accumulates `other` into `self`: every flag becomes the disjunction.
    pub fn merge(&mut self, other: &EventEffects)
        ensures
            final(self)@ == merged(old(self)@, other@),
    {
        self.needs_rebuild = self.needs_rebuild || other.needs_rebuild;
        self.needs_layout = self.needs_layout || other.needs_layout;
        self.needs_render = self.needs_render || other.needs_render;
        self.propagation_stopped = self.propagation_stopped || other.propagation_stopped;
    }
}

/// Merging is commutative, associative and idempotent, and the cleared value
/// is its identity: effects accumulate as a set of requests, independent of
/// the order in which handlers ran.
pub proof fn lemma_merge_laws(a: EffectsModel, b: EffectsModel, c: EffectsModel)
    ensures
        merged(a, b) == merged(b, a),
        merged(merged(a, b), c) == merged(a, merged(b, c)),
        merged(a, a) == a,
        merged(a, no_effects()) == a,
        merged(no_effects(), a) == a,
{
}

/// Once requested, a flag survives any later merge.
pub proof fn lemma_merge_keeps_requests(a: EffectsModel, b: EffectsModel)
    ensures
        a.rebuild ==> merged(a, b).rebuild,
        a.layout ==> merged(a, b).layout,
        a.render ==> merged(a, b).render,
        a.stopped ==> merged(a, b).stopped,
{
}

} // verus!
