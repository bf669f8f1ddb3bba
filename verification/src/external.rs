//! Events injected into the UI from other threads, and the wake-up of the
//! event loop that makes the UI thread poll for them.

use vstd::prelude::*;
use winit::event_loop::EventLoopProxy;
use crate::signals::Request;

verus! {

#[verifier::external_type_specification]
#[verifier::external_body]
#[verifier::reject_recursive_types(T)]
pub struct ExEventLoopProxy<T: 'static>(EventLoopProxy<T>);

/// An event delivered to the UI thread by an outside source.
pub enum ExternalEvent<D> {
    /// Rebuild the widget tree.
    Rebuild,
    /// Redraw only (no rebuild).
    Redraw,
    /// Data for a handler registered by the application.
    Data(D),
}

impl<D> ExternalEvent<D> {
    /// Whether the event asks for a redraw (a rebuild counts as one).
    pub fn needs_redraw(&self) -> (r: bool)
        ensures
            r == (self is Rebuild || self is Redraw),
    {
        match self {
            ExternalEvent::Rebuild => true,
            ExternalEvent::Redraw => true,
            ExternalEvent::Data(_) => false,
        }
    }
}

/// The request that a polled batch of external events makes: a rebuild when
/// any event asked for one, else a redraw when any asked for one. Data events
/// request nothing by themselves.
pub fn batch_request(saw_rebuild: bool, saw_redraw: bool) -> (r: Option<Request>)
    ensures
        r == (if saw_rebuild {
            Some(Request::Rebuild)
        } else if saw_redraw {
            Some(Request::Redraw)
        } else {
            None
        }),
{
    if saw_rebuild {
        Some(Request::Rebuild)
    } else if saw_redraw {
        Some(Request::Redraw)
    } else {
        None
    }
}

/// Calls `winit::event_loop::EventLoopProxy::send_event` with a unit event.
/// The result tells whether the event loop still existed; it depends on the
/// loop's state, so nothing is stated of it.
#[verifier::external_body]
fn send_wake(proxy: &EventLoopProxy<()>) -> (delivered: bool) {
    proxy.send_event(()).is_ok()
}

/// Wakes the event loop through its proxy so that the UI thread polls the
/// outside sources. Before a proxy is registered this does nothing. Returns
/// whether a wake-up was delivered.
pub fn wake(proxy: Option<&EventLoopProxy<()>>) -> (delivered: bool)
    ensures
        proxy is None ==> !delivered,
{
    match proxy {
        Some(p) => send_wake(p),
        None => false,
    }
}

} // verus!
