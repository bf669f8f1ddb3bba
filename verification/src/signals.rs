//! Per-window rebuild / redraw / close requests and the queue of layer
//! commands produced while building, consumed by the runtime at the next
//! frame.
//!
//! Requests are routed to the window currently being processed; with no
//! current window (a global timer tick, say) they go to every registered
//! window.

use vstd::prelude::*;
use crate::color::Color;
use crate::layers::{Anchor, FocusPolicy, LayerHandle, LayerKind, LayerOptions};
use std::collections::HashMap;
use crate::popup_tree::copy_list;
use crate::seqs::{lemma_push_contains, lemma_prefix_contains, lemma_no_dup_prefix, lemma_push_no_dup};

verus! {

broadcast use vstd::std_specs::hash::group_hash_axioms;

/// The requests pending for one window.
#[derive(Debug, Clone, Copy, PartialEq, Eq, Structural)]
pub struct WindowFlags {
    pub rebuild: bool,
    pub redraw: bool,
    pub close: bool,
}

/// No request pending.
pub open spec fn no_flags() -> WindowFlags {
    WindowFlags { rebuild: false, redraw: false, close: false }
}

/// Which request a call sets or takes.
#[derive(Debug, Clone, Copy, PartialEq, Eq, Structural)]
pub enum Request {
    Rebuild,
    Redraw,
    Close,
}

/// `f` with request `r` set to `v`.
pub open spec fn with_request(f: WindowFlags, r: Request, v: bool) -> WindowFlags {
    match r {
        Request::Rebuild => WindowFlags { rebuild: v, ..f },
        Request::Redraw => WindowFlags { redraw: v, ..f },
        Request::Close => WindowFlags { close: v, ..f },
    }
}

/// Whether request `r` is set in `f`.
pub open spec fn has_request(f: WindowFlags, r: Request) -> bool {
    match r {
        Request::Rebuild => f.rebuild,
        Request::Redraw => f.redraw,
        Request::Close => f.close,
    }
}

/// How a layer is shown: where it is placed, whether it blocks the layers
/// below, and its options.
#[derive(Debug, Clone, Copy)]
pub struct LayerSpec<G> {
    pub anchor: Anchor<G>,
    pub focus: FocusPolicy,
    pub opts: LayerOptions,
}

impl<G> LayerSpec<G> {
    /// A spec with default options.
    pub fn new(anchor: Anchor<G>, focus: FocusPolicy) -> (r: Self)
        ensures
            r == (LayerSpec { anchor, focus, opts: default_options() }),
    {
        LayerSpec { anchor, focus, opts: LayerOptions::default() }
    }

    /// The same spec with a backdrop colour (modal dimming and the like).
    pub fn with_backdrop(self, color: Color) -> (r: Self)
        ensures
            r == (LayerSpec { opts: LayerOptions { backdrop: Some(color), ..self.opts }, ..self }),
    {
        LayerSpec { opts: LayerOptions { backdrop: Some(color), ..self.opts }, ..self }
    }

    /// The same spec with the given options.
    pub fn with_opts(self, opts: LayerOptions) -> (r: Self)
        ensures
            r == (LayerSpec { opts, ..self }),
    {
        LayerSpec { opts, ..self }
    }
}

/// The default layer options: visible, not dismissed by outside clicks, no
/// backdrop, no flipping.
pub open spec fn default_options() -> LayerOptions {
    LayerOptions { visible: true, dismiss_on_outside: false, backdrop: None, flip: false }
}

/// How modals are shown: centred on the screen, blocking the layers below,
/// over a translucent black backdrop.
pub open spec fn modal_spec<G>() -> LayerSpec<G> {
    LayerSpec {
        anchor: Anchor::ScreenCenter,
        focus: FocusPolicy::BlockBelow,
        opts: LayerOptions {
            backdrop: Some(Color { r: 0, g: 0, b: 0, a: 80 }),
            ..default_options()
        },
    }
}

/// How overlays are shown: laid out normally, not blocking the layers below.
pub open spec fn overlay_spec<G>() -> LayerSpec<G> {
    LayerSpec { anchor: Anchor::Unanchored, focus: FocusPolicy::Transparent, opts: default_options() }
}

/// How popups are shown at `anchor`: dismissed by outside clicks, flipping
/// when they would overflow.
pub open spec fn popup_spec<G>(anchor: Anchor<G>) -> LayerSpec<G> {
    LayerSpec {
        anchor,
        focus: FocusPolicy::Dismissable,
        opts: LayerOptions { visible: true, dismiss_on_outside: true, backdrop: None, flip: true },
    }
}

/// A pending layer command: show a built layer under a handle, or hide the
/// single-instance layer of a kind (modal, overlay).
#[derive(Debug)]
pub enum LayerCmd<P, G> {
    Show { kind: LayerKind, spec: LayerSpec<G>, payload: P, handle: LayerHandle },
    Hide { kind: LayerKind },
}

/// Handle of a popup, used to close exactly that popup.
#[derive(Debug, Clone, Copy, PartialEq, Eq, Hash, Structural)]
pub struct PopupHandle(pub LayerHandle);

/// Mathematical content of the signal state.
pub struct SignalsModel<P, G> {
    /// Registered windows and their pending requests.
    pub windows: Map<u64, WindowFlags>,
    pub current: Option<u64>,
    pub pending_layers: Seq<LayerCmd<P, G>>,
    pub popup_hides: Seq<u64>,
    pub next_popup_handle: u64,
}

/// Signal state of the UI thread.
pub struct Signals<P, G> {
    windows: HashMap<u64, WindowFlags>,
    /// The registered window ids, each once.
    order: Vec<u64>,
    current: Option<u64>,
    pending_layers: Vec<LayerCmd<P, G>>,
    popup_hides: Vec<u64>,
    next_popup_handle: u64,
}

impl<P, G> View for Signals<P, G> {
    type V = SignalsModel<P, G>;

    closed spec fn view(&self) -> SignalsModel<P, G> {
        SignalsModel {
            windows: self.windows@,
            current: self.current,
            pending_layers: self.pending_layers@,
            popup_hides: self.popup_hides@,
            next_popup_handle: self.next_popup_handle,
        }
    }
}

/// Windows after setting request `r` on the current window (registering it
/// when needed), or on every registered window when there is none.
pub open spec fn requested(m: Map<u64, WindowFlags>, current: Option<u64>, r: Request) -> Map<u64, WindowFlags> {
    match current {
        Some(w) => m.insert(w, with_request(if m.contains_key(w) { m[w] } else { no_flags() }, r, true)),
        None => set_everywhere(m, r),
    }
}

/// Every registered window with request `r` set.
pub open spec fn set_everywhere(m: Map<u64, WindowFlags>, r: Request) -> Map<u64, WindowFlags> {
    Map::new(|k: u64| m.contains_key(k), |k: u64| with_request(m[k], r, true))
}

impl<P, G> Signals<P, G> {
    pub closed spec fn wf(&self) -> bool {
        &&& self.order@.no_duplicates()
        &&& forall|k: u64| self.windows@.contains_key(k) <==> self.order@.contains(k)
    }

    /// No windows, no current window, nothing pending; popup handles start at 1.
    pub fn new() -> (s: Self)
        ensures
            s.wf(),
            s@.windows.is_empty(),
            s@.current.is_none(),
            s@.pending_layers.len() == 0,
            s@.popup_hides.len() == 0,
            s@.next_popup_handle == 1,
    {
        Signals {
            windows: HashMap::new(),
            order: Vec::new(),
            current: None,
            pending_layers: Vec::new(),
            popup_hides: Vec::new(),
            next_popup_handle: 1,
        }
    }

    /// Registers a window with no request pending (a registered window keeps
    /// its pending requests).
    pub fn register_window(&mut self, wid: u64)
        requires
            old(self).wf(),
        ensures
            final(self).wf(),
            final(self)@ == (SignalsModel {
                windows: if old(self)@.windows.contains_key(wid) {
                    old(self)@.windows
                } else {
                    old(self)@.windows.insert(wid, no_flags())
                },
                ..old(self)@
            }),
    {
        if !self.windows.contains_key(&wid) {
            self.windows.insert(wid, WindowFlags { rebuild: false, redraw: false, close: false });
            let ghost o = self.order@;
            self.order.push(wid);
            proof {
                assert forall|k: u64| self.order@.contains(k) <==> o.contains(k) || k == wid by {
                    lemma_push_contains(o, wid, k);
                }
                lemma_push_no_dup(o, wid);
                assert forall|k: u64| self.windows@.contains_key(k) <==> self.order@.contains(k) by {
                    lemma_push_contains(o, wid, k);
                }
            }
        }
    }

    /// Forgets a window and its pending requests.
    pub fn unregister_window(&mut self, wid: u64)
        requires
            old(self).wf(),
        ensures
            final(self).wf(),
            final(self)@ == (SignalsModel { windows: old(self)@.windows.remove(wid), ..old(self)@ }),
    {
        self.windows.remove(&wid);
        let ghost o = self.order@;
        let mut kept: Vec<u64> = Vec::new();
        let mut i: usize = 0;
        while i < self.order.len()
            invariant
                o == self.order@,
                o.no_duplicates(),
                i <= o.len(),
                kept@.no_duplicates(),
                forall|k: u64| kept@.contains(k) <==> (o.subrange(0, i as int).contains(k) && k != wid),
            decreases o.len() - i,
        {
            let k = self.order[i];
            proof {
                assert forall|x: u64| o.subrange(0, i + 1).contains(x) <==> o.subrange(0, i as int).contains(x) || x == k by {
                    lemma_prefix_contains(o, i as int, x);
                }
                lemma_no_dup_prefix(o, i as int);
            }
            let ghost kk = kept@;
            if k != wid {
                proof {
                    lemma_push_no_dup(kk, k);
                }
                kept.push(k);
                proof {
                    assert forall|x: u64| kept@.contains(x) <==> kk.contains(x) || x == k by {
                        lemma_push_contains(kk, k, x);
                    }
                }
            }
            proof {
                assert forall|x: u64| kept@.contains(x) <==> (o.subrange(0, i + 1).contains(x) && x != wid) by {
                    lemma_prefix_contains(o, i as int, x);
                    if k != wid {
                        lemma_push_contains(kk, k, x);
                    }
                }
            }
            i = i + 1;
        }
        assert(o.subrange(0, o.len() as int) =~= o);
        self.order = kept;
    }

    /// Makes `wid` the window that requests go to.
    pub fn set_current_window(&mut self, wid: u64)
        ensures
            final(self)@ == (SignalsModel { current: Some(wid), ..old(self)@ }),
    {
        self.current = Some(wid);
    }

    /// Leaves the current window: requests go to every window again.
    pub fn clear_current_window(&mut self)
        ensures
            final(self)@ == (SignalsModel { current: None, ..old(self)@ }),
    {
        self.current = None;
    }

    /// The current window, if any.
    pub fn current_window(&self) -> (r: Option<u64>)
        ensures
            r == self@.current,
    {
        self.current
    }

    fn set_on(&mut self, wid: u64, r: Request)
        requires
            old(self).wf(),
        ensures
            final(self).wf(),
            final(self)@ == (SignalsModel {
                windows: old(self)@.windows.insert(
                    wid,
                    with_request(
                        if old(self)@.windows.contains_key(wid) {
                            old(self)@.windows[wid]
                        } else {
                            no_flags()
                        },
                        r,
                        true,
                    ),
                ),
                ..old(self)@
            }),
    {
        let f = match self.windows.get(&wid) {
            Some(f) => *f,
            None => WindowFlags { rebuild: false, redraw: false, close: false },
        };
        let nf = match r {
            Request::Rebuild => WindowFlags { rebuild: true, ..f },
            Request::Redraw => WindowFlags { redraw: true, ..f },
            Request::Close => WindowFlags { close: true, ..f },
        };
        let present = self.windows.contains_key(&wid);
        self.windows.insert(wid, nf);
        if !present {
            let ghost o = self.order@;
            self.order.push(wid);
            proof {
                assert forall|k: u64| self.order@.contains(k) <==> o.contains(k) || k == wid by {
                    lemma_push_contains(o, wid, k);
                }
                lemma_push_no_dup(o, wid);
                assert forall|k: u64| self.windows@.contains_key(k) <==> self.order@.contains(k) by {
                    lemma_push_contains(o, wid, k);
                }
            }
        }
    }

    fn set_on_all(&mut self, r: Request)
        requires
            old(self).wf(),
        ensures
            final(self).wf(),
            final(self)@ == (SignalsModel { windows: set_everywhere(old(self)@.windows, r), ..old(self)@ }),
    {
        let ghost m0 = self.windows@;
        let ghost s0 = self@;
        let ghost o = self.order@;
        let keys = copy_list(&self.order);
        assert(keys@.to_set() =~= m0.dom());
        let mut i: usize = 0;
        while i < keys.len()
            invariant
                i <= keys@.len(),
                keys@ == o,
                self.order@ == o,
                self@.current == s0.current,
                self@.pending_layers == s0.pending_layers,
                self@.popup_hides == s0.popup_hides,
                self@.next_popup_handle == s0.next_popup_handle,
                o.no_duplicates(),
                forall|k: u64| m0.contains_key(k) <==> o.contains(k),
                keys@.to_set() == m0.dom(),
                keys@.no_duplicates(),
                self.windows@.dom() == m0.dom(),
                forall|k: u64| #[trigger] m0.contains_key(k) ==> self.windows@[k] == if keys@.subrange(0, i as int).contains(k) {
                    with_request(m0[k], r, true)
                } else {
                    m0[k]
                },
            decreases keys@.len() - i,
        {
            let k = keys[i];
            assert(m0.contains_key(k)) by {
                assert(keys@.to_set().contains(k));
            }
            let f = *self.windows.get(&k).unwrap();
            let nf = match r {
                Request::Rebuild => WindowFlags { rebuild: true, ..f },
                Request::Redraw => WindowFlags { redraw: true, ..f },
                Request::Close => WindowFlags { close: true, ..f },
            };
            self.windows.insert(k, nf);
            proof {
                assert forall|x: u64| keys@.subrange(0, i + 1).contains(x) <==> keys@.subrange(0, i as int).contains(x) || x == k by {
                    lemma_prefix_contains(keys@, i as int, x);
                }
                lemma_no_dup_prefix(keys@, i as int);
                assert(self.windows@.dom() =~= m0.dom());
            }
            i = i + 1;
        }
        proof {
            assert(keys@.subrange(0, keys@.len() as int) =~= keys@);
            assert forall|k: u64| m0.contains_key(k) implies keys@.contains(k) by {
                assert(keys@.to_set().contains(k));
            }
            assert(self.windows@ =~= set_everywhere(m0, r));
            assert forall|k: u64| self.windows@.contains_key(k) <==> self.order@.contains(k) by {
                assert(m0.contains_key(k) == self.windows@.contains_key(k));
            }
        }
    }

    /// Sets request `r` on the current window, or on every registered window
    /// when there is no current window. Returns whether it went to every window.
    fn request(&mut self, r: Request) -> (broadcast: bool)
        requires
            old(self).wf(),
        ensures
            final(self).wf(),
            final(self)@ == (SignalsModel { windows: requested(old(self)@.windows, old(self)@.current, r), ..old(self)@ }),
            broadcast == old(self)@.current.is_none(),
    {
        match self.current {
            Some(w) => {
                self.set_on(w, r);
                false
            },
            None => {
                self.set_on_all(r);
                true
            },
        }
    }

    /// Requests a full rebuild (builder, layout, render).
    pub fn request_rebuild(&mut self)
        requires
            old(self).wf(),
        ensures
            final(self).wf(),
            final(self)@ == (SignalsModel {
                windows: requested(old(self)@.windows, old(self)@.current, Request::Rebuild),
                ..old(self)@
            }),
    {
        self.request(Request::Rebuild);
    }

    /// Requests a repaint only (no builder, no layout).
    pub fn request_redraw(&mut self)
        requires
            old(self).wf(),
        ensures
            final(self).wf(),
            final(self)@ == (SignalsModel {
                windows: requested(old(self)@.windows, old(self)@.current, Request::Redraw),
                ..old(self)@
            }),
    {
        self.request(Request::Redraw);
    }

    /// Requests that the window really close (bypassing any close guard).
    /// Returns `true` when there was no current window and the request went to
    /// every window.
    pub fn request_window_close(&mut self) -> (broadcast: bool)
        requires
            old(self).wf(),
        ensures
            final(self).wf(),
            final(self)@ == (SignalsModel {
                windows: requested(old(self)@.windows, old(self)@.current, Request::Close),
                ..old(self)@
            }),
            broadcast == old(self)@.current.is_none(),
    {
        self.request(Request::Close)
    }

    fn take(&mut self, wid: u64, r: Request) -> (was: bool)
        requires
            old(self).wf(),
        ensures
            final(self).wf(),
            was == (old(self)@.windows.contains_key(wid) && has_request(old(self)@.windows[wid], r)),
            final(self)@ == (SignalsModel {
                windows: if old(self)@.windows.contains_key(wid) {
                    old(self)@.windows.insert(wid, with_request(old(self)@.windows[wid], r, false))
                } else {
                    old(self)@.windows
                },
                ..old(self)@
            }),
    {
        match self.windows.get(&wid) {
            Some(f) => {
                let f = *f;
                let (was, nf) = match r {
                    Request::Rebuild => (f.rebuild, WindowFlags { rebuild: false, ..f }),
                    Request::Redraw => (f.redraw, WindowFlags { redraw: false, ..f }),
                    Request::Close => (f.close, WindowFlags { close: false, ..f }),
                };
                self.windows.insert(wid, nf);
                was
            },
            None => false,
        }
    }

    /// Takes (returns and clears) the rebuild request of window `wid`.
    pub fn take_rebuild_requested(&mut self, wid: u64) -> (was: bool)
        requires
            old(self).wf(),
        ensures
            final(self).wf(),
            was == (old(self)@.windows.contains_key(wid) && old(self)@.windows[wid].rebuild),
            final(self)@ == (SignalsModel {
                windows: if old(self)@.windows.contains_key(wid) {
                    old(self)@.windows.insert(wid, WindowFlags { rebuild: false, ..old(self)@.windows[wid] })
                } else {
                    old(self)@.windows
                },
                ..old(self)@
            }),
    {
        self.take(wid, Request::Rebuild)
    }

    /// Takes (returns and clears) the redraw request of window `wid`.
    pub fn take_redraw_requested(&mut self, wid: u64) -> (was: bool)
        requires
            old(self).wf(),
        ensures
            final(self).wf(),
            was == (old(self)@.windows.contains_key(wid) && old(self)@.windows[wid].redraw),
            final(self)@ == (SignalsModel {
                windows: if old(self)@.windows.contains_key(wid) {
                    old(self)@.windows.insert(wid, WindowFlags { redraw: false, ..old(self)@.windows[wid] })
                } else {
                    old(self)@.windows
                },
                ..old(self)@
            }),
    {
        self.take(wid, Request::Redraw)
    }

    /// Takes (returns and clears) the close request of window `wid`.
    pub fn take_window_close_requested(&mut self, wid: u64) -> (was: bool)
        requires
            old(self).wf(),
        ensures
            final(self).wf(),
            was == (old(self)@.windows.contains_key(wid) && old(self)@.windows[wid].close),
            final(self)@ == (SignalsModel {
                windows: if old(self)@.windows.contains_key(wid) {
                    old(self)@.windows.insert(wid, WindowFlags { close: false, ..old(self)@.windows[wid] })
                } else {
                    old(self)@.windows
                },
                ..old(self)@
            }),
    {
        self.take(wid, Request::Close)
    }
}


impl<P, G> Signals<P, G> {
    /// Whether another layer handle can be taken.
    pub fn can_alloc_handle(&self) -> (r: bool)
        ensures
            r == (self@.next_popup_handle < u64::MAX),
    {
        self.next_popup_handle < u64::MAX
    }

    /// Takes the next layer handle (handles are unique across windows).
    pub fn alloc_layer_handle(&mut self) -> (h: LayerHandle)
        requires
            old(self).wf(),
            old(self)@.next_popup_handle < u64::MAX,
        ensures
            final(self).wf(),
            h == LayerHandle(old(self)@.next_popup_handle),
            final(self)@ == (SignalsModel { next_popup_handle: (old(self)@.next_popup_handle + 1) as u64, ..old(self)@ }),
    {
        let h = LayerHandle(self.next_popup_handle);
        self.next_popup_handle = self.next_popup_handle + 1;
        h
    }

    /// Queues `payload` to be shown on layer `kind` as `spec` says, under
    /// `handle`, and requests a rebuild.
    fn queue_show(&mut self, kind: LayerKind, spec: LayerSpec<G>, payload: P, handle: LayerHandle)
        requires
            old(self).wf(),
        ensures
            final(self).wf(),
            final(self)@ == (SignalsModel {
                windows: requested(old(self)@.windows, old(self)@.current, Request::Rebuild),
                pending_layers: old(self)@.pending_layers.push(LayerCmd::Show { kind, spec, payload, handle }),
                ..old(self)@
            }),
    {
        self.pending_layers.push(LayerCmd::Show { kind, spec, payload, handle });
        self.request_rebuild();
    }

    /// Queues a built layer for display on `kind` as `spec` says, under a
    /// fresh handle, and requests a rebuild. Returns the handle.
    pub fn show_layer(&mut self, kind: LayerKind, spec: LayerSpec<G>, payload: P) -> (h: LayerHandle)
        requires
            old(self).wf(),
            old(self)@.next_popup_handle < u64::MAX,
        ensures
            final(self).wf(),
            h == LayerHandle(old(self)@.next_popup_handle),
            final(self)@ == (SignalsModel {
                windows: requested(old(self)@.windows, old(self)@.current, Request::Rebuild),
                pending_layers: old(self)@.pending_layers.push(LayerCmd::Show { kind, spec, payload, handle: h }),
                next_popup_handle: (old(self)@.next_popup_handle + 1) as u64,
                ..old(self)@
            }),
    {
        let h = self.alloc_layer_handle();
        self.queue_show(kind, spec, payload, h);
        h
    }

    /// Queues hiding the single-instance layer of `kind` (modal or overlay),
    /// and requests a rebuild.
    pub fn hide_layer(&mut self, kind: LayerKind)
        requires
            old(self).wf(),
        ensures
            final(self).wf(),
            final(self)@ == (SignalsModel {
                windows: requested(old(self)@.windows, old(self)@.current, Request::Rebuild),
                pending_layers: old(self)@.pending_layers.push(LayerCmd::Hide { kind }),
                ..old(self)@
            }),
    {
        self.pending_layers.push(LayerCmd::Hide { kind });
        self.request_rebuild();
    }

    /// Shows a modal layer: centred on the screen, blocking the layers
    /// below, over a translucent black backdrop.
    pub fn show_modal(&mut self, payload: P)
        requires
            old(self).wf(),
            old(self)@.next_popup_handle < u64::MAX,
        ensures
            final(self).wf(),
            final(self)@ == (SignalsModel {
                windows: requested(old(self)@.windows, old(self)@.current, Request::Rebuild),
                pending_layers: old(self)@.pending_layers.push(LayerCmd::Show {
                    kind: LayerKind::Modal,
                    spec: modal_spec(),
                    payload,
                    handle: LayerHandle(old(self)@.next_popup_handle),
                }),
                next_popup_handle: (old(self)@.next_popup_handle + 1) as u64,
                ..old(self)@
            }),
    {
        let spec = LayerSpec::new(Anchor::ScreenCenter, FocusPolicy::BlockBelow).with_backdrop(
            Color::rgba(0, 0, 0, 80),
        );
        self.show_layer(LayerKind::Modal, spec, payload);
    }

    /// Hides the default modal layer.
    pub fn hide_modal(&mut self)
        requires
            old(self).wf(),
        ensures
            final(self).wf(),
            final(self)@ == (SignalsModel {
                windows: requested(old(self)@.windows, old(self)@.current, Request::Rebuild),
                pending_layers: old(self)@.pending_layers.push(LayerCmd::Hide { kind: LayerKind::Modal }),
                ..old(self)@
            }),
    {
        self.hide_layer(LayerKind::Modal);
    }

    /// Shows an overlay layer: laid out normally, not blocking the layers
    /// below.
    pub fn show_overlay(&mut self, payload: P)
        requires
            old(self).wf(),
            old(self)@.next_popup_handle < u64::MAX,
        ensures
            final(self).wf(),
            final(self)@ == (SignalsModel {
                windows: requested(old(self)@.windows, old(self)@.current, Request::Rebuild),
                pending_layers: old(self)@.pending_layers.push(LayerCmd::Show {
                    kind: LayerKind::Overlay,
                    spec: overlay_spec(),
                    payload,
                    handle: LayerHandle(old(self)@.next_popup_handle),
                }),
                next_popup_handle: (old(self)@.next_popup_handle + 1) as u64,
                ..old(self)@
            }),
    {
        let spec = LayerSpec::new(Anchor::Unanchored, FocusPolicy::Transparent);
        self.show_layer(LayerKind::Overlay, spec, payload);
    }

    /// Hides the default overlay layer.
    pub fn hide_overlay(&mut self)
        requires
            old(self).wf(),
        ensures
            final(self).wf(),
            final(self)@ == (SignalsModel {
                windows: requested(old(self)@.windows, old(self)@.current, Request::Rebuild),
                pending_layers: old(self)@.pending_layers.push(LayerCmd::Hide { kind: LayerKind::Overlay }),
                ..old(self)@
            }),
    {
        self.hide_layer(LayerKind::Overlay);
    }

    /// Queues a popup built for `handle` (taken with `alloc_layer_handle`),
    /// placed at `anchor`, dismissed by outside clicks and flipping when it
    /// would overflow; requests a rebuild.
    pub fn show_popup(&mut self, handle: PopupHandle, anchor: Anchor<G>, payload: P) -> (r: PopupHandle)
        requires
            old(self).wf(),
        ensures
            final(self).wf(),
            r == handle,
            final(self)@ == (SignalsModel {
                windows: requested(old(self)@.windows, old(self)@.current, Request::Rebuild),
                pending_layers: old(self)@.pending_layers.push(LayerCmd::Show {
                    kind: LayerKind::Popup,
                    spec: popup_spec(anchor),
                    payload,
                    handle: handle.0,
                }),
                ..old(self)@
            }),
    {
        let spec = LayerSpec::new(anchor, FocusPolicy::Dismissable).with_opts(LayerOptions::popup());
        self.queue_show(LayerKind::Popup, spec, payload, handle.0);
        handle
    }

    /// Queues closing exactly the popup `handle`, and requests a rebuild.
    pub fn hide_popup(&mut self, handle: PopupHandle)
        requires
            old(self).wf(),
        ensures
            final(self).wf(),
            final(self)@ == (SignalsModel {
                windows: requested(old(self)@.windows, old(self)@.current, Request::Rebuild),
                popup_hides: old(self)@.popup_hides.push(handle.0.0),
                ..old(self)@
            }),
    {
        self.popup_hides.push(handle.0.0);
        self.request_rebuild();
    }

    /// Takes the queued layer commands, oldest first.
    pub fn take_pending_layers(&mut self) -> (cmds: Vec<LayerCmd<P, G>>)
        requires
            old(self).wf(),
        ensures
            final(self).wf(),
            cmds@ == old(self)@.pending_layers,
            final(self)@ == (SignalsModel { pending_layers: Seq::empty(), ..old(self)@ }),
    {
        let mut taken: Vec<LayerCmd<P, G>> = Vec::new();
        std::mem::swap(&mut taken, &mut self.pending_layers);
        taken
    }

    /// Takes the queued popup closings, oldest first.
    pub fn take_popup_hides(&mut self) -> (hides: Vec<u64>)
        requires
            old(self).wf(),
        ensures
            final(self).wf(),
            hides@ == old(self)@.popup_hides,
            final(self)@ == (SignalsModel { popup_hides: Seq::empty(), ..old(self)@ }),
    {
        let mut taken: Vec<u64> = Vec::new();
        std::mem::swap(&mut taken, &mut self.popup_hides);
        taken
    }
}
/// A request raised while `w` is the current window is pending for `w`;
/// taking it clears it, so a second take finds nothing, and requests of the
/// other kinds are left as they were.
pub proof fn lemma_request_then_take(m: Map<u64, WindowFlags>, w: u64, r: Request, other: Request)
    ensures
        requested(m, Some(w), r).contains_key(w),
        has_request(requested(m, Some(w), r)[w], r),
        !has_request(with_request(requested(m, Some(w), r)[w], r, false), r),
        other != r ==> has_request(with_request(requested(m, Some(w), r)[w], r, false), other)
            == has_request(requested(m, Some(w), r)[w], other),
{
}

/// A request raised with no current window reaches every registered window
/// and registers none.
pub proof fn lemma_broadcast_reaches_all(m: Map<u64, WindowFlags>, r: Request, w: u64)
    ensures
        requested(m, None, r).dom() == m.dom(),
        m.contains_key(w) ==> has_request(requested(m, None, r)[w], r),
{
    assert(requested(m, None, r).dom() =~= m.dom());
}


/// Raising a request changes nothing else: on the current window `w` every
/// other kind of request stays as it was (so an earlier rebuild survives a
/// later redraw), a broadcast keeps every window's other requests, and no
/// window other than the ones reached changes.
pub proof fn lemma_request_keeps_other_requests(
    m: Map<u64, WindowFlags>,
    current: Option<u64>,
    r: Request,
    other: Request,
    x: u64,
)
    requires
        other != r,
    ensures
        current matches Some(w) ==> has_request(requested(m, current, r)[w], other) == (m.contains_key(w)
            && has_request(m[w], other)),
        current matches Some(w) ==> (x != w ==> requested(m, current, r).contains_key(x) == m.contains_key(x)
            && (m.contains_key(x) ==> requested(m, current, r)[x] == m[x])),
        current is None ==> (requested(m, current, r).contains_key(x) == m.contains_key(x) && (m.contains_key(x)
            ==> has_request(requested(m, current, r)[x], r) && has_request(requested(m, current, r)[x], other)
            == has_request(m[x], other))),
{
}

} // verus!
