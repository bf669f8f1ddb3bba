//! What the queued layer commands do to the layer stack and the element
//! tree, stated over all stacks.

use vstd::prelude::*;
use crate::layer_commands::{layers_step, subtree_dropped, tree_step};
use crate::layers::{
    Anchor, FocusPolicy, LayerEntry, LayerHandle, LayerKind, LayerModel, distinct_handles, first_with, lemma_first_with_at,
    lemma_handle_unique, make_entry, modal_backdrop, pushed, pushed_fresh, removed, without_default, without_first,
};
use crate::effects::ElementId;
use crate::signals::LayerCmd;
use crate::tree::{TreeModel, ViewNode, live};

verus! {

/// Removing the first entry with handle `h` leaves no entry with it.
#[verifier::spinoff_prover]
proof fn lemma_without_first_drops<A>(s: Seq<LayerEntry<A>>, h: LayerHandle, k: int)
    requires
        distinct_handles(s),
        0 <= k < without_first(s, h).len(),
    ensures
        without_first(s, h)[k].handle != h,
{
    if exists|i: int| 0 <= i < s.len() && s[i].handle == h {
        let i = choose|i: int| 0 <= i < s.len() && s[i].handle == h;
        lemma_first_with_at(s, h, i);
        if k < i {
            lemma_handle_unique(s, i, k);
        } else {
            lemma_handle_unique(s, i, k + 1);
        }
    } else {
        assert(first_with(s, h) is None);
    }
}

/// Removing the first entry with handle `h` keeps every entry with another
/// handle.
#[verifier::spinoff_prover]
proof fn lemma_without_first_keeps<A>(s: Seq<LayerEntry<A>>, h: LayerHandle, j: int)
    requires
        distinct_handles(s),
        0 <= j < s.len(),
        s[j].handle != h,
    ensures
        without_first(s, h).contains(s[j]),
{
    if exists|i: int| 0 <= i < s.len() && s[i].handle == h {
        let i = choose|i: int| 0 <= i < s.len() && s[i].handle == h;
        lemma_first_with_at(s, h, i);
        let r = s.remove(i);
        if j < i {
            assert(r[j] == s[j]);
        } else {
            assert(j != i);
            assert(r[j - 1] == s[j]);
        }
    } else {
        assert(first_with(s, h) is None);
        assert(s[j] == s[j]);
    }
}

/// Hiding the default modal (or overlay) takes it off the stack: that slot
/// is emptied and the other one kept, no entry keeps the hidden layer's
/// handle, and every other entry stays.
#[verifier::spinoff_prover]
pub proof fn lemma_hide_takes_default_layer_off<G>(m: LayerModel<Anchor<G>>, n: nat, kind: LayerKind)
    requires
        kind == LayerKind::Modal || kind == LayerKind::Overlay,
        distinct_handles(m.entries),
    ensures
        ({
            let m1 = layers_step(m, n, LayerCmd::<ViewNode, G>::Hide { kind });
            let slot = if kind == LayerKind::Modal {
                m.modal
            } else {
                m.overlay
            };
            &&& kind == LayerKind::Modal ==> m1.modal is None && m1.overlay == m.overlay
            &&& kind == LayerKind::Overlay ==> m1.overlay is None && m1.modal == m.modal
            &&& slot is None ==> m1 == m
            &&& slot matches Some(h) ==> forall|k: int|
                0 <= k < m1.entries.len() ==> (#[trigger] m1.entries[k]).handle != h
            &&& slot matches Some(h) ==> forall|j: int|
                0 <= j < m.entries.len() && m.entries[j].handle != h ==> m1.entries.contains(#[trigger] m.entries[j])
        }),
{
    let m1 = layers_step(m, n, LayerCmd::<ViewNode, G>::Hide { kind });
    let slot = if kind == LayerKind::Modal {
        m.modal
    } else {
        m.overlay
    };
    assert(m1 == match slot {
        Some(h) => if kind == LayerKind::Modal {
            LayerModel { modal: None, ..removed(m, h).0 }
        } else {
            LayerModel { overlay: None, ..removed(m, h).0 }
        },
        None => m,
    }) by {
        reveal(layers_step);
    }
    match slot {
        Some(h) => {
            assert(m1.entries == without_first(m.entries, h));
            assert forall|k: int| 0 <= k < m1.entries.len() implies (#[trigger] m1.entries[k]).handle != h by {
                lemma_without_first_drops(m.entries, h, k);
            }
            assert forall|j: int| 0 <= j < m.entries.len() && m.entries[j].handle != h implies m1.entries.contains(
                #[trigger] m.entries[j],
            ) by {
                lemma_without_first_keeps(m.entries, h, j);
            }
        },
        None => {},
    }
}

/// Hiding the default modal (or overlay) removes its root element from the
/// tree, and hiding when there is none leaves the tree as it was.
#[verifier::spinoff_prover]
pub proof fn lemma_hide_drops_default_layer_elements<G>(
    m: LayerModel<Anchor<G>>,
    kind: LayerKind,
    t0: TreeModel,
    t1: TreeModel,
)
    requires
        kind == LayerKind::Modal || kind == LayerKind::Overlay,
        tree_step(m, t0, LayerCmd::<ViewNode, G>::Hide { kind }, t1),
    ensures
        ({
            let slot = if kind == LayerKind::Modal {
                m.modal
            } else {
                m.overlay
            };
            &&& slot is None ==> t1 == t0
            &&& slot matches Some(h) ==> (first_with(m.entries, h) matches Some(i) ==> (live(t0, m.entries[i].root_id)
                ==> !live(t1, m.entries[i].root_id)))
        }),
{
    let slot = if kind == LayerKind::Modal {
        m.modal
    } else {
        m.overlay
    };
    assert(subtree_dropped(t0, without_default(m, slot).1, t1)) by {
        reveal(tree_step);
    }
    reveal(subtree_dropped);
}

/// Showing a layer appends one entry on top of the stack for it, rooted at
/// the next element slot `n`: a modal or overlay replaces the previous
/// default one of its kind (taking a fresh handle, blocking or transparent
/// focus), any other kind keeps every entry and uses the command's handle
/// and options.
#[verifier::spinoff_prover]
pub proof fn lemma_show_appends_layer<G>(m: LayerModel<Anchor<G>>, n: nat, c: LayerCmd<ViewNode, G>)
    requires
        c is Show,
    ensures
        ({
            let m1 = layers_step(m, n, c);
            let kind = c->Show_kind;
            let e = m1.entries.last();
            &&& m1.entries.len() >= 1
            &&& e.kind == kind
            &&& e.root_id == ElementId(n as u64)
            &&& kind == LayerKind::Modal ==> {
                &&& e.handle == LayerHandle(m.next_handle)
                &&& e.focus == FocusPolicy::BlockBelow
                &&& e.visible
                &&& m1.modal == Some(e.handle)
                &&& m1.overlay == m.overlay
                &&& m1.entries.drop_last() == match m.modal {
                    Some(h) => without_first(m.entries, h),
                    None => m.entries,
                }
            }
            &&& kind == LayerKind::Overlay ==> {
                &&& e.handle == LayerHandle(m.next_handle)
                &&& e.focus == FocusPolicy::Transparent
                &&& e.visible
                &&& m1.overlay == Some(e.handle)
                &&& m1.modal == m.modal
                &&& m1.entries.drop_last() == match m.overlay {
                    Some(h) => without_first(m.entries, h),
                    None => m.entries,
                }
            }
            &&& kind != LayerKind::Modal && kind != LayerKind::Overlay ==> {
                &&& e.handle == c->Show_handle
                &&& e.focus == c->Show_spec.focus
                &&& e.visible == c->Show_spec.opts.visible
                &&& m1.modal == m.modal
                &&& m1.overlay == m.overlay
                &&& m1.entries.drop_last() == m.entries
            }
        }),
{
    let m1 = layers_step(m, n, c);
    let kind = c->Show_kind;
    let root = ElementId(n as u64);
    if kind == LayerKind::Modal {
        let m0 = without_default(m, m.modal).0;
        assert(m1 == LayerModel {
            modal: Some(LayerHandle(m0.next_handle)),
            ..pushed_fresh(m0, LayerKind::Modal, root, Anchor::ScreenCenter, FocusPolicy::BlockBelow, Some(modal_backdrop()))
        }) by {
            reveal(layers_step);
        }
        assert(m1.entries.drop_last() =~= m0.entries);
    } else if kind == LayerKind::Overlay {
        let m0 = without_default(m, m.overlay).0;
        assert(m1 == LayerModel {
            overlay: Some(LayerHandle(m0.next_handle)),
            ..pushed_fresh(m0, LayerKind::Overlay, root, Anchor::Unanchored, FocusPolicy::Transparent, None)
        }) by {
            reveal(layers_step);
        }
        assert(m1.entries.drop_last() =~= m0.entries);
    } else {
        let spec = c->Show_spec;
        let handle = c->Show_handle;
        assert(m1 == LayerModel {
            next_handle: if handle.0 >= m.next_handle {
                (handle.0 + 1) as u64
            } else {
                m.next_handle
            },
            ..pushed(m, make_entry(handle, kind, root, spec.anchor, spec.focus, spec.opts, m.kind_seq[kind.rank()]))
        }) by {
            reveal(layers_step);
        }
        assert(m1.entries.drop_last() =~= m.entries);
    }
}

} // verus!
