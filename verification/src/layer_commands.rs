//! The element and layer work at the start of a frame: reconciling the
//! content layer with a freshly built view, then applying the queued layer
//! commands (each shown layer gets its element subtree built and an entry
//! on the layer stack; hiding a modal or overlay drops its default entry).

use vstd::prelude::*;
use crate::effects::ElementId;
use crate::layers::{
    Anchor, FocusPolicy, LayerHandle, LayerKind, LayerModel, LayerStack, content_root_set, make_entry,
    modal_backdrop, pushed, pushed_fresh, removed, root_of, seq_limit, without_default,
};
use crate::reconcile::{
    Patch, Reconciler, ReconcilerStats, built_subtree, counted, forest_size, create_subtree_from_node, creation_size, diff_spec,
    lemma_fresh_children_follow_view, lemma_fresh_diff, patch_applied, stats_tuple, subtree_size,
};
use crate::layers::closed_popup;
use crate::reconcile_law::{
    children_follow, law_applies, lemma_rebuild_only_refreshes_listeners, lemma_reconciled_children_follow_view,
};
use crate::signals::LayerCmd;
use crate::tree::{ElementTree, TreeModel, ViewNode, children_of_spec, live, node, removal_done};

verus! {

/// Number of elements a command creates.
pub open spec fn cmd_size<G>(c: LayerCmd<ViewNode, G>) -> nat {
    match c {
        LayerCmd::Show { payload, .. } => subtree_size(&payload),
        LayerCmd::Hide { .. } => 0,
    }
}

/// Number of elements a run of commands creates.
pub open spec fn total_size<G>(cmds: Seq<LayerCmd<ViewNode, G>>) -> nat
    decreases cmds.len(),
{
    if cmds.len() == 0 {
        0
    } else {
        total_size(cmds.drop_last()) + cmd_size(cmds.last())
    }
}

/// `t1` is `t0` with the subtree of `n` built, detached, from the next free
/// slot on; nothing else changes.
#[verifier::opaque]
pub open spec fn layer_built(t0: TreeModel, n: &ViewNode, t1: TreeModel) -> bool {
    let id = ElementId(t0.slots.len() as u64);
    &&& t1.slots.len() == t0.slots.len() + subtree_size(n)
    &&& t1.root == t0.root
    &&& forall|x: ElementId| x.0 < t0.slots.len() ==> #[trigger] node(t1, x) == node(t0, x)
    &&& built_subtree(t1, id, n)
    &&& node(t1, id) matches Some(v) && v.parent is None
}

/// `t1` is `t` with the subtree rooted at `r` removed (`t` itself when there
/// is no `r`).
#[verifier::opaque]
pub open spec fn subtree_dropped(t: TreeModel, r: Option<ElementId>, t1: TreeModel) -> bool {
    match r {
        Some(r) => removal_done(t, r, t1),
        None => t1 == t,
    }
}

/// The element tree after one command, given the layer content `m` before
/// it: a shown layer's subtree is built; the subtree of a default modal or
/// overlay that is hidden or replaced is removed.
#[verifier::opaque]
pub open spec fn tree_step<G>(m: LayerModel<Anchor<G>>, t0: TreeModel, c: LayerCmd<ViewNode, G>, t1: TreeModel) -> bool {
    match c {
        LayerCmd::Hide { kind } => match kind {
            LayerKind::Modal => subtree_dropped(t0, without_default(m, m.modal).1, t1),
            LayerKind::Overlay => subtree_dropped(t0, without_default(m, m.overlay).1, t1),
            _ => t1 == t0,
        },
        LayerCmd::Show { kind, payload, .. } => exists|tm: TreeModel|
            #[trigger] layer_built(t0, &payload, tm) && match kind {
                LayerKind::Modal => subtree_dropped(tm, without_default(m, m.modal).1, t1),
                LayerKind::Overlay => subtree_dropped(tm, without_default(m, m.overlay).1, t1),
                _ => t1 == tm,
            },
    }
}

/// The layer contents `ms` and trees `ts` that applying `cmds` in order goes
/// through, from `ms[0]`, `ts[0]` to the last ones.
pub open spec fn commands_chain<G>(
    cmds: Seq<LayerCmd<ViewNode, G>>,
    ms: Seq<LayerModel<Anchor<G>>>,
    ts: Seq<TreeModel>,
) -> bool {
    &&& ms.len() == cmds.len() + 1
    &&& ts.len() == cmds.len() + 1
    &&& forall|k: int|
        0 <= k < cmds.len() ==> ms[k + 1] == layers_step(#[trigger] ms[k], ts[k].slots.len(), cmds[k])
            && tree_step(ms[k], ts[k], cmds[k], ts[k + 1])
}

/// Layer content after one command, when the element tree held `n` slots
/// before it (a shown layer's root is the next slot).
#[verifier::opaque]
pub open spec fn layers_step<G>(m: LayerModel<Anchor<G>>, n: nat, c: LayerCmd<ViewNode, G>) -> LayerModel<Anchor<G>> {
    match c {
        LayerCmd::Hide { kind } => match kind {
            LayerKind::Modal => match m.modal {
                Some(h) => LayerModel { modal: None, ..removed(m, h).0 },
                None => m,
            },
            LayerKind::Overlay => match m.overlay {
                Some(h) => LayerModel { overlay: None, ..removed(m, h).0 },
                None => m,
            },
            _ => m,
        },
        LayerCmd::Show { kind, spec, handle, .. } => {
            let root = ElementId(n as u64);
            match kind {
                LayerKind::Modal => {
                    let m1 = without_default(m, m.modal).0;
                    LayerModel {
                        modal: Some(LayerHandle(m1.next_handle)),
                        ..pushed_fresh(
                            m1,
                            LayerKind::Modal,
                            root,
                            Anchor::ScreenCenter,
                            FocusPolicy::BlockBelow,
                            Some(modal_backdrop()),
                        )
                    }
                },
                LayerKind::Overlay => {
                    let m1 = without_default(m, m.overlay).0;
                    LayerModel {
                        overlay: Some(LayerHandle(m1.next_handle)),
                        ..pushed_fresh(m1, LayerKind::Overlay, root, Anchor::Unanchored, FocusPolicy::Transparent, None)
                    }
                },
                _ => LayerModel {
                    next_handle: if handle.0 >= m.next_handle {
                        (handle.0 + 1) as u64
                    } else {
                        m.next_handle
                    },
                    ..pushed(m, make_entry(handle, kind, root, spec.anchor, spec.focus, spec.opts, m.kind_seq[kind.rank()]))
                },
            }
        },
    }
}

/// The machine limits one command needs: the slot, handle and sequence
/// counters must not run out.
pub open spec fn step_fits<G>(m: LayerModel<Anchor<G>>, n: nat, c: LayerCmd<ViewNode, G>) -> bool {
    match c {
        LayerCmd::Hide { .. } => true,
        LayerCmd::Show { kind, handle, .. } => {
            &&& n + cmd_size(c) < u64::MAX
            &&& m.kind_seq[kind.rank()] < seq_limit()
            &&& match kind {
                LayerKind::Modal | LayerKind::Overlay => m.next_handle < u64::MAX,
                _ => handle.0 < u64::MAX,
            }
        },
    }
}

/// Layer content after the commands, applied in order from a tree of `n`
/// slots.
pub open spec fn layers_after<G>(m: LayerModel<Anchor<G>>, n: nat, cmds: Seq<LayerCmd<ViewNode, G>>) -> LayerModel<
    Anchor<G>,
>
    decreases cmds.len(),
{
    if cmds.len() == 0 {
        m
    } else {
        layers_after(layers_step(m, n, cmds[0]), n + cmd_size(cmds[0]), cmds.drop_first())
    }
}

/// Whether every command, applied in order, stays within the machine limits.
pub open spec fn all_fit<G>(m: LayerModel<Anchor<G>>, n: nat, cmds: Seq<LayerCmd<ViewNode, G>>) -> bool
    decreases cmds.len(),
{
    if cmds.len() == 0 {
        true
    } else {
        step_fits(m, n, cmds[0]) && all_fit(layers_step(m, n, cmds[0]), n + cmd_size(cmds[0]), cmds.drop_first())
    }
}

/// Builds the subtree of `n` from the next free slot on.
fn build_layer(tree: &mut ElementTree, n: &ViewNode) -> (id: ElementId)
    requires
        old(tree)@.slots.len() + subtree_size(n) < u64::MAX,
    ensures
        id == ElementId(old(tree)@.slots.len() as u64),
        final(tree)@.slots.len() == old(tree)@.slots.len() + subtree_size(n),
        layer_built(old(tree)@, n, final(tree)@),
{
    reveal(layer_built);
    create_subtree_from_node(tree, n)
}

/// Removes the subtree rooted at `r`, if any.
fn drop_layer(tree: &mut ElementTree, r: Option<ElementId>)
    ensures
        final(tree)@.slots.len() == old(tree)@.slots.len(),
        subtree_dropped(old(tree)@, r, final(tree)@),
{
    reveal(subtree_dropped);
    if let Some(r) = r {
        tree.remove(r);
    }
}

/// Applies one command (see `apply_layer_commands`).
fn apply_one<G: Copy>(layers: &mut LayerStack<Anchor<G>>, tree: &mut ElementTree, cmd: &LayerCmd<ViewNode, G>)
    requires
        old(layers).wf(),
        step_fits(old(layers)@, old(tree)@.slots.len(), *cmd),
    ensures
        final(layers).wf(),
        final(layers)@ == layers_step(old(layers)@, old(tree)@.slots.len(), *cmd),
        final(tree)@.slots.len() == old(tree)@.slots.len() + cmd_size(*cmd),
        tree_step(old(layers)@, old(tree)@, *cmd, final(tree)@),
{
    reveal(layers_step);
    reveal(tree_step);
    match cmd {
        LayerCmd::Hide { kind } => match kind {
            LayerKind::Modal => {
                let r = layers.remove_default_modal();
                drop_layer(tree, r);
            },
            LayerKind::Overlay => {
                let r = layers.remove_default_overlay();
                drop_layer(tree, r);
            },
            _ => {},
        },
        LayerCmd::Show { kind, spec, payload, handle } => {
            let id = build_layer(tree, payload);
            let ghost tm = tree@;
            match kind {
                LayerKind::Modal => {
                    let r = layers.push_default_modal(id, Anchor::ScreenCenter);
                    drop_layer(tree, r);
                },
                LayerKind::Overlay => {
                    let r = layers.push_default_overlay(id, Anchor::Unanchored);
                    drop_layer(tree, r);
                },
                _ => {
                    layers.push_with_handle(*kind, id, spec.anchor, spec.focus, spec.opts, *handle, None);
                },
            }
            assert(layer_built(old(tree)@, payload, tm));
        },
    }
}

/// Number of nodes in the subtree of `n`, or `None` when it reaches
/// `u64::MAX`.
pub fn view_size(n: &ViewNode) -> (r: Option<u64>)
    ensures
        match r {
            Some(s) => s == subtree_size(n) && s < u64::MAX,
            None => subtree_size(n) >= u64::MAX,
        },
    decreases n,
{
    let mut total: u64 = 1;
    let mut i: usize = 0;
    while i < n.children.len()
        invariant
            i <= n.children@.len(),
            total == 1 + forest_size(n, i as int),
            total < u64::MAX,
        decreases n.children@.len() - i,
    {
        let c = &n.children[i];
        assert(forest_size(n, i + 1) == forest_size(n, i as int) + subtree_size(c));
        match view_size(c) {
            Some(k) => {
                if k >= u64::MAX - total {
                    proof {
                        lemma_forest_le_total(n, i + 1);
                    }
                    return None;
                }
                total = total + k;
            },
            None => {
                proof {
                    lemma_forest_le_total(n, i + 1);
                }
                return None;
            },
        }
        i = i + 1;
    }
    Some(total)
}

proof fn lemma_forest_le_total(n: &ViewNode, k: int)
    requires
        0 <= k <= n.children@.len(),
    ensures
        forest_size(n, k) <= forest_size(n, n.children@.len() as int),
    decreases n.children@.len() - k,
{
    if k < n.children@.len() {
        lemma_forest_le_total(n, k + 1);
    }
}

fn kind_rank(kind: LayerKind) -> (r: usize)
    ensures
        r == kind.rank(),
{
    match kind {
        LayerKind::Content => 0,
        LayerKind::Popup => 1,
        LayerKind::Overlay => 2,
        LayerKind::Modal => 3,
        LayerKind::Tooltip => 4,
        LayerKind::System => 5,
    }
}

/// How one command moves the handle and sequence counters.
proof fn lemma_step_counters<G>(m: LayerModel<Anchor<G>>, n: nat, c: LayerCmd<ViewNode, G>)
    ensures
        ({
            let m1 = layers_step(m, n, c);
            match c {
                LayerCmd::Hide { .. } => m1.next_handle == m.next_handle && m1.kind_seq == m.kind_seq,
                LayerCmd::Show { kind, handle, .. } => {
                    &&& m1.kind_seq == m.kind_seq.update(kind.rank(), (m.kind_seq[kind.rank()] + 1) as i32)
                    &&& m1.next_handle == match kind {
                        LayerKind::Modal | LayerKind::Overlay => (m.next_handle + 1) as u64,
                        _ => if handle.0 >= m.next_handle {
                            (handle.0 + 1) as u64
                        } else {
                            m.next_handle
                        },
                    }
                },
            }
        }),
{
    reveal(layers_step);
}

proof fn lemma_unfit<G>(m: LayerModel<Anchor<G>>, n: nat, rest: Seq<LayerCmd<ViewNode, G>>)
    requires
        rest.len() > 0,
        !step_fits(m, n, rest[0]),
    ensures
        !all_fit(m, n, rest),
{
}

/// Whether `apply_layer_commands` can apply `cmds` to `layers` and `tree`
/// without running out of slots, handles or sequence numbers.
pub fn commands_fit<G: Copy>(
    layers: &LayerStack<Anchor<G>>,
    tree: &ElementTree,
    cmds: &Vec<LayerCmd<ViewNode, G>>,
) -> (r: bool)
    requires
        layers.wf(),
    ensures
        r == all_fit(layers@, tree@.slots.len(), cmds@),
{
    let ghost m0 = layers@;
    let ghost n0 = tree@.slots.len();
    let ghost mut m = layers@;
    let mut n: u64 = tree.slot_count() as u64;
    let mut next: u64 = layers.next_handle_value();
    let mut seqs: Vec<i32> = Vec::new();
    seqs.push(layers.next_seq_of(LayerKind::Content));
    seqs.push(layers.next_seq_of(LayerKind::Popup));
    seqs.push(layers.next_seq_of(LayerKind::Overlay));
    seqs.push(layers.next_seq_of(LayerKind::Modal));
    seqs.push(layers.next_seq_of(LayerKind::Tooltip));
    seqs.push(layers.next_seq_of(LayerKind::System));
    assert(seqs@ =~= m.kind_seq);
    let mut i: usize = 0;
    assert(cmds@.subrange(0, cmds@.len() as int) =~= cmds@);
    while i < cmds.len()
        invariant
            i <= cmds@.len(),
            n == n0 + total_size(cmds@.subrange(0, i as int)),
            next == m.next_handle,
            seqs@ == m.kind_seq,
            all_fit(m0, n0, cmds@) == all_fit(m, n as nat, cmds@.subrange(i as int, cmds@.len() as int)),
            m0 == layers@,
            n0 == tree@.slots.len(),
            seqs@.len() == 6,
        decreases cmds@.len() - i,
    {
        let ghost rest = cmds@.subrange(i as int, cmds@.len() as int);
        proof {
            assert(rest[0] == cmds@[i as int]);
            assert(rest.drop_first() =~= cmds@.subrange(i + 1, cmds@.len() as int));
            assert(cmds@.subrange(0, i + 1).drop_last() =~= cmds@.subrange(0, i as int));
            assert(cmds@.subrange(0, i + 1).last() == cmds@[i as int]);
        }
        match &cmds[i] {
            LayerCmd::Hide { .. } => {},
            LayerCmd::Show { kind, payload, handle, .. } => {
                assert(cmd_size(cmds@[i as int]) == subtree_size(payload));
                let size = match view_size(payload) {
                    Some(k) => k,
                    None => {
                        assert(n + cmd_size(rest[0]) >= u64::MAX);
                        assert(!step_fits(m, n as nat, rest[0]));
                        proof { lemma_unfit(m, n as nat, rest); }
                        return false;
                    },
                };
                if size >= u64::MAX - n {
                    assert(n + cmd_size(rest[0]) >= u64::MAX);
                    assert(!step_fits(m, n as nat, rest[0]));
                    proof { lemma_unfit(m, n as nat, rest); }
                    return false;
                }
                let r = kind_rank(*kind);
                let q = seqs[r];
                if q >= i32::MAX - 5000 {
                    proof { lemma_unfit(m, n as nat, rest); }
                    return false;
                }
                match kind {
                    LayerKind::Modal | LayerKind::Overlay => {
                        if next == u64::MAX {
                            proof { lemma_unfit(m, n as nat, rest); }
                            return false;
                        }
                        next = next + 1;
                    },
                    _ => {
                        if handle.0 == u64::MAX {
                            proof { lemma_unfit(m, n as nat, rest); }
                            return false;
                        }
                        if handle.0 >= next {
                            next = handle.0 + 1;
                        }
                    },
                }
                seqs.set(r, q + 1);
                n = n + size;
            },
        }
        proof {
            let c = cmds@[i as int];
            let n1 = (n0 + total_size(cmds@.subrange(0, i as int))) as nat;
            lemma_step_counters(m, n1, c);
            m = layers_step(m, n1, c);
            assert(seqs@ =~= m.kind_seq);
        }
        i = i + 1;
    }
    true
}

/// Applies the queued layer commands in order. A shown modal or overlay
/// replaces the default one of its kind (centred and blocking with a
/// backdrop, or laid out normally and transparent); any other shown layer is
/// pushed under its command's handle with its spec; hiding a modal or an
/// overlay removes the default entry, hiding another kind does nothing. Each
/// shown layer's subtree is built in `tree` from the next free slot on, every
/// node mirroring its view node; the subtree of a default modal or overlay
/// that is hidden or replaced is removed from `tree`. Returns whether a
/// layout pass is needed (some command was applied).
pub fn apply_layer_commands<G: Copy>(
    layers: &mut LayerStack<Anchor<G>>,
    tree: &mut ElementTree,
    cmds: Vec<LayerCmd<ViewNode, G>>,
) -> (needs_layout: bool)
    requires
        old(layers).wf(),
        all_fit(old(layers)@, old(tree)@.slots.len(), cmds@),
    ensures
        final(layers).wf(),
        needs_layout == (cmds@.len() > 0),
        final(layers)@ == layers_after(old(layers)@, old(tree)@.slots.len(), cmds@),
        final(tree)@.slots.len() == old(tree)@.slots.len() + total_size(cmds@),
        exists|ms: Seq<LayerModel<Anchor<G>>>, ts: Seq<TreeModel>|
            #[trigger] commands_chain(cmds@, ms, ts) && ms[0] == old(layers)@ && ts[0] == old(tree)@
                && ms.last() == final(layers)@ && ts.last() == final(tree)@,
{
    let ghost m0 = layers@;
    let ghost t0 = tree@;
    let ghost mut ms: Seq<LayerModel<Anchor<G>>> = seq![m0];
    let ghost mut ts: Seq<TreeModel> = seq![t0];
    let mut i: usize = 0;
    assert(cmds@.subrange(0, cmds@.len() as int) =~= cmds@);
    assert(cmds@.subrange(0, 0) =~= Seq::<LayerCmd<ViewNode, G>>::empty());
    while i < cmds.len()
        invariant
            layers.wf(),
            0 <= i <= cmds@.len(),
            all_fit(layers@, tree@.slots.len(), cmds@.subrange(i as int, cmds@.len() as int)),
            layers_after(layers@, tree@.slots.len(), cmds@.subrange(i as int, cmds@.len() as int))
                == layers_after(m0, t0.slots.len(), cmds@),
            tree@.slots.len() == t0.slots.len() + total_size(cmds@.subrange(0, i as int)),
            commands_chain(cmds@.subrange(0, i as int), ms, ts),
            ms[0] == m0,
            ts[0] == t0,
            ms.last() == layers@,
            ts.last() == tree@,
        decreases cmds@.len() - i,
    {
        let ghost rest = cmds@.subrange(i as int, cmds@.len() as int);
        let ghost m = layers@;
        let ghost t1 = tree@;
        proof {
            assert(rest[0] == cmds@[i as int]);
            assert(rest.drop_first() =~= cmds@.subrange(i + 1, cmds@.len() as int));
            assert(cmds@.subrange(0, i + 1).drop_last() =~= cmds@.subrange(0, i as int));
            assert(cmds@.subrange(0, i + 1).last() == cmds@[i as int]);
        }
        apply_one(layers, tree, &cmds[i]);
        proof {
            let ms0 = ms;
            let ts0 = ts;
            let pre = cmds@.subrange(0, i as int);
            let post = cmds@.subrange(0, i + 1);
            ms = ms.push(layers@);
            ts = ts.push(tree@);
            assert forall|k: int| 0 <= k < post.len() implies ms[k + 1] == layers_step(
                #[trigger] ms[k],
                ts[k].slots.len(),
                post[k],
            ) && tree_step(ms[k], ts[k], post[k], ts[k + 1]) by {
                if k < i {
                    assert(ms[k] == ms0[k] && ms[k + 1] == ms0[k + 1]);
                    assert(ts[k] == ts0[k] && ts[k + 1] == ts0[k + 1]);
                    assert(post[k] == pre[k]);
                } else {
                    assert(ms[k] == m && ts[k] == t1);
                    assert(post[k] == cmds@[i as int]);
                }
            }
        }
        i = i + 1;
    }
    assert(cmds@.subrange(0, cmds@.len() as int) =~= cmds@);
    cmds.len() > 0
}

/// The trees `ts` that removing the subtrees rooted at `rs`, in order, goes
/// through.
pub open spec fn removals_chain(rs: Seq<ElementId>, ts: Seq<TreeModel>) -> bool {
    &&& ts.len() == rs.len() + 1
    &&& forall|k: int| 0 <= k < rs.len() ==> removal_done(#[trigger] ts[k], rs[k], ts[k + 1])
}

/// `t1` is `t0` after removing the subtrees rooted at `rs`, in order.
pub open spec fn roots_dropped(t0: TreeModel, rs: Seq<ElementId>, t1: TreeModel) -> bool {
    exists|ts: Seq<TreeModel>| #[trigger] removals_chain(rs, ts) && ts[0] == t0 && ts.last() == t1
}

/// Removes the subtrees rooted at `roots`, in order.
fn drop_roots(tree: &mut ElementTree, roots: &Vec<ElementId>)
    ensures
        roots_dropped(old(tree)@, roots@, final(tree)@),
{
    let ghost t0 = tree@;
    let ghost mut ts: Seq<TreeModel> = seq![t0];
    let mut i: usize = 0;
    while i < roots.len()
        invariant
            i <= roots@.len(),
            removals_chain(roots@.subrange(0, i as int), ts),
            ts[0] == t0,
            ts.last() == tree@,
        decreases roots@.len() - i,
    {
        let ghost before = tree@;
        tree.remove(roots[i]);
        proof {
            let ts0 = ts;
            ts = ts.push(tree@);
            let post = roots@.subrange(0, i + 1);
            assert forall|k: int| 0 <= k < post.len() implies removal_done(#[trigger] ts[k], post[k], ts[k + 1]) by {
                if k < i {
                    assert(ts[k] == ts0[k] && ts[k + 1] == ts0[k + 1]);
                    assert(post[k] == roots@.subrange(0, i as int)[k]);
                }
            }
        }
        i = i + 1;
    }
    assert(roots@.subrange(0, roots@.len() as int) =~= roots@);
    assert(removals_chain(roots@, ts));
}

/// The layer contents `ms` and trees `ts` that closing the popups `hs` in
/// order goes through.
pub open spec fn hides_chain<G>(hs: Seq<u64>, ms: Seq<LayerModel<Anchor<G>>>, ts: Seq<TreeModel>) -> bool {
    &&& ms.len() == hs.len() + 1
    &&& ts.len() == hs.len() + 1
    &&& forall|k: int| 0 <= k < hs.len() ==> #[trigger] closing_step(ms[k], hs[k], ms[k + 1], ts[k], ts[k + 1])
}

/// Closing the popup `h` takes the layers from `m0` to `m1` and drops the
/// elements of the closed popups from `t0`, giving `t1`.
pub open spec fn closing_step<G>(
    m0: LayerModel<Anchor<G>>,
    h: u64,
    m1: LayerModel<Anchor<G>>,
    t0: TreeModel,
    t1: TreeModel,
) -> bool {
    exists|rs: Seq<ElementId>| closed_popup(m0, h, m1, rs) && #[trigger] roots_dropped(t0, rs, t1)
}

/// One more closed popup extends the chain of closings.
proof fn lemma_hides_step<G>(
    hs: Seq<u64>,
    i: int,
    ms: Seq<LayerModel<Anchor<G>>>,
    ts: Seq<TreeModel>,
    m1: LayerModel<Anchor<G>>,
    t1: TreeModel,
    rs: Seq<ElementId>,
)
    requires
        0 <= i < hs.len(),
        hides_chain(hs.subrange(0, i), ms, ts),
        closed_popup(ms.last(), hs[i], m1, rs),
        roots_dropped(ts.last(), rs, t1),
    ensures
        hides_chain(hs.subrange(0, i + 1), ms.push(m1), ts.push(t1)),
{
    let pre = hs.subrange(0, i);
    let post = hs.subrange(0, i + 1);
    let ms1 = ms.push(m1);
    let ts1 = ts.push(t1);
    assert(pre.len() == i && post.len() == i + 1);
    assert(ms.len() == i + 1 && ts.len() == i + 1);
    assert(ms1.len() == post.len() + 1 && ts1.len() == post.len() + 1);
    assert forall|k: int| 0 <= k < post.len() implies #[trigger] closing_step(
        ms1[k],
        post[k],
        ms1[k + 1],
        ts1[k],
        ts1[k + 1],
    ) by {
        if k < i {
            assert(ms1[k] == ms[k] && ms1[k + 1] == ms[k + 1]);
            assert(ts1[k] == ts[k] && ts1[k + 1] == ts[k + 1]);
            assert(post[k] == pre[k]);
            assert(closing_step(ms[k], pre[k], ms[k + 1], ts[k], ts[k + 1]));
        } else {
            assert(k == i);
            assert(ms1[k] == ms.last() && ts1[k] == ts.last() && post[k] == hs[i]);
            assert(ms1[k + 1] == m1 && ts1[k + 1] == t1);
            assert(closed_popup(ms1[k], post[k], ms1[k + 1], rs) && roots_dropped(ts1[k], rs, ts1[k + 1]));
        }
    }
    assert(hides_chain(post, ms1, ts1));
}

/// Closes the popups queued for closing, in order: each popup goes with its
/// descendant popups, and their element subtrees leave the tree.
#[verifier::spinoff_prover]
pub fn apply_popup_hides<G: Copy>(layers: &mut LayerStack<Anchor<G>>, tree: &mut ElementTree, hides: Vec<u64>)
    requires
        old(layers).wf(),
    ensures
        final(layers).wf(),
        exists|ms: Seq<LayerModel<Anchor<G>>>, ts: Seq<TreeModel>|
            #[trigger] hides_chain(hides@, ms, ts) && ms[0] == old(layers)@ && ts[0] == old(tree)@
                && ms.last() == final(layers)@ && ts.last() == final(tree)@,
{
    let ghost mut ms: Seq<LayerModel<Anchor<G>>> = seq![layers@];
    let ghost mut ts: Seq<TreeModel> = seq![tree@];
    let ghost m0 = layers@;
    let ghost t0 = tree@;
    let mut i: usize = 0;
    assert(hides@.subrange(0, 0) =~= Seq::<u64>::empty());
    while i < hides.len()
        invariant
            layers.wf(),
            i <= hides@.len(),
            hides_chain(hides@.subrange(0, i as int), ms, ts),
            ms[0] == m0,
            ts[0] == t0,
            ms.last() == layers@,
            ts.last() == tree@,
        decreases hides@.len() - i,
    {
        let roots = layers.close_popup(LayerHandle(hides[i]));
        drop_roots(tree, &roots);
        proof {
            lemma_hides_step(hides@, i as int, ms, ts, layers@, tree@, roots@);
            ms = ms.push(layers@);
            ts = ts.push(tree@);
        }
        i = i + 1;
    }
    assert(hides@.subrange(0, hides@.len() as int) =~= hides@);
}

/// The tree states a run of patches goes through, from `t0` to `t1`.
pub open spec fn patched(t0: TreeModel, ps: Seq<Patch>, t1: TreeModel) -> bool {
    exists|chain: Seq<TreeModel>|
        chain.len() == ps.len() + 1 && chain[0] == t0 && chain.last() == t1 && forall|k: int|
            0 <= k < ps.len() ==> patch_applied(#[trigger] chain[k], ps[k], chain[k + 1])
}

/// Builds a new element tree for `view` under a fresh root element; every
/// node mirrors its view node.
fn build_fresh_root(tree: &mut ElementTree, view: &ViewNode) -> (id: ElementId)
    requires
        old(tree)@.slots.len() + subtree_size(view) < u64::MAX,
    ensures
        id.0 == old(tree)@.slots.len(),
        final(tree)@.root == Some(id),
        built_subtree(final(tree)@, id, view),
        node(final(tree)@, id) matches Some(v) && v.parent is None,
{
    let id = tree.create_from_node(view);
    tree.set_root(id);
    let ghost t1 = tree@;
    proof {
        assert(live(t1, id));
        assert(children_of_spec(t1, id).len() == 0);
        lemma_fresh_diff(t1, view, id);
        assert(view.children.len() == view.children@.len());
    }
    let mut r = Reconciler::new();
    let mut p: Vec<Patch> = Vec::new();
    r.diff(view, id, tree, &mut p);
    assert(p@ =~= diff_spec(t1, view, id));
    r.apply(p, tree);
    proof {
        lemma_fresh_root_built(t1, view, id, tree@);
    }
    id
}

/// A fresh root whose view was diffed and applied is built all the way down.
proof fn lemma_fresh_root_built(t1: TreeModel, view: &ViewNode, id: ElementId, t2: TreeModel)
    requires
        id.0 + 1 == t1.slots.len(),
        t1.root == Some(id),
        node(t1, id) matches Some(v) && v.kind == view.kind && v.key == view.key && v.config == view.config
            && v.listeners == view.listeners@ && v.parent is None && v.children.len() == 0,
        t1.slots.len() + forest_size(view, view.children@.len() as int) < u64::MAX,
        exists|chain: Seq<TreeModel>|
            chain.len() == diff_spec(t1, view, id).len() + 1 && chain[0] == t1 && chain.last() == t2
                && forall|k: int|
                0 <= k < diff_spec(t1, view, id).len() ==> patch_applied(
                    #[trigger] chain[k],
                    diff_spec(t1, view, id)[k],
                    chain[k + 1],
                ),
    ensures
        t2.root == Some(id),
        built_subtree(t2, id, view),
        node(t2, id) matches Some(v) && v.parent is None,
{
    let ps = diff_spec(t1, view, id);
    let chain = choose|chain: Seq<TreeModel>|
        chain.len() == ps.len() + 1 && chain[0] == t1 && chain.last() == t2 && forall|k: int|
            0 <= k < ps.len() ==> patch_applied(#[trigger] chain[k], ps[k], chain[k + 1]);
    assert(children_of_spec(t1, id) =~= node(t1, id)->0.children);
    lemma_fresh_children_follow_view(t1, view, id, chain);
}

/// Reconciles `view` against the existing element `rid`.
fn reconcile_existing(tree: &mut ElementTree, view: &ViewNode, rid: ElementId) -> (s: ReconcilerStats)
    requires
        diff_spec(old(tree)@, view, rid).len() <= usize::MAX,
        old(tree)@.slots.len() + creation_size(
            diff_spec(old(tree)@, view, rid),
            diff_spec(old(tree)@, view, rid).len() as int,
        ) < u64::MAX,
    ensures
        stats_tuple(s) == counted(
            ReconcilerStats { created: 0, updated: 0, removed: 0, moved: 0 },
            diff_spec(old(tree)@, view, rid),
        ),
        patched(old(tree)@, diff_spec(old(tree)@, view, rid), final(tree)@),
        law_applies(old(tree)@, view, rid) ==> children_follow(old(tree)@, final(tree)@, rid, view),
        built_subtree(old(tree)@, rid, view) && rid.0 + subtree_size(view) <= u64::MAX ==> stats_tuple(s) == (
            0int,
            0int,
            0int,
            0int,
        ),
{
    let ghost t0 = tree@;
    let mut r = Reconciler::new();
    let mut p: Vec<Patch> = Vec::new();
    r.diff(view, rid, tree, &mut p);
    assert(p@ =~= diff_spec(t0, view, rid));
    let s = r.stats;
    r.apply(p, tree);
    proof {
        if law_applies(t0, view, rid) {
            let ps = diff_spec(t0, view, rid);
            let chain = choose|chain: Seq<TreeModel>|
                chain.len() == ps.len() + 1 && chain[0] == t0 && chain.last() == tree@ && forall|k: int|
                    0 <= k < ps.len() ==> patch_applied(#[trigger] chain[k], ps[k], chain[k + 1]);
            lemma_reconciled_children_follow_view(t0, view, rid, chain);
        }
        if built_subtree(t0, rid, view) && rid.0 + subtree_size(view) <= u64::MAX {
            lemma_rebuild_only_refreshes_listeners(t0, view, rid);
        }
    }
    s
}

/// Reconciles the content layer with a freshly built view. On the first
/// frame (the content layer has no root yet) a root element is created for
/// the view, made the root of the tree and of the content layer, and the
/// view's whole subtree is built under it, every node mirroring its view
/// node. Afterwards the view is
/// reconciled against the content root, and the reconciliation counters are
/// returned; they are all zero when the content root still mirrors the view.
pub fn reconcile_content<G: Copy>(
    layers: &mut LayerStack<Anchor<G>>,
    tree: &mut ElementTree,
    view: &ViewNode,
) -> (stats: Option<ReconcilerStats>)
    requires
        old(layers).wf(),
        match root_of(old(layers)@.entries, old(layers)@.content) {
            None => {
                &&& old(tree)@.slots.len() + subtree_size(view) < u64::MAX
                &&& old(layers)@.content is None ==> old(layers)@.next_handle < u64::MAX
                    && old(layers)@.kind_seq[LayerKind::Content.rank()] < seq_limit()
            },
            Some(rid) => {
                &&& diff_spec(old(tree)@, view, rid).len() <= usize::MAX
                &&& old(tree)@.slots.len() + creation_size(
                    diff_spec(old(tree)@, view, rid),
                    diff_spec(old(tree)@, view, rid).len() as int,
                ) < u64::MAX
            },
        },
    ensures
        final(layers).wf(),
        match root_of(old(layers)@.entries, old(layers)@.content) {
            None => {
                let id = ElementId(old(tree)@.slots.len() as u64);
                &&& stats is None
                &&& final(layers)@ == content_root_set(old(layers)@, id, Anchor::Unanchored)
                &&& final(tree)@.root == Some(id)
                &&& built_subtree(final(tree)@, id, view)
                &&& node(final(tree)@, id) matches Some(v) && v.parent is None
            },
            Some(rid) => {
                &&& final(layers)@ == old(layers)@
                &&& stats matches Some(s) && stats_tuple(s) == counted(
                    ReconcilerStats { created: 0, updated: 0, removed: 0, moved: 0 },
                    diff_spec(old(tree)@, view, rid),
                )
                &&& patched(old(tree)@, diff_spec(old(tree)@, view, rid), final(tree)@)
                &&& law_applies(old(tree)@, view, rid) ==> children_follow(old(tree)@, final(tree)@, rid, view)
                &&& built_subtree(old(tree)@, rid, view) && rid.0 + subtree_size(view) <= u64::MAX ==> stats
                    == Some(ReconcilerStats { created: 0, updated: 0, removed: 0, moved: 0 })
            },
        },
{
    match layers.content_root_id() {
        None => {
            let id = build_fresh_root(tree, view);
            layers.set_content_root(id, Anchor::Unanchored);
            None
        },
        Some(rid) => Some(reconcile_existing(tree, view, rid)),
    }
}


} // verus!
