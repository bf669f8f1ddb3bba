//! Reconciliation: the patches that turn the element tree under a parent
//! into the shape of a freshly built view tree, reusing existing elements.
//!
//! Each view child is matched to an existing child element: first by key,
//! then by kind at the same position, then by kind anywhere. A matched
//! element is moved when it sits elsewhere, updated when its configuration
//! changed (or only given fresh listeners), and reconciled recursively;
//! unmatched view children are created and unmatched elements removed.

use vstd::prelude::*;
use crate::effects::ElementId;
use crate::event_types::EventType;
use crate::tree::{
    ElementTree, ElementState, EntryView, NodeKind, TreeModel, ViewNode, children_of_spec, clamped,
    key_seq, live, node, same_outside, moved_node, removal_done,
};

verus! {

/// One change to the element tree.
#[derive(Clone, Copy)]
pub enum Patch<'a> {
    /// Create the subtree of `node` as child `position` of `parent`.
    Create { parent: ElementId, position: usize, node: &'a ViewNode },
    /// Give the element the configuration of `node`.
    Update { id: ElementId, node: &'a ViewNode },
    /// Remove the element and its subtree.
    Remove { id: ElementId },
    /// Move the element to child `position` of `parent`, keeping it.
    Move { id: ElementId, parent: ElementId, position: usize },
    /// Give the element the listeners of `node` only.
    UpdateListeners { id: ElementId, node: &'a ViewNode },
}

/// Counters of the patches produced.
#[derive(Debug, Clone, Copy, PartialEq, Eq, Structural)]
pub struct ReconcilerStats {
    pub created: usize,
    pub updated: usize,
    pub removed: usize,
    pub moved: usize,
}

impl Default for ReconcilerStats {
    fn default() -> (r: Self)
        ensures
            r == (ReconcilerStats { created: 0, updated: 0, removed: 0, moved: 0 }),
    {
        ReconcilerStats { created: 0, updated: 0, removed: 0, moved: 0 }
    }
}

/// `id` is alive and carries the key `k`.
pub open spec fn keyed(t: TreeModel, id: ElementId, k: Seq<char>) -> bool {
    node(t, id) matches Some(v) && key_seq(v.key) == Some(k)
}

/// `id` is alive and of kind `kind`.
pub open spec fn of_kind(t: TreeModel, id: ElementId, kind: NodeKind) -> bool {
    node(t, id) matches Some(v) && v.kind == kind
}

/// The first element of `ex[i..]` not in `used` that carries the key `k`.
pub open spec fn first_free_keyed(
    t: TreeModel,
    ex: Seq<ElementId>,
    used: Set<ElementId>,
    k: Seq<char>,
    i: int,
) -> Option<ElementId>
    decreases ex.len() - i,
{
    if i < 0 || i >= ex.len() {
        None
    } else if !used.contains(ex[i]) && keyed(t, ex[i], k) {
        Some(ex[i])
    } else {
        first_free_keyed(t, ex, used, k, i + 1)
    }
}

/// The first element of `ex[i..]` not in `used` that is of kind `kind`.
pub open spec fn first_free_of_kind(
    t: TreeModel,
    ex: Seq<ElementId>,
    used: Set<ElementId>,
    kind: NodeKind,
    i: int,
) -> Option<ElementId>
    decreases ex.len() - i,
{
    if i < 0 || i >= ex.len() {
        None
    } else if !used.contains(ex[i]) && of_kind(t, ex[i], kind) {
        Some(ex[i])
    } else {
        first_free_of_kind(t, ex, used, kind, i + 1)
    }
}

/// The existing element that the view child `v` at `pos` reuses, given the
/// elements already taken: by key, else the element at the same position if
/// it has the same kind, else the first free element of the same kind.
pub open spec fn match_for(
    t: TreeModel,
    ex: Seq<ElementId>,
    used: Set<ElementId>,
    v: ViewNode,
    pos: int,
) -> Option<ElementId> {
    let by_key = match v.key {
        Some(k) => first_free_keyed(t, ex, used, k@, 0),
        None => None,
    };
    if by_key is Some {
        by_key
    } else if 0 <= pos < ex.len() && !used.contains(ex[pos]) && of_kind(t, ex[pos], v.kind) {
        Some(ex[pos])
    } else {
        first_free_of_kind(t, ex, used, v.kind, 0)
    }
}

/// The elements taken by the first `k` view children.
pub open spec fn taken(t: TreeModel, ex: Seq<ElementId>, kids: Seq<ViewNode>, k: int) -> Set<ElementId>
    decreases k,
{
    if k <= 0 {
        Set::empty()
    } else {
        let u = taken(t, ex, kids, k - 1);
        match match_for(t, ex, u, kids[k - 1], k - 1) {
            Some(id) => u.insert(id),
            None => u,
        }
    }
}

/// Position of the first occurrence of `x` in `s`, from `i` on (-1 when absent).
pub open spec fn position_of(s: Seq<ElementId>, x: ElementId, i: int) -> int
    decreases s.len() - i,
{
    if i < 0 || i >= s.len() {
        -1
    } else if s[i] == x {
        i
    } else {
        position_of(s, x, i + 1)
    }
}

/// The patches that reuse `id` for the view child `c` at `pos` under
/// `parent`, before the child's own subtree is reconciled.
pub open spec fn reuse_patches<'a>(
    t: TreeModel,
    ex: Seq<ElementId>,
    c: &'a ViewNode,
    parent: ElementId,
    pos: int,
    id: ElementId,
) -> Seq<Patch<'a>> {
    let cur = position_of(ex, id, 0);
    let mv = if cur >= 0 && cur != pos {
        seq![Patch::Move { id, parent, position: pos as usize }]
    } else {
        Seq::empty()
    };
    let same = match node(t, id) {
        Some(v) => v.kind == c.kind && key_seq(v.key) == key_seq(c.key) && v.config == c.config,
        None => false,
    };
    let up = if !same {
        seq![Patch::Update { id, node: c }]
    } else if c.listeners@.len() > 0 {
        seq![Patch::UpdateListeners { id, node: c }]
    } else {
        Seq::empty()
    };
    mv + up
}

/// Removals of the live elements of `ex[..i]` that no view child took, in order.
pub open spec fn removals<'a>(t: TreeModel, ex: Seq<ElementId>, used: Set<ElementId>, i: int) -> Seq<
    Patch<'a>,
>
    decreases i,
{
    if i <= 0 {
        Seq::empty()
    } else {
        let p = removals(t, ex, used, i - 1);
        if !used.contains(ex[i - 1]) && live(t, ex[i - 1]) {
            p.push(Patch::Remove { id: ex[i - 1] })
        } else {
            p
        }
    }
}

/// All patches that reconcile the children of `parent` with the children of
/// the view node `n`, recursively: for each view child in order, either its
/// creation or the patches reusing its match followed by the patches of its
/// own subtree; then the removal of the existing children nobody took.
pub open spec fn diff_spec<'a>(t: TreeModel, n: &'a ViewNode, parent: ElementId) -> Seq<Patch<'a>>
    decreases n, 1int, 0int,
{
    let ex = children_of_spec(t, parent);
    let kids = n.children@;
    child_patches(t, n, parent, kids.len() as int) + removals(
        t,
        ex,
        taken(t, ex, kids, kids.len() as int),
        ex.len() as int,
    )
}

/// The patches for the first `k` view children of `n`.
pub open spec fn child_patches<'a>(t: TreeModel, n: &'a ViewNode, parent: ElementId, k: int) -> Seq<
    Patch<'a>,
>
    decreases n, 0int, k,
{
    if k <= 0 || k > n.children@.len() {
        Seq::empty()
    } else {
        let ex = children_of_spec(t, parent);
        let kids = n.children@;
        let c = &kids[k - 1];
        let prev = child_patches(t, n, parent, k - 1);
        match match_for(t, ex, taken(t, ex, kids, k - 1), *c, k - 1) {
            Some(id) => prev + reuse_patches(t, ex, c, parent, k - 1, id) + diff_spec(t, c, id),
            None => prev.push(Patch::Create { parent, position: (k - 1) as usize, node: c }),
        }
    }
}

/// How many patches of each kind: (created, updated, removed, moved).
pub open spec fn patch_counts<'a>(ps: Seq<Patch<'a>>) -> (nat, nat, nat, nat)
    decreases ps.len(),
{
    if ps.len() == 0 {
        (0, 0, 0, 0)
    } else {
        let (c, u, r, m) = patch_counts(ps.drop_last());
        match ps.last() {
            Patch::Create { .. } => (c + 1, u, r, m),
            Patch::Update { .. } => (c, u + 1, r, m),
            Patch::Remove { .. } => (c, u, r + 1, m),
            Patch::Move { .. } => (c, u, r, m + 1),
            Patch::UpdateListeners { .. } => (c, u, r, m),
        }
    }
}

/// Counters advanced by the patches `ps`.
pub open spec fn counted<'a>(s: ReconcilerStats, ps: Seq<Patch<'a>>) -> (int, int, int, int) {
    let (c, u, r, m) = patch_counts(ps);
    (s.created + c, s.updated + u, s.removed + r, s.moved + m)
}

/// The counters as a tuple.
pub open spec fn stats_tuple(s: ReconcilerStats) -> (int, int, int, int) {
    (s.created as int, s.updated as int, s.removed as int, s.moved as int)
}

/// Sum of the counters.
pub open spec fn stats_sum(s: ReconcilerStats) -> int {
    s.created + s.updated + s.removed + s.moved
}

pub proof fn lemma_patch_counts_append<'a>(a: Seq<Patch<'a>>, b: Seq<Patch<'a>>)
    ensures
        ({
            let (c1, u1, r1, m1) = patch_counts(a);
            let (c2, u2, r2, m2) = patch_counts(b);
            patch_counts(a + b) == (c1 + c2, u1 + u2, r1 + r2, m1 + m2)
        }),
    decreases b.len(),
{
    if b.len() == 0 {
        assert(a + b =~= a);
    } else {
        lemma_patch_counts_append(a, b.drop_last());
        assert((a + b).drop_last() =~= a + b.drop_last());
        assert((a + b).last() == b.last());
    }
}

pub proof fn lemma_patch_counts_bound<'a>(a: Seq<Patch<'a>>)
    ensures
        ({
            let (c, u, r, m) = patch_counts(a);
            c + u + r + m <= a.len()
        }),
    decreases a.len(),
{
    if a.len() > 0 {
        lemma_patch_counts_bound(a.drop_last());
    }
}

/// The set of elements in `s`.
pub open spec fn as_set(s: Seq<ElementId>) -> Set<ElementId> {
    Set::new(|x: ElementId| s.contains(x))
}

fn contains_elem(v: &Vec<ElementId>, x: ElementId) -> (r: bool)
    ensures
        r == v@.contains(x),
{
    let mut i: usize = 0;
    while i < v.len()
        invariant
            i <= v.len(),
            forall|j: int| 0 <= j < i ==> v@[j] != x,
        decreases v.len() - i,
    {
        if v[i] == x {
            assert(v@[i as int] == x);
            return true;
        }
        i = i + 1;
    }
    false
}

fn position_in(v: &Vec<ElementId>, x: ElementId) -> (r: Option<usize>)
    ensures
        match r {
            Some(i) => i == position_of(v@, x, 0),
            None => position_of(v@, x, 0) == -1,
        },
{
    let mut i: usize = 0;
    while i < v.len()
        invariant
            i <= v.len(),
            position_of(v@, x, 0) == position_of(v@, x, i as int),
        decreases v.len() - i,
    {
        if v[i] == x {
            return Some(i);
        }
        i = i + 1;
    }
    None
}

fn is_keyed(tree: &ElementTree, id: ElementId, k: &String) -> (r: bool)
    ensures
        r == keyed(tree@, id, k@),
{
    match tree.key_of(id) {
        Some(s) => s == *k,
        None => false,
    }
}

fn is_of_kind(tree: &ElementTree, id: ElementId, kind: NodeKind) -> (r: bool)
    ensures
        r == of_kind(tree@, id, kind),
{
    match tree.node_type_of(id) {
        Some(k) => k == kind,
        None => false,
    }
}

fn find_match(
    v: &ViewNode,
    pos: usize,
    existing: &Vec<ElementId>,
    used: &Vec<ElementId>,
    tree: &ElementTree,
) -> (r: Option<ElementId>)
    ensures
        r == match_for(tree@, existing@, as_set(used@), *v, pos as int),
{
    let ghost t = tree@;
    let ghost u = as_set(used@);
    if let Some(k) = &v.key {
        let mut i: usize = 0;
        while i < existing.len()
            invariant
                t == tree@,
                u == as_set(used@),
                v.key == Some(*k),
                i <= existing.len(),
                first_free_keyed(t, existing@, u, k@, 0) == first_free_keyed(
                    t,
                    existing@,
                    u,
                    k@,
                    i as int,
                ),
            decreases existing.len() - i,
        {
            let id = existing[i];
            if !contains_elem(used, id) && is_keyed(tree, id, k) {
                assert(!u.contains(id));
                assert(first_free_keyed(t, existing@, u, k@, i as int) == Some(id));
                assert(v.key == Some(*k));
                assert(match_for(t, existing@, u, *v, pos as int) == Some(id));
                return Some(id);
            }
            assert(!(!u.contains(id) && keyed(t, id, k@)));
            i = i + 1;
        }
        assert(first_free_keyed(t, existing@, u, k@, 0) is None);
    }
    if pos < existing.len() && !contains_elem(used, existing[pos]) && is_of_kind(
        tree,
        existing[pos],
        v.kind,
    ) {
        assert(!u.contains(existing@[pos as int]));
        return Some(existing[pos]);
    }
    assert(!(0 <= pos < existing@.len() && !u.contains(existing@[pos as int]) && of_kind(
        t,
        existing@[pos as int],
        v.kind,
    )));
    assert(match_for(t, existing@, u, *v, pos as int) == first_free_of_kind(t, existing@, u, v.kind, 0));
    let mut i: usize = 0;
    while i < existing.len()
        invariant
            t == tree@,
            u == as_set(used@),
            match_for(t, existing@, u, *v, pos as int) == first_free_of_kind(t, existing@, u, v.kind, 0),
            i <= existing.len(),
            first_free_of_kind(t, existing@, u, v.kind, 0) == first_free_of_kind(
                t,
                existing@,
                u,
                v.kind,
                i as int,
            ),
        decreases existing.len() - i,
    {
        let id = existing[i];
        if !contains_elem(used, id) && is_of_kind(tree, id, v.kind) {
            assert(!u.contains(id));
            assert(first_free_of_kind(t, existing@, u, v.kind, i as int) == Some(id));
            assert(match_for(t, existing@, u, *v, pos as int) == Some(id));
            return Some(id);
        }
        assert(!(!u.contains(id) && of_kind(t, id, v.kind)));
        i = i + 1;
    }
    None
}

proof fn lemma_counts_push<'a>(ps: Seq<Patch<'a>>, p: Patch<'a>)
    ensures
        ({
            let (c, u, r, m) = patch_counts(ps);
            patch_counts(ps.push(p)) == match p {
                Patch::Create { .. } => (c + 1, u, r, m),
                Patch::Update { .. } => (c, u + 1, r, m),
                Patch::Remove { .. } => (c, u, r + 1, m),
                Patch::Move { .. } => (c, u, r, m + 1),
                Patch::UpdateListeners { .. } => (c, u, r, m),
            }
        }),
{
    assert(ps.push(p).drop_last() =~= ps);
}

proof fn lemma_child_patches_mono<'a>(t: TreeModel, n: &'a ViewNode, parent: ElementId, k: int, m: int)
    requires
        0 <= k <= m <= n.children@.len(),
    ensures
        child_patches(t, n, parent, k).len() <= child_patches(t, n, parent, m).len(),
    decreases m - k,
{
    if k < m {
        lemma_child_patches_mono(t, n, parent, k, m - 1);
    }
}

proof fn lemma_removals_mono<'a>(
    t: TreeModel,
    ex: Seq<ElementId>,
    used: Set<ElementId>,
    k: int,
    m: int,
    n: &'a ViewNode,
)
    requires
        0 <= k <= m,
    ensures
        removals::<'a>(t, ex, used, k).len() <= removals::<'a>(t, ex, used, m).len(),
    decreases m - k,
{
    if k < m {
        lemma_removals_mono(t, ex, used, k, m - 1, n);
    }
}

/// Diffs view trees against the element tree and applies the patches.
pub struct Reconciler {
    pub stats: ReconcilerStats,
}

impl Reconciler {
    pub fn new() -> (r: Self)
        ensures
            r.stats == (ReconcilerStats { created: 0, updated: 0, removed: 0, moved: 0 }),
    {
        Reconciler { stats: ReconcilerStats::default() }
    }

    /// Emits the patches that reuse `id` for the view child `child`.
    fn emit_reuse<'a>(
        &mut self,
        existing: &Vec<ElementId>,
        id: ElementId,
        child: &'a ViewNode,
        parent_id: ElementId,
        pos: usize,
        tree: &ElementTree,
        patches: &mut Vec<Patch<'a>>,
    )
        requires
            stats_sum(old(self).stats) + reuse_patches(tree@, existing@, child, parent_id, pos as int, id).len()
                <= usize::MAX,
        ensures
            final(patches)@ == old(patches)@ + reuse_patches(tree@, existing@, child, parent_id, pos as int, id),
            stats_tuple(final(self).stats) == counted(
                old(self).stats,
                reuse_patches(tree@, existing@, child, parent_id, pos as int, id),
            ),
    {
        let ghost reuse = reuse_patches(tree@, existing@, child, parent_id, pos as int, id);
        let mut moved = false;
        if let Some(cur) = position_in(existing, id) {
            if cur != pos {
                patches.push(Patch::Move { id, parent: parent_id, position: pos });
                self.stats.moved = self.stats.moved + 1;
                moved = true;
            }
        }
        let ghost mv: Seq<Patch<'a>> = if moved {
            seq![Patch::Move { id, parent: parent_id, position: pos }]
        } else {
            Seq::empty()
        };
        proof {
            lemma_counts_push(Seq::<Patch<'a>>::empty(), Patch::Move { id, parent: parent_id, position: pos });
            assert(patch_counts(Seq::<Patch<'a>>::empty()) == (0nat, 0nat, 0nat, 0nat));
            assert(seq![Patch::Move { id, parent: parent_id, position: pos }] =~= Seq::<Patch<'a>>::empty().push(
                Patch::Move { id, parent: parent_id, position: pos },
            ));
        }
        if !tree.config_eq(id, child) {
            proof {
                lemma_counts_push(mv, Patch::Update { id, node: child });
            }
            patches.push(Patch::Update { id, node: child });
            self.stats.updated = self.stats.updated + 1;
            assert(reuse =~= mv.push(Patch::Update { id, node: child }));
        } else if child.listeners.len() > 0 {
            proof {
                lemma_counts_push(mv, Patch::UpdateListeners { id, node: child });
            }
            patches.push(Patch::UpdateListeners { id, node: child });
            assert(reuse =~= mv.push(Patch::UpdateListeners { id, node: child }));
        } else {
            assert(reuse =~= mv);
        }
        assert(patches@ =~= old(patches)@ + reuse);
    }

    /// Appends to `patches` the patches that reconcile the children of
    /// `parent_id` with the children of `view_node`, and counts them.
    pub fn diff<'a>(
        &mut self,
        view_node: &'a ViewNode,
        parent_id: ElementId,
        tree: &ElementTree,
        patches: &mut Vec<Patch<'a>>,
    )
        requires
            stats_sum(old(self).stats) + diff_spec(tree@, view_node, parent_id).len() <= usize::MAX,
        ensures
            final(patches)@ == old(patches)@ + diff_spec(tree@, view_node, parent_id),
            stats_tuple(final(self).stats) == counted(
                old(self).stats,
                diff_spec(tree@, view_node, parent_id),
            ),
        decreases view_node, 1int, 0int,
    {
        let ghost t = tree@;
        let ghost start = patches@;
        let ghost total = diff_spec(t, view_node, parent_id);
        let ghost s0 = self.stats;
        let ghost kids = view_node.children@;
        let existing = tree.children_of(parent_id);
        let mut used: Vec<ElementId> = Vec::new();
        let mut pos: usize = 0;
        proof {
            assert(as_set(used@) =~= Set::<ElementId>::empty());
            assert(patches@ =~= start + child_patches(t, view_node, parent_id, 0));
        }
        while pos < view_node.children.len()
            invariant
                t == tree@,
                kids == view_node.children@,
                existing@ == children_of_spec(t, parent_id),
                pos <= kids.len(),
                as_set(used@) == taken(t, existing@, kids, pos as int),
                patches@ == start + child_patches(t, view_node, parent_id, pos as int),
                stats_tuple(self.stats) == counted(
                    s0,
                    child_patches(t, view_node, parent_id, pos as int),
                ),
                total == diff_spec(t, view_node, parent_id),
                stats_sum(s0) + total.len() <= usize::MAX,
            decreases kids.len() - pos,
        {
            let ghost prefix = child_patches(t, view_node, parent_id, pos as int);
            let ghost next = child_patches(t, view_node, parent_id, pos + 1);
            proof {
                lemma_child_patches_mono(t, view_node, parent_id, pos + 1, kids.len() as int);
                lemma_patch_counts_bound(prefix);
                lemma_patch_counts_bound(next);
            }
            let child = &view_node.children[pos];
            let m = find_match(child, pos, &existing, &used, tree);
            match m {
                Some(id) => {
                    let ghost reuse = reuse_patches(t, existing@, child, parent_id, pos as int, id);
                    let ghost sub = diff_spec(t, child, id);
                    assert(next == prefix + reuse + sub);
                    let ghost before_used = used@;
                    used.push(id);
                    proof {
                        assert forall|x: ElementId| as_set(used@).contains(x) == as_set(before_used).insert(id).contains(x) by {
                            crate::seqs::lemma_push_contains(before_used, id, x);
                        }
                        assert(as_set(used@) =~= as_set(before_used).insert(id));
                    }
                    proof {
                        lemma_patch_counts_bound(prefix + reuse);
                        lemma_patch_counts_append(prefix, reuse);
                        assert((prefix + reuse).len() <= next.len()) by {
                            assert(next =~= (prefix + reuse) + sub);
                        }
                    }
                    self.emit_reuse(&existing, id, child, parent_id, pos, tree, patches);
                    proof {
                        assert(patches@ =~= start + (prefix + reuse));
                        lemma_patch_counts_bound(prefix + reuse);
                        lemma_patch_counts_append(prefix + reuse, sub);
                        lemma_patch_counts_bound(sub);
                        assert(prefix + reuse + sub =~= next);
                    }
                    self.diff(child, id, tree, patches);
                    proof {
                        assert(patches@ =~= start + next);
                    }
                },
                None => {
                    assert(next == prefix.push(Patch::Create { parent: parent_id, position: pos, node: child }));
                    proof {
                        lemma_counts_push(prefix, Patch::Create { parent: parent_id, position: pos, node: child });
                    }
                    patches.push(Patch::Create { parent: parent_id, position: pos, node: child });
                    self.stats.created = self.stats.created + 1;
                },
            }
            pos = pos + 1;
        }
        let ghost cp = child_patches(t, view_node, parent_id, kids.len() as int);
        let ghost used_set = taken(t, existing@, kids, kids.len() as int);
        let mut i: usize = 0;
        proof {
            assert(cp + removals(t, existing@, used_set, 0) =~= cp);
        }
        while i < existing.len()
            invariant
                t == tree@,
                existing@ == children_of_spec(t, parent_id),
                as_set(used@) == used_set,
                i <= existing@.len(),
                cp == child_patches(t, view_node, parent_id, kids.len() as int),
                used_set == taken(t, existing@, kids, kids.len() as int),
                patches@ == start + cp + removals(t, existing@, used_set, i as int),
                stats_tuple(self.stats) == counted(s0, cp + removals(t, existing@, used_set, i as int)),
                total == cp + removals(t, existing@, used_set, existing@.len() as int),
                stats_sum(s0) + total.len() <= usize::MAX,
            decreases existing@.len() - i,
        {
            let id = existing[i];
            let ghost before = cp + removals(t, existing@, used_set, i as int);
            if !contains_elem(&used, id) && tree.contains(id) {
                proof {
                    lemma_counts_push(before, Patch::Remove { id });
                    lemma_patch_counts_bound(before);
                    lemma_removals_mono(t, existing@, used_set, i + 1, existing@.len() as int, view_node);
                    assert(removals(t, existing@, used_set, i + 1) == removals(t, existing@, used_set, i as int).push(
                        Patch::Remove { id },
                    ));
                    assert(before.push(Patch::Remove { id }) =~= cp + removals(t, existing@, used_set, i + 1));
                }
                patches.push(Patch::Remove { id });
                self.stats.removed = self.stats.removed + 1;
            }
            i = i + 1;
        }
    }
}

/// Number of nodes in the subtree of `n`.
pub open spec fn subtree_size(n: &ViewNode) -> nat
    decreases n, 1int, 0int,
{
    1 + forest_size(n, n.children@.len() as int)
}

/// Number of nodes in the subtrees of the first `k` children of `n`.
pub open spec fn forest_size(n: &ViewNode, k: int) -> nat
    decreases n, 0int, k,
{
    if k <= 0 || k > n.children@.len() {
        0
    } else {
        forest_size(n, k - 1) + subtree_size(&n.children@[k - 1])
    }
}

/// The views of more children hold more nodes.
pub proof fn lemma_forest_mono(n: &ViewNode, k: int, m: int)
    requires
        0 <= k <= m <= n.children@.len(),
    ensures
        forest_size(n, k) <= forest_size(n, m),
    decreases m - k,
{
    if k < m {
        lemma_forest_mono(n, k, m - 1);
    }
}

/// The element `c` hangs under `p` and its subtree mirrors `n`.
pub open spec fn child_built(t: TreeModel, p: ElementId, c: ElementId, n: &ViewNode) -> bool
    decreases n, 1int,
{
    &&& node(t, c) matches Some(cv) && cv.parent == Some(p)
    &&& built_subtree(t, c, n)
}

/// The element `id` and everything below it mirror the view node `n`: the
/// element has `n`'s kind, key, configuration and listeners and one child
/// per child of `n`; child `i` sits in the slot right after the subtrees of
/// the children before it, hangs under `id`, and mirrors child `i` of `n` in
/// turn. The whole subtree fills the slots `id .. id + subtree_size(n)`.
pub open spec fn built_subtree(t: TreeModel, id: ElementId, n: &ViewNode) -> bool
    decreases n, 0int,
{
    &&& node(t, id) matches Some(v) && v.kind == n.kind && v.key == n.key && v.config == n.config
        && v.listeners == n.listeners@ && v.children.len() == n.children@.len() && forall|i: int|
        0 <= i < n.children@.len() ==> #[trigger] v.children[i] == ElementId(
            (id.0 + 1 + forest_size(n, i)) as u64,
        )
    &&& forall|i: int|
        0 <= i < n.children@.len() ==> child_built(
            t,
            id,
            ElementId((id.0 + 1 + forest_size(n, i)) as u64),
            #[trigger] &n.children@[i],
        )
}

/// A built subtree stays built when no element of its slot range changes,
/// except perhaps the parent link of its root.
#[verifier::spinoff_prover]
#[verifier::rlimit(40)]
pub proof fn lemma_built_frame(t1: TreeModel, t2: TreeModel, id: ElementId, n: &ViewNode)
    requires
        built_subtree(t1, id, n),
        id.0 + subtree_size(n) <= u64::MAX,
        forall|x: ElementId|
            id.0 < x.0 < id.0 + subtree_size(n) ==> #[trigger] node(t2, x) == node(t1, x),
        node(t2, id) matches Some(v2) && node(t1, id) matches Some(v1) && v2 == (EntryView {
            parent: v2.parent,
            ..v1
        }),
    ensures
        built_subtree(t2, id, n),
    decreases n, 1int,
{
    let kids = n.children@;
    assert forall|i: int| 0 <= i < kids.len() implies child_built(
        t2,
        id,
        ElementId((id.0 + 1 + forest_size(n, i)) as u64),
        #[trigger] &kids[i],
    ) by {
        lemma_built_frame_child(t1, t2, id, n, i);
    }
}

#[verifier::spinoff_prover]
#[verifier::rlimit(40)]
proof fn lemma_built_frame_child(t1: TreeModel, t2: TreeModel, id: ElementId, n: &ViewNode, i: int)
    requires
        0 <= i < n.children@.len(),
        built_subtree(t1, id, n),
        id.0 + subtree_size(n) <= u64::MAX,
        forall|x: ElementId|
            id.0 < x.0 < id.0 + subtree_size(n) ==> #[trigger] node(t2, x) == node(t1, x),
    ensures
        child_built(t2, id, ElementId((id.0 + 1 + forest_size(n, i)) as u64), &n.children@[i]),
    decreases n, 0int,
{
    let kids = n.children@;
    let c = ElementId((id.0 + 1 + forest_size(n, i)) as u64);
    assert(child_built(t1, id, c, &kids[i]));
    lemma_forest_mono(n, i + 1, kids.len() as int);
    assert(forest_size(n, i + 1) == forest_size(n, i) + subtree_size(&kids[i]));
    assert(subtree_size(n) == 1 + forest_size(n, kids.len() as int));
    assert(c.0 == id.0 + 1 + forest_size(n, i));
    assert forall|x: ElementId| c.0 < x.0 < c.0 + subtree_size(&kids[i]) implies #[trigger] node(t2, x) == node(
        t1,
        x,
    ) by {}
    assert(node(t2, c) == node(t1, c));
    lemma_built_frame(t1, t2, c, &kids[i]);
}

/// The child of `n` whose subtree holds the `y`-th slot after `n`'s own.
proof fn lemma_find_child(n: &ViewNode, y: int, k: int) -> (i: int)
    requires
        0 <= k <= n.children@.len(),
        0 <= y < forest_size(n, k),
    ensures
        0 <= i < k,
        forest_size(n, i) <= y < forest_size(n, i + 1),
    decreases k,
{
    if y >= forest_size(n, k - 1) {
        k - 1
    } else {
        lemma_find_child(n, y, k - 1)
    }
}

/// The root of a built subtree lists children after itself, inside the
/// subtree.
proof fn lemma_built_root_lists(t: TreeModel, id: ElementId, n: &ViewNode)
    requires
        built_subtree(t, id, n),
        id.0 + subtree_size(n) <= u64::MAX,
    ensures
        live(t, id),
        forall|y: ElementId| #[trigger] children_of_spec(t, id).contains(y) ==> id.0 < y.0 < id.0 + subtree_size(n),
{
    let kids = n.children@;
    let v = node(t, id).unwrap();
    assert(children_of_spec(t, id) == v.children);
    assert forall|y: ElementId| #[trigger] children_of_spec(t, id).contains(y) implies id.0 < y.0 < id.0
        + subtree_size(n) by {
        let i = choose|i: int| 0 <= i < v.children.len() && v.children[i] == y;
        lemma_forest_mono(n, i + 1, kids.len() as int);
        assert(forest_size(n, i + 1) == forest_size(n, i) + subtree_size(&kids[i]));
        assert(v.children[i] == ElementId((id.0 + 1 + forest_size(n, i)) as u64));
    }
}

/// Every slot of a built subtree holds a live element whose children lie
/// after it, inside the subtree.
#[verifier::spinoff_prover]
pub proof fn lemma_built_range(t: TreeModel, id: ElementId, n: &ViewNode, x: ElementId)
    requires
        built_subtree(t, id, n),
        id.0 + subtree_size(n) <= u64::MAX,
        id.0 <= x.0 < id.0 + subtree_size(n),
    ensures
        live(t, x),
        forall|y: ElementId| #[trigger] children_of_spec(t, x).contains(y) ==> x.0 < y.0 < id.0 + subtree_size(n),
    decreases n,
{
    let kids = n.children@;
    if x == id {
        lemma_built_root_lists(t, id, n);
    } else {
        let i = lemma_find_child(n, x.0 - id.0 - 1, kids.len() as int);
        lemma_forest_mono(n, i + 1, kids.len() as int);
        let c = ElementId((id.0 + 1 + forest_size(n, i)) as u64);
        assert(child_built(t, id, c, &kids[i]));
        assert(forest_size(n, i + 1) == forest_size(n, i) + subtree_size(&kids[i]));
        assert(c.0 == id.0 + 1 + forest_size(n, i));
        lemma_built_range(t, c, &kids[i], x);
    }
}

/// `t1` is `t0` after applying `p`.
pub open spec fn patch_applied<'a>(t0: TreeModel, p: Patch<'a>, t1: TreeModel) -> bool {
    match p {
        Patch::Create { parent, position, node: n } => {
            let id = ElementId(t0.slots.len() as u64);
            &&& t1.slots.len() == t0.slots.len() + subtree_size(n)
            &&& t1.root == t0.root
            &&& forall|x: ElementId|
                x.0 < t0.slots.len() && x != parent ==> #[trigger] node(t1, x) == node(t0, x)
            &&& node(t1, id) matches Some(v) && v.kind == n.kind && v.key == n.key && v.config
                == n.config && v.listeners == n.listeners@ && v.parent == Some(parent) && v.state
                == (ElementState { hovered: false, pressed: false, focused: false }) && v.dirty
            &&& parent != id ==> built_subtree(t1, id, n)
            &&& parent.0 < t0.slots.len() ==> node(t1, parent) == (match node(t0, parent) {
                Some(w) => Some(
                    EntryView {
                        children: w.children.insert(clamped(position, w.children.len() as int), id),
                        ..w
                    },
                ),
                None => None,
            })
        },
        Patch::Update { id, node: n } => {
            &&& same_outside(t0, t1, |x: ElementId| x == id)
            &&& node(t1, id) == (match node(t0, id) {
                Some(v) => Some(
                    EntryView {
                        kind: n.kind,
                        key: n.key,
                        config: n.config,
                        listeners: n.listeners@,
                        dirty: true,
                        ..v
                    },
                ),
                None => None,
            })
        },
        Patch::Remove { id } => removal_done(t0, id, t1),
        Patch::Move { id, parent, position } => {
            &&& t1.slots.len() == t0.slots.len()
            &&& t1.root == t0.root
            &&& forall|x: ElementId| #[trigger] node(t1, x) == moved_node(t0, id, parent, position, x)
        },
        Patch::UpdateListeners { id, node: n } => {
            &&& same_outside(t0, t1, |x: ElementId| x == id)
            &&& node(t1, id) == (match node(t0, id) {
                Some(v) => Some(EntryView { listeners: n.listeners@, ..v }),
                None => None,
            })
        },
    }
}

/// Slots that the creations among `ps[..i]` allocate.
pub open spec fn creation_size<'a>(ps: Seq<Patch<'a>>, i: int) -> nat
    decreases i,
{
    if i <= 0 || i > ps.len() {
        0
    } else {
        creation_size(ps, i - 1) + match ps[i - 1] {
            Patch::Create { node, .. } => subtree_size(node),
            _ => 0,
        }
    }
}

/// One step of building the children of `parent_id`: the subtrees built
/// before stay built, and the new child `id` (the slot after them) is built
/// once its own children are.
#[verifier::spinoff_prover]
#[verifier::rlimit(40)]
proof fn lemma_children_step(
    before: TreeModel,
    after: TreeModel,
    parent_id: ElementId,
    n: &ViewNode,
    len0: nat,
    j: int,
    id: ElementId,
)
    requires
        0 <= j < n.children@.len(),
        len0 + forest_size(n, n.children@.len() as int) < u64::MAX,
        parent_id.0 < len0,
        before.slots.len() == len0 + forest_size(n, j),
        id.0 == before.slots.len(),
        forall|x: ElementId| x.0 < before.slots.len() && x != parent_id ==> #[trigger] node(after, x) == node(before, x),
        forall|i: int|
            0 <= i < j ==> child_built(
                before,
                parent_id,
                ElementId((len0 + forest_size(n, i)) as u64),
                #[trigger] &n.children@[i],
            ),
        child_built(after, parent_id, id, &n.children@[j]),
    ensures
        forall|i: int|
            0 <= i < j + 1 ==> child_built(
                after,
                parent_id,
                ElementId((len0 + forest_size(n, i)) as u64),
                #[trigger] &n.children@[i],
            ),
{
    let kids = n.children@;
    assert forall|i: int| 0 <= i < j + 1 implies child_built(
        after,
        parent_id,
        ElementId((len0 + forest_size(n, i)) as u64),
        #[trigger] &kids[i],
    ) by {
        if i < j {
            lemma_sibling_kept(before, after, parent_id, n, len0, j, i);
        } else {
            lemma_forest_mono(n, j, kids.len() as int);
            assert(id == ElementId((len0 + forest_size(n, i)) as u64));
        }
    }
}

#[verifier::spinoff_prover]
#[verifier::rlimit(40)]
proof fn lemma_sibling_kept(
    before: TreeModel,
    after: TreeModel,
    parent_id: ElementId,
    n: &ViewNode,
    len0: nat,
    j: int,
    i: int,
)
    requires
        0 <= i < j < n.children@.len(),
        len0 + forest_size(n, n.children@.len() as int) < u64::MAX,
        parent_id.0 < len0,
        before.slots.len() == len0 + forest_size(n, j),
        forall|x: ElementId| x.0 < before.slots.len() && x != parent_id ==> #[trigger] node(after, x) == node(before, x),
        child_built(before, parent_id, ElementId((len0 + forest_size(n, i)) as u64), &n.children@[i]),
    ensures
        child_built(after, parent_id, ElementId((len0 + forest_size(n, i)) as u64), &n.children@[i]),
{
    let kids = n.children@;
    let c = ElementId((len0 + forest_size(n, i)) as u64);
    lemma_forest_mono(n, i + 1, j);
    lemma_forest_mono(n, j, kids.len() as int);
    assert(forest_size(n, i + 1) == forest_size(n, i) + subtree_size(&kids[i]));
    assert(c.0 == len0 + forest_size(n, i));
    assert forall|x: ElementId| c.0 < x.0 < c.0 + subtree_size(&kids[i]) implies #[trigger] node(after, x)
        == node(before, x) by {}
    assert(node(after, c) == node(before, c));
    lemma_built_frame(before, after, c, &kids[i]);
}

impl Reconciler {
    /// Creates the subtrees of the children of `n` under the live element
    /// `parent_id`, appending them to its children.
    #[verifier::spinoff_prover]
    #[verifier::rlimit(40)]
    fn apply_children(&mut self, parent_id: ElementId, n: &ViewNode, tree: &mut ElementTree)
        requires
            live(old(tree)@, parent_id),
            old(tree)@.slots.len() + forest_size(n, n.children@.len() as int) < u64::MAX,
        ensures
            children_of_spec(old(tree)@, parent_id).len() == 0 ==> forall|i: int|
                0 <= i < n.children@.len() ==> #[trigger] node(final(tree)@, parent_id)->0.children[i] == ElementId(
                    (old(tree)@.slots.len() + forest_size(n, i)) as u64,
                ),
            forall|i: int|
                0 <= i < n.children@.len() ==> child_built(
                    final(tree)@,
                    parent_id,
                    ElementId((old(tree)@.slots.len() + forest_size(n, i)) as u64),
                    #[trigger] &n.children@[i],
                ),
            final(tree)@.slots.len() == old(tree)@.slots.len() + forest_size(n, n.children@.len() as int),
            final(tree)@.root == old(tree)@.root,
            forall|x: ElementId|
                x.0 < old(tree)@.slots.len() && x != parent_id ==> #[trigger] node(final(tree)@, x)
                    == node(old(tree)@, x),
            node(final(tree)@, parent_id) matches Some(v) && node(old(tree)@, parent_id) matches Some(w)
                && v == (EntryView { children: v.children, ..w }) && v.children.len()
                == w.children.len() + n.children@.len() && v.children.subrange(
                0,
                w.children.len() as int,
            ) == w.children,
        decreases n, 0int,
    {
        let ghost t0 = tree@;
        let ghost w = node(t0, parent_id)->0;
        let ghost len0 = t0.slots.len();
        let mut j: usize = 0;
        while j < n.children.len()
            invariant
                j <= n.children@.len(),
                t0.slots.len() == len0,
                live(t0, parent_id),
                w == node(t0, parent_id)->0,
                len0 + forest_size(n, n.children@.len() as int) < u64::MAX,
                tree@.slots.len() == len0 + forest_size(n, j as int),
                tree@.root == t0.root,
                forall|x: ElementId|
                    x.0 < len0 && x != parent_id ==> #[trigger] node(tree@, x) == node(t0, x),
                node(tree@, parent_id) matches Some(v) && v == (EntryView { children: v.children, ..w })
                    && v.children.len() == w.children.len() + j && v.children.subrange(
                    0,
                    w.children.len() as int,
                ) == w.children,
                w.children.len() == 0 ==> forall|i: int|
                    0 <= i < j ==> #[trigger] node(tree@, parent_id)->0.children[i] == ElementId(
                        (len0 + forest_size(n, i)) as u64,
                    ),
                forall|i: int|
                    0 <= i < j ==> child_built(
                        tree@,
                        parent_id,
                        ElementId((len0 + forest_size(n, i)) as u64),
                        #[trigger] &n.children@[i],
                    ),
            decreases n.children@.len() - j,
        {
            proof {
                lemma_forest_mono(n, j + 1, n.children@.len() as int);
            }
            let child = &n.children[j];
            assert(forest_size(n, j + 1) == forest_size(n, j as int) + subtree_size(child));
            assert(subtree_size(child) == 1 + forest_size(child, child.children@.len() as int));
            let ghost before = tree@;
            let id = tree.create_from_node(child);
            let ghost created = tree@;
            assert forall|x: ElementId| x.0 < before.slots.len() implies #[trigger] node(created, x)
                == node(before, x) by {
                assert(created.slots[x.0 as int] == before.slots[x.0 as int]);
            }
            tree.add_child(parent_id, id);
            let ghost linked = tree@;
            proof {
                assert(parent_id.0 < len0);
                let v = node(linked, parent_id)->0;
                let vb = node(before, parent_id)->0;
                assert(v.children == vb.children.push(id));
                assert(v.children.subrange(0, w.children.len() as int) =~= vb.children.subrange(
                    0,
                    w.children.len() as int,
                ));
            }
            assert(children_of_spec(linked, id).len() == 0);
            self.apply_children(id, child, tree);
            proof {
                assert(node(tree@, parent_id) == node(linked, parent_id));
                assert forall|x: ElementId| x.0 < len0 && x != parent_id implies #[trigger] node(tree@, x)
                    == node(t0, x) by {
                    assert(node(tree@, x) == node(linked, x));
                    assert(node(linked, x) == node(created, x));
                }
                assert forall|x: ElementId| x.0 < before.slots.len() && x != parent_id implies #[trigger] node(
                    tree@,
                    x,
                ) == node(before, x) by {
                    assert(node(tree@, x) == node(linked, x));
                    assert(node(linked, x) == node(created, x));
                }
                lemma_children_step(before, tree@, parent_id, n, len0, j as int, id);
            }
            j = j + 1;
        }
    }

    /// Applies one patch.
    #[verifier::spinoff_prover]
    #[verifier::rlimit(40)]
    pub fn apply_patch<'a>(&mut self, patch: Patch<'a>, tree: &mut ElementTree)
        requires
            patch matches Patch::Create { node, .. } ==> old(tree)@.slots.len() + subtree_size(node)
                < u64::MAX,
        ensures
            patch_applied(old(tree)@, patch, final(tree)@),
    {
        match patch {
            Patch::Create { parent, position, node: vn } => {
                let ghost t0 = tree@;
                let id = tree.create_from_node(vn);
                let ghost created = tree@;
                assert forall|x: ElementId| x.0 < t0.slots.len() implies #[trigger] node(created, x)
                    == node(t0, x) by {
                    assert(created.slots[x.0 as int] == t0.slots[x.0 as int]);
                }
                tree.insert_child(parent, position, id);
                let ghost linked = tree@;
                self.apply_children(id, vn, tree);
                proof {
                    assert forall|x: ElementId|
                        x.0 < t0.slots.len() && x != parent implies #[trigger] node(tree@, x) == node(
                        t0,
                        x,
                    ) by {
                        assert(node(tree@, x) == node(linked, x));
                        assert(node(linked, x) == node(created, x));
                    }
                    if parent.0 < t0.slots.len() {
                        assert(node(tree@, parent) == node(linked, parent));
                    }
                }
            },
            Patch::Update { id, node: vn } => {
                tree.update_node(id, vn);
            },
            Patch::Remove { id } => {
                tree.remove(id);
            },
            Patch::Move { id, parent, position } => {
                tree.move_child(id, parent, position);
            },
            Patch::UpdateListeners { id, node: vn } => {
                let ls = crate::tree::copy_kinds(&vn.listeners);
                tree.set_listeners(id, ls);
            },
        }
    }

    /// Applies the patches in order: the tree goes through one state per
    /// patch, each obtained from the previous by that patch.
    pub fn apply<'a>(&mut self, patches: Vec<Patch<'a>>, tree: &mut ElementTree)
        requires
            old(tree)@.slots.len() + creation_size(patches@, patches@.len() as int) < u64::MAX,
        ensures
            exists|chain: Seq<TreeModel>|
                chain.len() == patches@.len() + 1 && chain[0] == old(tree)@ && chain.last()
                    == final(tree)@ && forall|k: int|
                    0 <= k < patches@.len() ==> patch_applied(
                        #[trigger] chain[k],
                        patches@[k],
                        chain[k + 1],
                    ),
    {
        let ghost mut chain: Seq<TreeModel> = seq![tree@];
        let mut i: usize = 0;
        while i < patches.len()
            invariant
                i <= patches@.len(),
                chain.len() == i + 1,
                chain[0] == old(tree)@,
                chain.last() == tree@,
                tree@.slots.len() == old(tree)@.slots.len() + creation_size(patches@, i as int),
                old(tree)@.slots.len() + creation_size(patches@, patches@.len() as int) < u64::MAX,
                forall|k: int| 0 <= k < i ==> patch_applied(#[trigger] chain[k], patches@[k], chain[k + 1]),
            decreases patches@.len() - i,
        {
            let p = patches[i];
            proof {
                lemma_creation_mono(patches@, i + 1, patches@.len() as int);
            }
            self.apply_patch(p, tree);
            proof {
                let prev = chain;
                chain = chain.push(tree@);
                assert forall|k: int| 0 <= k < i + 1 implies patch_applied(
                    #[trigger] chain[k],
                    patches@[k],
                    chain[k + 1],
                ) by {
                    if k < i {
                        assert(chain[k] == prev[k]);
                        assert(chain[k + 1] == prev[k + 1]);
                    }
                }
                match p {
                    Patch::Remove { id } => {},
                    Patch::Move { .. } => {},
                    Patch::Create { .. } => {},
                    _ => {},
                }
            }
            i = i + 1;
        }
    }
}

/// Creates the element subtree of `n` (detached: its root has no parent),
/// every node of it mirroring its view node, and returns its root.
pub fn create_subtree_from_node(tree: &mut ElementTree, n: &ViewNode) -> (id: ElementId)
    requires
        old(tree)@.slots.len() + subtree_size(n) < u64::MAX,
    ensures
        id.0 == old(tree)@.slots.len(),
        final(tree)@.slots.len() == old(tree)@.slots.len() + subtree_size(n),
        final(tree)@.root == old(tree)@.root,
        forall|x: ElementId|
            x.0 < old(tree)@.slots.len() ==> #[trigger] node(final(tree)@, x) == node(old(tree)@, x),
        node(final(tree)@, id) matches Some(v) && v.parent is None && v.state == (ElementState {
            hovered: false,
            pressed: false,
            focused: false,
        }) && v.dirty,
        built_subtree(final(tree)@, id, n),
{
    let ghost t0 = tree@;
    let id = tree.create_from_node(n);
    let ghost created = tree@;
    assert forall|x: ElementId| x.0 < t0.slots.len() implies #[trigger] node(created, x) == node(t0, x) by {
        assert(created.slots[x.0 as int] == t0.slots[x.0 as int]);
    }
    assert(children_of_spec(created, id).len() == 0);
    let mut r = Reconciler::new();
    r.apply_children(id, n, tree);
    assert(subtree_size(n) == 1 + forest_size(n, n.children@.len() as int));
    id
}

proof fn lemma_creation_mono<'a>(ps: Seq<Patch<'a>>, k: int, m: int)
    requires
        0 <= k <= m <= ps.len(),
    ensures
        creation_size(ps, k) <= creation_size(ps, m),
    decreases m - k,
{
    if k < m {
        lemma_creation_mono(ps, k, m - 1);
    }
}

/// Debug counters of a runtime.
pub struct DebugStats {
    pub reconciler: ReconcilerStats,
    pub element_count: usize,
}

impl Default for DebugStats {
    fn default() -> (r: Self)
        ensures
            r.reconciler == (ReconcilerStats { created: 0, updated: 0, removed: 0, moved: 0 }),
            r.element_count == 0,
    {
        DebugStats { reconciler: ReconcilerStats::default(), element_count: 0 }
    }
}

/// The patches for the children of a parent that has none: one creation
/// per view child, at the child's position, in order.
proof fn lemma_child_patches_fresh<'a>(t: TreeModel, n: &'a ViewNode, parent: ElementId, k: int)
    requires
        children_of_spec(t, parent).len() == 0,
        0 <= k <= n.children@.len(),
    ensures
        child_patches(t, n, parent, k).len() == k,
        forall|i: int|
            0 <= i < k ==> #[trigger] child_patches(t, n, parent, k)[i] == (Patch::Create {
                parent,
                position: i as usize,
                node: &n.children@[i],
            }),
    decreases k,
{
    if k > 0 {
        lemma_child_patches_fresh(t, n, parent, k - 1);
        let ex = children_of_spec(t, parent);
        let kids = n.children@;
        let u = taken(t, ex, kids, k - 1);
        let c = kids[k - 1];
        assert(match_for(t, ex, u, c, k - 1) is None) by {
            match c.key {
                Some(key) => assert(first_free_keyed(t, ex, u, key@, 0) is None),
                None => {},
            }
            assert(first_free_of_kind(t, ex, u, c.kind, 0) is None);
        }
    }
}

/// The patches of a fresh build: as many as the view has children, and
/// they create exactly the view's descendants.
pub proof fn lemma_fresh_diff<'a>(t: TreeModel, n: &'a ViewNode, parent: ElementId)
    requires
        children_of_spec(t, parent).len() == 0,
    ensures
        diff_spec(t, n, parent).len() == n.children@.len(),
        creation_size(diff_spec(t, n, parent), n.children@.len() as int) == forest_size(
            n,
            n.children@.len() as int,
        ),
{
    let kids = n.children@;
    let ex = children_of_spec(t, parent);
    let ps = diff_spec(t, n, parent);
    lemma_child_patches_fresh(t, n, parent, kids.len() as int);
    assert(removals::<'a>(t, ex, taken(t, ex, kids, kids.len() as int), 0) =~= Seq::<Patch<'a>>::empty());
    assert(ps =~= child_patches(t, n, parent, kids.len() as int));
    lemma_fresh_creation_size(t, n, parent, kids.len() as int);
}

proof fn lemma_fresh_creation_size<'a>(t: TreeModel, n: &'a ViewNode, parent: ElementId, k: int)
    requires
        children_of_spec(t, parent).len() == 0,
        0 <= k <= n.children@.len(),
    ensures
        creation_size(child_patches(t, n, parent, n.children@.len() as int), k) == forest_size(n, k),
    decreases k,
{
    lemma_child_patches_fresh(t, n, parent, n.children@.len() as int);
    if k > 0 {
        lemma_fresh_creation_size(t, n, parent, k - 1);
    }
}

/// After the first `j` creations of a fresh build, the parent's children are
/// the first `j` view children's subtrees, in order, each in the slots right
/// after the ones before it.
spec fn fresh_prefix(t0: TreeModel, n: &ViewNode, parent: ElementId, tj: TreeModel, j: int) -> bool {
    let kids = n.children@;
    &&& tj.slots.len() == t0.slots.len() + forest_size(n, j)
    &&& tj.root == t0.root
    &&& (node(tj, parent) matches Some(v) && v == (EntryView { children: v.children, ..node(t0, parent).unwrap() })
        && v.children.len() == j && forall|i: int|
        0 <= i < j ==> #[trigger] v.children[i] == ElementId((t0.slots.len() + forest_size(n, i)) as u64))
    &&& forall|i: int|
        0 <= i < j ==> child_built(
            tj,
            parent,
            ElementId((t0.slots.len() + forest_size(n, i)) as u64),
            #[trigger] &kids[i],
        )
}

#[verifier::spinoff_prover]
#[verifier::rlimit(40)]
proof fn lemma_fresh_step<'a>(
    t0: TreeModel,
    n: &'a ViewNode,
    parent: ElementId,
    tj: TreeModel,
    tn: TreeModel,
    k: int,
)
    requires
        0 <= k < n.children@.len(),
        parent.0 < t0.slots.len(),
        t0.slots.len() + forest_size(n, n.children@.len() as int) < u64::MAX,
        fresh_prefix(t0, n, parent, tj, k),
        patch_applied(tj, Patch::Create { parent, position: k as usize, node: &n.children@[k] }, tn),
    ensures
        fresh_prefix(t0, n, parent, tn, k + 1),
{
    let kids = n.children@;
    let j = k + 1;
    let v = node(tj, parent).unwrap();
    let id = ElementId(tj.slots.len() as u64);
    lemma_forest_mono(n, j, kids.len() as int);
    lemma_forest_mono(n, k, kids.len() as int);
    assert(forest_size(n, j) == forest_size(n, k) + subtree_size(&kids[k]));
    assert(n.children.len() == kids.len());
    assert(clamped(k as usize, v.children.len() as int) == k);
    let v2 = node(tn, parent).unwrap();
    assert(v2.children =~= v.children.insert(k, id));
    assert forall|i: int| 0 <= i < j implies #[trigger] v2.children[i] == ElementId(
        (t0.slots.len() + forest_size(n, i)) as u64,
    ) by {
        if i < k {
            assert(v2.children[i] == v.children[i]);
        }
    }
    assert forall|i: int| 0 <= i < j implies child_built(
        tn,
        parent,
        ElementId((t0.slots.len() + forest_size(n, i)) as u64),
        #[trigger] &kids[i],
    ) by {
        if i < k {
            lemma_sibling_kept(tj, tn, parent, n, t0.slots.len(), k, i);
        } else {
            assert(id == ElementId((t0.slots.len() + forest_size(n, i)) as u64));
        }
    }
}

#[verifier::spinoff_prover]
#[verifier::rlimit(40)]
proof fn lemma_fresh_prefix<'a>(t0: TreeModel, n: &'a ViewNode, parent: ElementId, chain: Seq<TreeModel>, j: int)
    requires
        0 <= j <= n.children@.len(),
        live(t0, parent),
        children_of_spec(t0, parent).len() == 0,
        t0.slots.len() + forest_size(n, n.children@.len() as int) < u64::MAX,
        chain.len() > j,
        chain[0] == t0,
        forall|i: int|
            0 <= i < j ==> patch_applied(
                #[trigger] chain[i],
                Patch::Create { parent, position: i as usize, node: &n.children@[i] },
                chain[i + 1],
            ),
    ensures
        fresh_prefix(t0, n, parent, chain[j], j),
    decreases j,
{
    if j > 0 {
        lemma_fresh_prefix(t0, n, parent, chain, j - 1);
        lemma_fresh_step(t0, n, parent, chain[j - 1], chain[j], j - 1);
    } else {
        assert(node(t0, parent).unwrap().children =~= children_of_spec(t0, parent));
    }
}

/// Building a view under a live parent that has no children yet gives the
/// parent one child per view child, in the view's order, each the root of a
/// subtree that mirrors its view child all the way down (kinds, keys,
/// configurations, listeners), and leaves the parent otherwise as it was: whatever tree states `apply` passes through (the `chain` its
/// contract gives), the last one has this shape.
#[verifier::spinoff_prover]
#[verifier::rlimit(40)]
pub proof fn lemma_fresh_children_follow_view<'a>(
    t0: TreeModel,
    n: &'a ViewNode,
    parent: ElementId,
    chain: Seq<TreeModel>,
)
    requires
        live(t0, parent),
        children_of_spec(t0, parent).len() == 0,
        t0.slots.len() + forest_size(n, n.children@.len() as int) < u64::MAX,
        chain.len() == diff_spec(t0, n, parent).len() + 1,
        chain[0] == t0,
        forall|k: int|
            0 <= k < diff_spec(t0, n, parent).len() ==> patch_applied(
                #[trigger] chain[k],
                diff_spec(t0, n, parent)[k],
                chain[k + 1],
            ),
    ensures
        chain.last().root == t0.root,
        (node(chain.last(), parent) matches Some(v) && v == (EntryView {
            children: v.children,
            ..node(t0, parent).unwrap()
        }) && v.children.len() == n.children@.len() && forall|i: int|
            0 <= i < n.children@.len() ==> #[trigger] v.children[i] == ElementId(
                (t0.slots.len() + forest_size(n, i)) as u64,
            )),
        forall|i: int|
            0 <= i < n.children@.len() ==> child_built(
                chain.last(),
                parent,
                ElementId((t0.slots.len() + forest_size(n, i)) as u64),
                #[trigger] &n.children@[i],
            ),
{
    let kids = n.children@;
    let ps = diff_spec(t0, n, parent);
    let ex = children_of_spec(t0, parent);
    lemma_child_patches_fresh(t0, n, parent, kids.len() as int);
    assert(removals::<'a>(t0, ex, taken(t0, ex, kids, kids.len() as int), 0) =~= Seq::<Patch<'a>>::empty());
    assert(ps =~= child_patches(t0, n, parent, kids.len() as int));
    assert forall|i: int| 0 <= i < kids.len() implies patch_applied(
        #[trigger] chain[i],
        Patch::Create { parent, position: i as usize, node: &kids[i] },
        chain[i + 1],
    ) by {
        assert(ps[i] == (Patch::Create { parent, position: i as usize, node: &kids[i] }));
    }
    lemma_fresh_prefix(t0, n, parent, chain, kids.len() as int);
    assert(chain.last() == chain[kids.len() as int]);
}

} // verus!
