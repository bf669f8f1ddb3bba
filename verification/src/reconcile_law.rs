//! What reconciling a view against an existing parent yields: afterwards the
//! parent's children follow the view's children in order, each matched
//! element reused in place of its view child; and reconciling an element
//! against the view it was built from changes nothing but listeners.

use vstd::prelude::*;
use crate::effects::ElementId;
use crate::reconcile::{
    Patch, built_subtree, child_built, child_patches, diff_spec, forest_size, lemma_built_frame, lemma_built_range,
    lemma_forest_mono, subtree_size, first_free_keyed, patch_counts, first_free_of_kind, match_for, patch_applied,
    position_of, removals, reuse_patches, taken,
};
use crate::tree::{
    EntryView, TreeModel, ViewNode, children_of_spec, detached_children, detached_node, gone, key_seq, live, node,
    removal_done, without, without_id,
};

verus! {

/// The elements of `ex[..n]` that are not in `used`, in order.
pub open spec fn free_elems(ex: Seq<ElementId>, used: Set<ElementId>, n: int) -> Seq<ElementId>
    decreases n,
{
    if n <= 0 {
        Seq::empty()
    } else {
        let p = free_elems(ex, used, n - 1);
        if used.contains(ex[n - 1]) {
            p
        } else {
            p.push(ex[n - 1])
        }
    }
}

proof fn lemma_free_contains(ex: Seq<ElementId>, used: Set<ElementId>, n: int, x: ElementId)
    requires
        0 <= n <= ex.len(),
    ensures
        free_elems(ex, used, n).contains(x) <==> (!used.contains(x) && ex.subrange(0, n).contains(x)),
    decreases n,
{
    if n > 0 {
        lemma_free_contains(ex, used, n - 1, x);
        crate::seqs::lemma_push_contains(free_elems(ex, used, n - 1), ex[n - 1], x);
        assert(ex.subrange(0, n) =~= ex.subrange(0, n - 1).push(ex[n - 1]));
        crate::seqs::lemma_push_contains(ex.subrange(0, n - 1), ex[n - 1], x);
    }
}

proof fn lemma_without_push(s: Seq<ElementId>, y: ElementId, x: ElementId)
    ensures
        without(s.push(y), x) == if y == x {
            without(s, x)
        } else {
            without(s, x).push(y)
        },
{
    lemma_without_prefix(s.push(y), s, x, s.len() as int);
}

proof fn lemma_without_prefix(a: Seq<ElementId>, b: Seq<ElementId>, x: ElementId, n: int)
    requires
        0 <= n <= b.len(),
        n <= a.len(),
        forall|i: int| 0 <= i < n ==> a[i] == b[i],
    ensures
        without_id(a, x, n) == without_id(b, x, n),
    decreases n,
{
    if n > 0 {
        lemma_without_prefix(a, b, x, n - 1);
    }
}

/// Removing `m` from the free elements is taking `m` as used.
proof fn lemma_free_take(ex: Seq<ElementId>, used: Set<ElementId>, m: ElementId, n: int)
    requires
        0 <= n <= ex.len(),
    ensures
        free_elems(ex, used.insert(m), n) == without(free_elems(ex, used, n), m),
    decreases n,
{
    if n == 0 {
        assert(without(Seq::<ElementId>::empty(), m) =~= Seq::<ElementId>::empty());
    } else {
        lemma_free_take(ex, used, m, n - 1);
        let p = free_elems(ex, used, n - 1);
        if !used.contains(ex[n - 1]) {
            lemma_without_push(p, ex[n - 1], m);
        }
    }
}

/// `without` over a concatenation whose left part lacks `x`.
proof fn lemma_without_append(a: Seq<ElementId>, b: Seq<ElementId>, x: ElementId)
    requires
        !a.contains(x),
    ensures
        without(a + b, x) == a + without(b, x),
    decreases b.len(),
{
    if b.len() == 0 {
        assert(a + b =~= a);
        lemma_without_absent(a, x, a.len() as int);
        assert(without(b, x) =~= Seq::<ElementId>::empty());
        assert(a + Seq::<ElementId>::empty() =~= a);
    } else {
        let b0 = b.drop_last();
        lemma_without_append(a, b0, x);
        assert(a + b =~= (a + b0).push(b.last()));
        assert(b =~= b0.push(b.last()));
        lemma_without_push(a + b0, b.last(), x);
        lemma_without_push(b0, b.last(), x);
        if b.last() != x {
            assert((a + without(b0, x)).push(b.last()) =~= a + without(b0, x).push(b.last()));
        }
    }
}

proof fn lemma_without_absent(a: Seq<ElementId>, x: ElementId, n: int)
    requires
        0 <= n <= a.len(),
        !a.contains(x),
    ensures
        without_id(a, x, n) == a.subrange(0, n),
    decreases n,
{
    if n > 0 {
        lemma_without_absent(a, x, n - 1);
        assert(a[n - 1] != x) by {
            if a[n - 1] == x {
                assert(a.contains(x));
            }
        }
        assert(a.subrange(0, n) =~= a.subrange(0, n - 1).push(a[n - 1]));
    }
}

/// What the matcher finds is an existing child nobody took yet.
proof fn lemma_match_free(t: TreeModel, ex: Seq<ElementId>, used: Set<ElementId>, v: ViewNode, pos: int)
    ensures
        match_for(t, ex, used, v, pos) matches Some(m) ==> ex.contains(m) && !used.contains(m),
{
    match v.key {
        Some(k) => lemma_keyed_free(t, ex, used, k@, 0),
        None => {},
    }
    lemma_kind_free(t, ex, used, v.kind, 0);
    if 0 <= pos < ex.len() {
        assert(ex.contains(ex[pos]));
    }
}

proof fn lemma_keyed_free(t: TreeModel, ex: Seq<ElementId>, used: Set<ElementId>, k: Seq<char>, i: int)
    ensures
        first_free_keyed(t, ex, used, k, i) matches Some(m) ==> ex.contains(m) && !used.contains(m),
    decreases ex.len() - i,
{
    if 0 <= i < ex.len() {
        assert(ex.contains(ex[i]));
        lemma_keyed_free(t, ex, used, k, i + 1);
    }
}

proof fn lemma_kind_free(
    t: TreeModel,
    ex: Seq<ElementId>,
    used: Set<ElementId>,
    kind: crate::tree::NodeKind,
    i: int,
)
    ensures
        first_free_of_kind(t, ex, used, kind, i) matches Some(m) ==> ex.contains(m) && !used.contains(m),
    decreases ex.len() - i,
{
    if 0 <= i < ex.len() {
        assert(ex.contains(ex[i]));
        lemma_kind_free(t, ex, used, kind, i + 1);
    }
}

/// How the tree around `parent` is linked before reconciling: `parent` is
/// alive; its children are distinct, alive, point back at it, and no other
/// element lists them; no element lists `parent`; every child list names
/// allocated slots only.
pub open spec fn well_linked(t: TreeModel, parent: ElementId) -> bool {
    let ex = children_of_spec(t, parent);
    &&& live(t, parent)
    &&& ex.no_duplicates()
    &&& forall|j: int| 0 <= j < ex.len() ==> (node(t, #[trigger] ex[j]) matches Some(v) && v.parent == Some(parent))
    &&& forall|p: ElementId| !(#[trigger] children_of_spec(t, p)).contains(parent)
    &&& forall|p: ElementId, x: ElementId|
        p != parent && ex.contains(x) ==> !#[trigger] children_of_spec(t, p).contains(x)
    &&& forall|p: ElementId, x: ElementId| #[trigger] children_of_spec(t, p).contains(x) ==> x.0 < t.slots.len()
}

/// Midway through reconciling `parent`: its children are the placed ones
/// `pl` followed by the existing children not taken yet (`used` are the
/// taken ones), which are still as they were in `t0`; the links stay as
/// `well_linked` describes them, and an element created since `t0` is
/// listed only by `parent` or by an element created before it.
#[verifier::opaque]
pub open spec fn shaped(t0: TreeModel, parent: ElementId, t: TreeModel, pl: Seq<ElementId>, used: Set<ElementId>) -> bool {
    let ex = children_of_spec(t0, parent);
    let fr = free_elems(ex, used, ex.len() as int);
    &&& node(t, parent) matches Some(v) && v.children == pl + fr
    &&& forall|i: int| 0 <= i < pl.len() ==> live(t, #[trigger] pl[i]) && (used.contains(pl[i]) || !ex.contains(pl[i]))
    &&& pl.no_duplicates()
    &&& forall|x: ElementId| #[trigger] fr.contains(x) ==> node(t, x) == node(t0, x)
    &&& forall|p: ElementId| !(#[trigger] children_of_spec(t, p)).contains(parent)
    &&& forall|p: ElementId, x: ElementId|
        p != parent && (pl + fr).contains(x) ==> !#[trigger] children_of_spec(t, p).contains(x)
    &&& forall|p: ElementId, x: ElementId| #[trigger] children_of_spec(t, p).contains(x) ==> x.0 < t.slots.len()
    &&& forall|p: ElementId, x: ElementId|
        #[trigger] children_of_spec(t, p).contains(x) && x.0 >= t0.slots.len() ==> p == parent || (t0.slots.len()
            <= p.0 < x.0)
    &&& t.slots.len() >= t0.slots.len()
}

/// What a shaped tree says of the parent's children.
proof fn lemma_shaped_facts(t0: TreeModel, parent: ElementId, t: TreeModel, pl: Seq<ElementId>, used: Set<ElementId>)
    requires
        shaped(t0, parent, t, pl, used),
    ensures
        node(t, parent) matches Some(v) && v.children == pl + free_elems(
            children_of_spec(t0, parent),
            used,
            children_of_spec(t0, parent).len() as int,
        ),
        forall|i: int|
            0 <= i < pl.len() ==> live(t, #[trigger] pl[i]) && pl[i] != parent && (used.contains(pl[i])
                || !children_of_spec(t0, parent).contains(pl[i])),
        t.slots.len() >= t0.slots.len(),
        forall|x: ElementId|
            #[trigger] free_elems(children_of_spec(t0, parent), used, children_of_spec(t0, parent).len() as int).contains(
                x,
            ) ==> node(t, x) == node(t0, x),
{
    reveal(shaped);
    let fr = free_elems(children_of_spec(t0, parent), used, children_of_spec(t0, parent).len() as int);
    assert forall|i: int| 0 <= i < pl.len() implies pl[i] != parent by {
        assert((pl + fr)[i] == pl[i]);
        assert(children_of_spec(t, parent).contains(pl[i]));
    }
}

proof fn lemma_free_all(ex: Seq<ElementId>, n: int)
    requires
        0 <= n <= ex.len(),
    ensures
        free_elems(ex, Set::empty(), n) == ex.subrange(0, n),
    decreases n,
{
    if n > 0 {
        lemma_free_all(ex, n - 1);
        assert(ex.subrange(0, n) =~= ex.subrange(0, n - 1).push(ex[n - 1]));
    }
}

/// Before any patch the tree is shaped with nothing placed.
proof fn lemma_shaped_start(t0: TreeModel, parent: ElementId)
    requires
        well_linked(t0, parent),
    ensures
        shaped(t0, parent, t0, Seq::empty(), Set::empty()),
{
    reveal(shaped);
    let ex = children_of_spec(t0, parent);
    lemma_free_all(ex, ex.len() as int);
    assert(ex.subrange(0, ex.len() as int) =~= ex);
    assert(Seq::<ElementId>::empty() + ex =~= ex);
    assert(node(t0, parent)->0.children == ex);
}

/// `without` keeps only elements of the original.
proof fn lemma_without_sub(s: Seq<ElementId>, x: ElementId, y: ElementId, n: int)
    requires
        0 <= n <= s.len(),
    ensures
        without_id(s, x, n).contains(y) ==> s.contains(y) && y != x,
    decreases n,
{
    if n > 0 {
        lemma_without_sub(s, x, y, n - 1);
        let p = without_id(s, x, n - 1);
        if s[n - 1] != x {
            crate::seqs::lemma_push_contains(p, s[n - 1], y);
            if y == s[n - 1] {
                assert(s.contains(s[n - 1]));
            }
        }
    }
}

/// The children of `p` as `node` sees them.
proof fn lemma_children_node(t: TreeModel, p: ElementId)
    ensures
        children_of_spec(t, p) == match node(t, p) {
            Some(v) => v.children,
            None => Seq::<ElementId>::empty(),
        },
{
}

/// Moving the first waiting child `m` to the end of the placed ones.
proof fn lemma_step_move(
    t0: TreeModel,
    parent: ElementId,
    o: TreeModel,
    f: TreeModel,
    pl: Seq<ElementId>,
    used: Set<ElementId>,
    m: ElementId,
)
    requires
        well_linked(t0, parent),
        shaped(t0, parent, o, pl, used),
        free_elems(children_of_spec(t0, parent), used, children_of_spec(t0, parent).len() as int).contains(m),
        pl.len() <= usize::MAX,
        patch_applied(o, Patch::Move { id: m, parent, position: pl.len() as usize }, f),
    ensures
        shaped(t0, parent, f, pl.push(m), used.insert(m)),
        forall|x: ElementId| x != m && x != parent ==> #[trigger] node(f, x) == node(o, x),
        node(f, m) == Some(EntryView { parent: Some(parent), dirty: true, ..node(t0, m).unwrap() }),
{
    reveal(shaped);
    let ex = children_of_spec(t0, parent);
    let fr = free_elems(ex, used, ex.len() as int);
    let fr2 = free_elems(ex, used.insert(m), ex.len() as int);
    let v = node(o, parent).unwrap();
    lemma_free_contains(ex, used, ex.len() as int, m);
    assert(ex.subrange(0, ex.len() as int) =~= ex);
    let j = choose|j: int| 0 <= j < ex.len() && ex[j] == m;
    assert(node(t0, ex[j]) matches Some(w) && w.parent == Some(parent));
    assert(m != parent) by {
        assert(!children_of_spec(t0, parent).contains(parent));
    }
    assert(!pl.contains(m)) by {
        if pl.contains(m) {
            let i = choose|i: int| 0 <= i < pl.len() && pl[i] == m;
            assert(used.contains(pl[i]) || !ex.contains(pl[i]));
        }
    }
    lemma_without_append(pl, fr, m);
    lemma_free_take(ex, used, m, ex.len() as int);
    let w = without(fr, m);
    assert(w == fr2);
    assert((pl + w).insert(pl.len() as int, m) =~= pl.push(m) + w);
    assert(node(f, parent) == Some(EntryView { children: pl.push(m) + fr2, ..v }));
    assert forall|x: ElementId| x != m && x != parent implies #[trigger] node(f, x) == node(o, x) by {}
    // membership of the new child list
    assert forall|x: ElementId| #[trigger] (pl.push(m) + fr2).contains(x) implies (pl + fr).contains(x) by {
        if (pl.push(m) + fr2).contains(x) {
            let i = choose|i: int| 0 <= i < (pl.push(m) + fr2).len() && (pl.push(m) + fr2)[i] == x;
            if i < pl.len() {
                assert((pl + fr)[i] == x);
            } else if i == pl.len() {
                let q = choose|q: int| 0 <= q < fr.len() && fr[q] == m;
                assert((pl + fr)[pl.len() + q] == x);
            } else {
                assert(fr2.contains(x)) by {
                    assert(fr2[i - pl.len() - 1] == x);
                }
                lemma_without_sub(fr, m, x, fr.len() as int);
                let q = choose|q: int| 0 <= q < fr.len() && fr[q] == x;
                assert((pl + fr)[pl.len() + q] == x);
            }
        }
    }
    assert forall|x: ElementId| #[trigger] fr2.contains(x) implies node(f, x) == node(t0, x) by {
        lemma_without_sub(fr, m, x, fr.len() as int);
        assert(x != parent) by {
            if x == parent {
                let q = choose|q: int| 0 <= q < fr.len() && fr[q] == x;
                assert((pl + fr)[pl.len() + q] == x);
                assert(children_of_spec(o, parent).contains(parent));
            }
        }
    }
    assert forall|i: int| 0 <= i < pl.push(m).len() implies live(f, #[trigger] pl.push(m)[i]) && (used.insert(
        m,
    ).contains(pl.push(m)[i]) || !ex.contains(pl.push(m)[i])) by {
        if i < pl.len() {
            assert(pl.push(m)[i] == pl[i]);
            assert(pl[i] != parent) by {
                assert((pl + fr)[i] == pl[i]);
                assert(children_of_spec(o, parent).contains(pl[i]));
            }
            assert(pl[i] != m);
            assert(live(o, pl[i]));
            assert(node(f, pl[i]) == node(o, pl[i]));
        } else {
            assert(pl.push(m)[i] == m);
            assert(node(f, m) is Some);
        }
    }
    assert forall|p: ElementId| !(#[trigger] children_of_spec(f, p)).contains(parent) by {
        lemma_children_node(f, p);
        lemma_children_node(o, p);
        if p == parent {
            if (pl.push(m) + fr2).contains(parent) {
                assert((pl + fr).contains(parent));
                assert(children_of_spec(o, parent).contains(parent));
            }
        } else if p == m {
            assert(children_of_spec(f, p) == children_of_spec(o, p));
        } else {
            assert(node(f, p) == node(o, p));
        }
    }
    assert forall|p: ElementId, x: ElementId|
        p != parent && (pl.push(m) + fr2).contains(x) implies !#[trigger] children_of_spec(f, p).contains(x) by {
        lemma_children_node(f, p);
        lemma_children_node(o, p);
        assert((pl + fr).contains(x));
        if p == m {
            assert(children_of_spec(f, p) == children_of_spec(o, p));
        } else {
            assert(node(f, p) == node(o, p));
        }
    }
    assert forall|p: ElementId, x: ElementId| #[trigger] children_of_spec(f, p).contains(x) implies x.0
        < f.slots.len() by {
        lemma_children_node(f, p);
        lemma_children_node(o, p);
        if p == parent {
            assert((pl + fr).contains(x));
            assert(children_of_spec(o, parent).contains(x));
        } else if p == m {
            assert(children_of_spec(f, p) == children_of_spec(o, p));
        } else {
            assert(node(f, p) == node(o, p));
        }
    }
    assert forall|p: ElementId, x: ElementId|
        #[trigger] children_of_spec(f, p).contains(x) && x.0 >= t0.slots.len() implies p == parent || (
        t0.slots.len() <= p.0 < x.0) by {
        lemma_children_node(f, p);
        lemma_children_node(o, p);
        if p == m {
            assert(children_of_spec(f, p) == children_of_spec(o, p));
        } else if p != parent {
            assert(node(f, p) == node(o, p));
        }
    }
}

proof fn lemma_free_empty_prefix(ex: Seq<ElementId>, used: Set<ElementId>, k: int)
    requires
        0 <= k <= ex.len(),
        forall|j: int| 0 <= j < k ==> used.contains(#[trigger] ex[j]),
    ensures
        free_elems(ex, used, k).len() == 0,
    decreases k,
{
    if k > 0 {
        lemma_free_empty_prefix(ex, used, k - 1);
    }
}

/// When every existing child before `ex[k]` is taken, the waiting children
/// start with `ex[k]`, and taking it leaves the rest in order.
proof fn lemma_free_skip(ex: Seq<ElementId>, used: Set<ElementId>, k: int, n: int)
    requires
        0 <= k < n <= ex.len(),
        ex.no_duplicates(),
        forall|j: int| 0 <= j < k ==> used.contains(#[trigger] ex[j]),
        !used.contains(ex[k]),
    ensures
        free_elems(ex, used, n).len() > 0,
        free_elems(ex, used, n)[0] == ex[k],
        free_elems(ex, used.insert(ex[k]), n) == free_elems(ex, used, n).drop_first(),
    decreases n,
{
    if n == k + 1 {
        lemma_free_empty_prefix(ex, used, k);
        assert forall|j: int| 0 <= j < k implies used.insert(ex[k]).contains(#[trigger] ex[j]) by {}
        lemma_free_empty_prefix(ex, used.insert(ex[k]), k);
        assert(free_elems(ex, used.insert(ex[k]), n) =~= Seq::<ElementId>::empty());
        assert(free_elems(ex, used, n).drop_first() =~= Seq::<ElementId>::empty());
    } else {
        lemma_free_skip(ex, used, k, n - 1);
        assert(ex[n - 1] != ex[k]);
        let p = free_elems(ex, used, n - 1);
        if !used.contains(ex[n - 1]) {
            assert(p.push(ex[n - 1]).drop_first() =~= p.drop_first().push(ex[n - 1]));
        }
    }
}

/// Keeping the first waiting child `m` where it is, as the next placed one.
proof fn lemma_step_skip(t0: TreeModel, parent: ElementId, o: TreeModel, pl: Seq<ElementId>, used: Set<ElementId>, k: int)
    requires
        well_linked(t0, parent),
        shaped(t0, parent, o, pl, used),
        0 <= k < children_of_spec(t0, parent).len(),
        forall|j: int| 0 <= j < k ==> used.contains(#[trigger] children_of_spec(t0, parent)[j]),
        !used.contains(children_of_spec(t0, parent)[k]),
    ensures
        ({
            let m = children_of_spec(t0, parent)[k];
            shaped(t0, parent, o, pl.push(m), used.insert(m))
        }),
{
    reveal(shaped);
    let ex = children_of_spec(t0, parent);
    let m = ex[k];
    let n = ex.len() as int;
    let fr = free_elems(ex, used, n);
    lemma_free_skip(ex, used, k, n);
    let fr2 = free_elems(ex, used.insert(m), n);
    assert(pl + fr =~= pl.push(m) + fr2);
    assert(!pl.contains(m)) by {
        if pl.contains(m) {
            let i = choose|i: int| 0 <= i < pl.len() && pl[i] == m;
            assert(used.contains(pl[i]) || !ex.contains(pl[i]));
            assert(ex.contains(ex[k]));
        }
    }
    assert forall|x: ElementId| #[trigger] fr2.contains(x) implies node(o, x) == node(t0, x) by {
        let q = choose|q: int| 0 <= q < fr2.len() && fr2[q] == x;
        assert(fr[q + 1] == x);
        assert(fr.contains(x));
    }
    assert forall|i: int| 0 <= i < pl.push(m).len() implies live(o, #[trigger] pl.push(m)[i]) && (used.insert(
        m,
    ).contains(pl.push(m)[i]) || !ex.contains(pl.push(m)[i])) by {
        if i < pl.len() {
            assert(pl.push(m)[i] == pl[i]);
        } else {
            assert(fr[0] == m);
            assert(fr.contains(m));
            assert(node(o, m) == node(t0, m));
            assert(node(t0, ex[k]) is Some);
        }
    }
}

/// Updating a placed element (its configuration or its listeners) keeps the
/// shape.
proof fn lemma_step_touch(
    t0: TreeModel,
    parent: ElementId,
    o: TreeModel,
    f: TreeModel,
    pl: Seq<ElementId>,
    used: Set<ElementId>,
    m: ElementId,
)
    requires
        well_linked(t0, parent),
        shaped(t0, parent, o, pl, used),
        pl.contains(m),
        crate::tree::same_outside(o, f, |x: ElementId| x == m),
        node(f, m) matches Some(v2) && node(o, m) matches Some(v1) && v2.children == v1.children,
    ensures
        shaped(t0, parent, f, pl, used),
        forall|x: ElementId| x != m ==> #[trigger] node(f, x) == node(o, x),
{
    reveal(shaped);
    let ex = children_of_spec(t0, parent);
    let fr = free_elems(ex, used, ex.len() as int);
    assert(node(f, parent) == node(o, parent)) by {
        if m == parent {
            let i = choose|i: int| 0 <= i < pl.len() && pl[i] == m;
            assert((pl + fr)[i] == m);
            assert(children_of_spec(o, parent).contains(parent));
        }
    }
    assert forall|x: ElementId| #[trigger] fr.contains(x) implies node(f, x) == node(t0, x) by {
        if x == m {
            let i = choose|i: int| 0 <= i < pl.len() && pl[i] == m;
            assert(used.contains(pl[i]) || !ex.contains(pl[i]));
            lemma_free_contains(ex, used, ex.len() as int, x);
            assert(ex.subrange(0, ex.len() as int) =~= ex);
        }
    }
    assert forall|i: int| 0 <= i < pl.len() implies live(f, #[trigger] pl[i]) && (used.contains(pl[i])
        || !ex.contains(pl[i])) by {
        if pl[i] != m {
            assert(node(f, pl[i]) == node(o, pl[i]));
        }
    }
    assert forall|p: ElementId| children_of_spec(f, p) == children_of_spec(o, p) by {
        lemma_children_node(f, p);
        lemma_children_node(o, p);
        if p != m {
            assert(node(f, p) == node(o, p));
        }
    }
}

/// Creating the subtree of the next view child `c` at the end of the placed
/// ones.
#[verifier::spinoff_prover]
proof fn lemma_step_create(
    t0: TreeModel,
    parent: ElementId,
    o: TreeModel,
    f: TreeModel,
    pl: Seq<ElementId>,
    used: Set<ElementId>,
    c: &ViewNode,
)
    requires
        well_linked(t0, parent),
        shaped(t0, parent, o, pl, used),
        o.slots.len() + subtree_size(c) < u64::MAX,
        pl.len() <= usize::MAX,
        patch_applied(o, Patch::Create { parent, position: pl.len() as usize, node: c }, f),
    ensures
        ({
            let id = ElementId(o.slots.len() as u64);
            &&& shaped(t0, parent, f, pl.push(id), used)
            &&& !children_of_spec(t0, parent).contains(id)
            &&& child_built(f, parent, id, c)
            &&& forall|x: ElementId| x.0 < o.slots.len() && x != parent ==> #[trigger] node(f, x) == node(o, x)
            &&& f.slots.len() == o.slots.len() + subtree_size(c)
        }),
{
    reveal(shaped);
    let ex = children_of_spec(t0, parent);
    let fr = free_elems(ex, used, ex.len() as int);
    let id = ElementId(o.slots.len() as u64);
    let v = node(o, parent).unwrap();
    let end = o.slots.len() + subtree_size(c);
    assert(parent.0 < o.slots.len());
    assert(parent != id);
    assert(built_subtree(f, id, c));
    assert(crate::tree::clamped(pl.len() as usize, v.children.len() as int) == pl.len()) by {
        assert(v.children == pl + fr);
    }
    assert((pl + fr).insert(pl.len() as int, id) =~= pl.push(id) + fr);
    assert(!ex.contains(id)) by {
        if ex.contains(id) {
            let j = choose|j: int| 0 <= j < ex.len() && ex[j] == id;
            assert(node(t0, ex[j]) is Some);
        }
    }
    assert forall|i: int| 0 <= i < pl.len() implies pl[i].0 < o.slots.len() && pl[i] != parent by {
        assert(live(o, pl[i]));
        assert((pl + fr)[i] == pl[i]);
        assert(children_of_spec(o, parent).contains(pl[i]));
    }
    assert(!pl.contains(id)) by {
        if pl.contains(id) {
            let i = choose|i: int| 0 <= i < pl.len() && pl[i] == id;
        }
    }
    assert forall|x: ElementId| #[trigger] fr.contains(x) implies node(f, x) == node(t0, x) by {
        let q = choose|q: int| 0 <= q < fr.len() && fr[q] == x;
        assert((pl + fr)[pl.len() + q] == x);
        assert(children_of_spec(o, parent).contains(x));
    }
    lemma_built_range(f, id, c, id);
    assert forall|i: int| 0 <= i < pl.push(id).len() implies live(f, #[trigger] pl.push(id)[i]) && (used.contains(
        pl.push(id)[i],
    ) || !ex.contains(pl.push(id)[i])) by {
        if i < pl.len() {
            assert(pl.push(id)[i] == pl[i]);
            assert(node(f, pl[i]) == node(o, pl[i]));
        }
    }
    // The lists of the new slots lie after their owner, inside the subtree.
    assert forall|p: ElementId, x: ElementId|
        o.slots.len() <= p.0 && #[trigger] children_of_spec(f, p).contains(x) implies p.0 < x.0 && x.0 < end by {
        lemma_children_node(f, p);
        if p.0 >= end {
            assert(node(f, p) is None);
        } else {
            lemma_built_range(f, id, c, p);
        }
    }
    assert forall|p: ElementId| p != parent && p.0 < o.slots.len() implies children_of_spec(f, p) == children_of_spec(
        o,
        p,
    ) by {
        lemma_children_node(f, p);
        lemma_children_node(o, p);
        assert(node(f, p) == node(o, p));
    }
    assert(children_of_spec(f, parent) == pl.push(id) + fr) by {
        lemma_children_node(f, parent);
    }
    assert forall|p: ElementId| !(#[trigger] children_of_spec(f, p)).contains(parent) by {
        if p == parent {
            if (pl.push(id) + fr).contains(parent) {
                let i = choose|i: int| 0 <= i < (pl.push(id) + fr).len() && (pl.push(id) + fr)[i] == parent;
                if i < pl.len() {
                    assert((pl + fr)[i] == parent);
                } else if i > pl.len() {
                    assert((pl + fr)[i - 1] == parent);
                }
                assert(children_of_spec(o, parent).contains(parent));
            }
        } else if p.0 >= o.slots.len() {
            if children_of_spec(f, p).contains(parent) {
            }
        }
    }
    assert forall|p: ElementId, x: ElementId|
        p != parent && (pl.push(id) + fr).contains(x) implies !#[trigger] children_of_spec(f, p).contains(x) by {
        let i = choose|i: int| 0 <= i < (pl.push(id) + fr).len() && (pl.push(id) + fr)[i] == x;
        if p.0 < o.slots.len() {
            if i < pl.len() {
                assert((pl + fr)[i] == x);
            } else if i > pl.len() {
                assert((pl + fr)[i - 1] == x);
            } else {
                if children_of_spec(o, p).contains(x) {
                    assert(x.0 < o.slots.len());
                }
            }
        } else {
            if children_of_spec(f, p).contains(x) {
                if i < pl.len() {
                    assert((pl + fr)[i] == x);
                    assert(children_of_spec(o, parent).contains(x));
                } else if i > pl.len() {
                    assert((pl + fr)[i - 1] == x);
                    assert(children_of_spec(o, parent).contains(x));
                }
            }
        }
    }
    assert forall|p: ElementId, x: ElementId| #[trigger] children_of_spec(f, p).contains(x) implies x.0
        < f.slots.len() by {
        if p == parent {
            let i = choose|i: int| 0 <= i < (pl.push(id) + fr).len() && (pl.push(id) + fr)[i] == x;
            if i < pl.len() {
                assert((pl + fr)[i] == x);
            } else if i > pl.len() {
                assert((pl + fr)[i - 1] == x);
            }
            if x != id {
                assert(children_of_spec(o, parent).contains(x));
            }
        } else if p.0 < o.slots.len() {
            assert(children_of_spec(o, p).contains(x));
        }
    }
    assert forall|p: ElementId, x: ElementId|
        #[trigger] children_of_spec(f, p).contains(x) && x.0 >= t0.slots.len() implies p == parent || (
        t0.slots.len() <= p.0 < x.0) by {
        if p != parent && p.0 < o.slots.len() {
            assert(children_of_spec(o, p).contains(x));
        }
    }
}

proof fn lemma_detached_sub(o: TreeModel, u: ElementId, p: ElementId, x: ElementId)
    ensures
        detached_children(o, u, p).contains(x) ==> children_of_spec(o, p).contains(x),
{
    lemma_children_node(o, p);
    match node(o, p) {
        Some(v) => {
            let s = v.children;
            lemma_without_sub(s, u, x, s.len() as int);
        },
        None => {},
    }
}

/// An element created since `t0` is not removed along with a waiting
/// child: the chain of elements listing it leads back to `parent`, which
/// stays.
proof fn lemma_created_stay(
    t0: TreeModel,
    parent: ElementId,
    o: TreeModel,
    f: TreeModel,
    pl: Seq<ElementId>,
    used: Set<ElementId>,
    u: ElementId,
    x: ElementId,
)
    requires
        shaped(t0, parent, o, pl, used),
        removal_done(o, u, f),
        u.0 < t0.slots.len(),
        !gone(o, f, parent),
        t0.slots.len() <= x.0,
    ensures
        !gone(o, f, x),
    decreases x.0,
{
    reveal(shaped);
    if gone(o, f, x) {
        let p = choose|p: ElementId| gone(o, f, p) && #[trigger] detached_children(o, u, p).contains(x);
        lemma_detached_sub(o, u, p, x);
        assert(children_of_spec(o, p).contains(x));
        if p != parent {
            lemma_created_stay(t0, parent, o, f, pl, used, u, p);
        }
    }
}

/// Removing a waiting child `u` that no view child took.
proof fn lemma_step_remove(
    t0: TreeModel,
    parent: ElementId,
    o: TreeModel,
    f: TreeModel,
    pl: Seq<ElementId>,
    used: Set<ElementId>,
    u: ElementId,
)
    requires
        well_linked(t0, parent),
        shaped(t0, parent, o, pl, used),
        free_elems(children_of_spec(t0, parent), used, children_of_spec(t0, parent).len() as int).contains(u),
        removal_done(o, u, f),
    ensures
        shaped(t0, parent, f, pl, used.insert(u)),
        forall|i: int| 0 <= i < pl.len() ==> #[trigger] node(f, pl[i]) == node(o, pl[i]),
        forall|y: ElementId| t0.slots.len() <= y.0 && y.0 < o.slots.len() ==> #[trigger] node(f, y) == node(o, y),
        f.slots.len() == o.slots.len(),
{
    reveal(shaped);
    let ex = children_of_spec(t0, parent);
    let fr = free_elems(ex, used, ex.len() as int);
    let fr2 = free_elems(ex, used.insert(u), ex.len() as int);
    let v = node(o, parent).unwrap();
    lemma_free_contains(ex, used, ex.len() as int, u);
    assert(ex.subrange(0, ex.len() as int) =~= ex);
    let j = choose|j: int| 0 <= j < ex.len() && ex[j] == u;
    assert(node(t0, ex[j]) matches Some(w) && w.parent == Some(parent));
    assert(node(o, u) == node(t0, u));
    assert(live(o, u));
    assert(u != parent) by {
        assert(!children_of_spec(t0, parent).contains(parent));
    }
    assert(!pl.contains(u)) by {
        if pl.contains(u) {
            let i = choose|i: int| 0 <= i < pl.len() && pl[i] == u;
            assert(used.contains(pl[i]) || !ex.contains(pl[i]));
        }
    }
    // The parent stays: nothing lists it.
    assert(!gone(o, f, parent)) by {
        if gone(o, f, parent) {
            let p = choose|p: ElementId| gone(o, f, p) && #[trigger] detached_children(o, u, p).contains(parent);
            lemma_detached_sub(o, u, p, parent);
        }
    }
    assert(live(o, parent));
    assert forall|y: ElementId| t0.slots.len() <= y.0 && y.0 < o.slots.len() implies #[trigger] node(f, y) == node(
        o,
        y,
    ) by {
        assert(u.0 < t0.slots.len()) by {
            assert(node(t0, u) is Some);
        }
        lemma_created_stay(t0, parent, o, f, pl, used, u, y);
        if live(f, y) {
            assert(node(f, y) == detached_node(o, u, y));
            assert(y != parent);
        } else {
            assert(!live(o, y));
        }
    }
    // Every listed child of the parent other than `u` stays and is unchanged.
    assert forall|x: ElementId| (pl + fr).contains(x) && x != u implies live(f, x) && #[trigger] node(f, x)
        == node(o, x) by {
        assert(children_of_spec(o, parent).contains(x));
        assert(live(o, x)) by {
            lemma_children_node(o, parent);
            assert(x.0 < o.slots.len());
            if pl.contains(x) {
                let i = choose|i: int| 0 <= i < pl.len() && pl[i] == x;
            } else {
                let q = choose|q: int| 0 <= q < (pl + fr).len() && (pl + fr)[q] == x;
                assert(fr.contains(x)) by {
                    assert(fr[q - pl.len()] == x);
                }
                lemma_free_contains(ex, used, ex.len() as int, x);
                let jj = choose|jj: int| 0 <= jj < ex.len() && ex[jj] == x;
                assert(node(t0, ex[jj]) is Some);
            }
        }
        if gone(o, f, x) {
            let p = choose|p: ElementId| gone(o, f, p) && #[trigger] detached_children(o, u, p).contains(x);
            lemma_detached_sub(o, u, p, x);
            if p != parent {
            }
        }
        assert(x != parent) by {
            if x == parent {
                assert(children_of_spec(o, parent).contains(parent));
            }
        }
    }
    lemma_without_append(pl, fr, u);
    lemma_free_take(ex, used, u, ex.len() as int);
    assert(node(f, parent) == detached_node(o, u, parent));
    assert(node(f, parent) == Some(EntryView { children: pl + fr2, ..v }));
    assert forall|x: ElementId| #[trigger] fr2.contains(x) implies node(f, x) == node(t0, x) by {
        lemma_without_sub(fr, u, x, fr.len() as int);
        let q = choose|q: int| 0 <= q < fr.len() && fr[q] == x;
        assert((pl + fr)[pl.len() + q] == x);
    }
    assert forall|i: int| 0 <= i < pl.len() implies #[trigger] node(f, pl[i]) == node(o, pl[i]) by {
        assert((pl + fr)[i] == pl[i]);
        assert((pl + fr).contains(pl[i]));
        assert(pl[i] != u);
    }
    assert forall|i: int| 0 <= i < pl.len() implies live(f, #[trigger] pl[i]) && (used.insert(u).contains(pl[i])
        || !ex.contains(pl[i])) by {
        assert((pl + fr)[i] == pl[i]);
        assert((pl + fr).contains(pl[i]));
        assert(pl[i] != u);
        assert(live(f, pl[i]) && node(f, pl[i]) == node(o, pl[i]));
    }
    assert forall|p: ElementId, x: ElementId| #[trigger] children_of_spec(f, p).contains(x) implies children_of_spec(
        o,
        p,
    ).contains(x) by {
        lemma_children_node(f, p);
        if live(f, p) {
            assert(node(f, p) == detached_node(o, u, p));
            lemma_detached_sub(o, u, p, x);
        }
    }
    assert forall|p: ElementId, x: ElementId|
        p != parent && (pl + fr2).contains(x) implies !#[trigger] children_of_spec(f, p).contains(x) by {
        let q = choose|q: int| 0 <= q < (pl + fr2).len() && (pl + fr2)[q] == x;
        if q >= pl.len() {
            assert(fr2.contains(x)) by {
                assert(fr2[q - pl.len()] == x);
            }
            lemma_without_sub(fr, u, x, fr.len() as int);
            let r = choose|r: int| 0 <= r < fr.len() && fr[r] == x;
            assert((pl + fr)[pl.len() + r] == x);
        } else {
            assert((pl + fr)[q] == x);
        }
    }
}

proof fn lemma_free_no_dup(ex: Seq<ElementId>, used: Set<ElementId>, n: int)
    requires
        0 <= n <= ex.len(),
        ex.no_duplicates(),
    ensures
        free_elems(ex, used, n).no_duplicates(),
    decreases n,
{
    if n > 0 {
        lemma_free_no_dup(ex, used, n - 1);
        let p = free_elems(ex, used, n - 1);
        if !used.contains(ex[n - 1]) {
            lemma_free_contains(ex, used, n - 1, ex[n - 1]);
            assert(!ex.subrange(0, n - 1).contains(ex[n - 1])) by {
                if ex.subrange(0, n - 1).contains(ex[n - 1]) {
                    let j = choose|j: int| 0 <= j < n - 1 && #[trigger] ex.subrange(0, n - 1)[j] == ex[n - 1];
                    assert(ex[j] == ex[n - 1]);
                }
            }
            let q = p.push(ex[n - 1]);
            assert forall|a: int, b: int| 0 <= a < b < q.len() implies #[trigger] q[a] != #[trigger] q[b] by {
                if b == p.len() {
                    assert(q[a] == p[a]);
                    assert(p.contains(p[a]));
                } else {
                    assert(q[a] == p[a] && q[b] == p[b]);
                }
            }
        }
    }
}

/// View child `i` of `n` is reconciled into the element `x` of `t`. When
/// the matcher found an existing element for it, `x` is that element,
/// reused: it hangs under `parent`, has the child's kind, key and
/// configuration and no children, and carries the child's listeners when
/// the child has any. Otherwise `x` is a new element under `parent` whose
/// whole subtree mirrors the view child (`child_built`).
pub open spec fn reconciled_child(t0: TreeModel, t: TreeModel, parent: ElementId, n: &ViewNode, i: int, x: ElementId) -> bool {
    let ex = children_of_spec(t0, parent);
    let kids = n.children@;
    let c = kids[i];
    match match_for(t0, ex, taken(t0, ex, kids, i), c, i) {
        Some(m) => x == m && (node(t, x) matches Some(v) && v.kind == c.kind && key_seq(v.key) == key_seq(c.key)
            && v.config == c.config && v.parent == Some(parent) && v.children.len() == 0 && (c.listeners@.len()
            > 0 ==> v.listeners == c.listeners@)),
        None => {
            &&& child_built(t, parent, x, &kids[i])
            &&& t0.slots.len() <= x.0
            &&& x.0 + subtree_size(&kids[i]) <= t.slots.len()
            &&& x.0 + subtree_size(&kids[i]) < u64::MAX
        },
    }
}

/// A reconciled child stays reconciled through a step that keeps it and
/// every element created since `t0`.
proof fn lemma_child_kept(
    t0: TreeModel,
    parent: ElementId,
    n: &ViewNode,
    o: TreeModel,
    f: TreeModel,
    i: int,
    x: ElementId,
)
    requires
        0 <= i < n.children@.len(),
        reconciled_child(t0, o, parent, n, i, x),
        f.slots.len() >= o.slots.len(),
        node(f, x) == node(o, x),
        forall|y: ElementId| t0.slots.len() <= y.0 && y.0 < o.slots.len() ==> #[trigger] node(f, y) == node(o, y),
    ensures
        reconciled_child(t0, f, parent, n, i, x),
{
    let ex = children_of_spec(t0, parent);
    let kids = n.children@;
    match match_for(t0, ex, taken(t0, ex, kids, i), kids[i], i) {
        Some(m) => {},
        None => {
            assert forall|y: ElementId| x.0 < y.0 < x.0 + subtree_size(&kids[i]) implies #[trigger] node(f, y)
                == node(o, y) by {}
            lemma_built_frame(o, f, x, &kids[i]);
        },
    }
}

/// The removals at the end of a reconciliation: each waiting child that no
/// view child took, in order.
proof fn lemma_removal_phase(
    t0: TreeModel,
    parent: ElementId,
    n: &ViewNode,
    chain: Seq<TreeModel>,
    a: int,
    pl: Seq<ElementId>,
    used: Set<ElementId>,
    q: int,
)
    requires
        well_linked(t0, parent),
        shaped(t0, parent, chain[a], pl, used),
        pl.len() <= n.children@.len(),
        forall|i: int| 0 <= i < pl.len() ==> reconciled_child(t0, chain[a], parent, n, i, #[trigger] pl[i]),
        0 <= a,
        0 <= q <= free_elems(children_of_spec(t0, parent), used, children_of_spec(t0, parent).len() as int).len(),
        a + q < chain.len(),
        forall|r: int|
            0 <= r < q ==> patch_applied(
                #[trigger] chain[a + r],
                Patch::Remove {
                    id: free_elems(children_of_spec(t0, parent), used, children_of_spec(t0, parent).len() as int)[r],
                },
                chain[a + r + 1],
            ),
    ensures
        shaped(
            t0,
            parent,
            chain[a + q],
            pl,
            used.union(
                free_elems(children_of_spec(t0, parent), used, children_of_spec(t0, parent).len() as int).subrange(
                    0,
                    q,
                ).to_set(),
            ),
        ),
        forall|i: int| 0 <= i < pl.len() ==> reconciled_child(t0, chain[a + q], parent, n, i, #[trigger] pl[i]),
    decreases q,
{
    let ex = children_of_spec(t0, parent);
    let fr = free_elems(ex, used, ex.len() as int);
    if q == 0 {
        assert(used.union(fr.subrange(0, 0).to_set()) =~= used);
    } else {
        lemma_removal_phase(t0, parent, n, chain, a, pl, used, q - 1);
        let u = fr[q - 1];
        let used1 = used.union(fr.subrange(0, q - 1).to_set());
        lemma_free_no_dup(ex, used, ex.len() as int);
        lemma_free_contains(ex, used, ex.len() as int, u);
        assert(fr.contains(u));
        assert(!fr.subrange(0, q - 1).contains(u)) by {
            if fr.subrange(0, q - 1).contains(u) {
                let j = choose|j: int| 0 <= j < q - 1 && #[trigger] fr.subrange(0, q - 1)[j] == u;
                assert(fr[j] == fr[q - 1]);
            }
        }
        assert(!used1.contains(u));
        lemma_free_contains(ex, used1, ex.len() as int, u);
        assert(patch_applied(chain[a + (q - 1)], Patch::Remove { id: u }, chain[a + (q - 1) + 1]));
        lemma_step_remove(t0, parent, chain[a + q - 1], chain[a + q], pl, used1, u);
        assert(used1.insert(u) =~= used.union(fr.subrange(0, q).to_set())) by {
            assert(fr.subrange(0, q) =~= fr.subrange(0, q - 1).push(u));
            assert forall|x: ElementId| fr.subrange(0, q).contains(x) <==> (fr.subrange(0, q - 1).contains(x) || x
                == u) by {
                crate::seqs::lemma_push_contains(fr.subrange(0, q - 1), u, x);
            }
        }
        assert forall|i: int| 0 <= i < pl.len() implies reconciled_child(
            t0,
            chain[a + q],
            parent,
            n,
            i,
            #[trigger] pl[i],
        ) by {
            assert(reconciled_child(t0, chain[a + q - 1], parent, n, i, pl[i]));
            lemma_child_kept(t0, parent, n, chain[a + q - 1], chain[a + q], i, pl[i]);
        }
    }
}

proof fn lemma_position(ex: Seq<ElementId>, m: ElementId, i: int)
    requires
        0 <= i <= ex.len(),
        ex.subrange(i, ex.len() as int).contains(m),
    ensures
        i <= position_of(ex, m, i) < ex.len(),
        ex[position_of(ex, m, i)] == m,
    decreases ex.len() - i,
{
    if ex[i] != m {
        assert(ex.subrange(i + 1, ex.len() as int).contains(m)) by {
            let j = choose|j: int| 0 <= j < ex.len() - i && #[trigger] ex.subrange(i, ex.len() as int)[j] == m;
            assert(j != 0);
            assert(ex.subrange(i + 1, ex.len() as int)[j - 1] == m);
        }
        lemma_position(ex, m, i + 1);
    }
}

/// The configuration patch of a reused element (an update, a listeners-only
/// update, or none) leaves it mirroring its view child.
proof fn lemma_touch_phase<'a>(
    t0: TreeModel,
    parent: ElementId,
    n: &'a ViewNode,
    o: TreeModel,
    f: TreeModel,
    pl: Seq<ElementId>,
    used: Set<ElementId>,
    k: int,
    m: ElementId,
    up: Seq<Patch<'a>>,
)
    requires
        well_linked(t0, parent),
        shaped(t0, parent, o, pl, used),
        0 <= k < n.children@.len(),
        pl.len() == k + 1,
        pl[k] == m,
        node(o, m) matches Some(v) && node(t0, m) matches Some(w) && v == (EntryView {
            parent: Some(parent),
            dirty: v.dirty,
            ..w
        }),
        children_of_spec(t0, m).len() == 0,
        up == ({
            let c = &n.children@[k];
            let same = match node(t0, m) {
                Some(v) => v.kind == c.kind && key_seq(v.key) == key_seq(c.key) && v.config == c.config,
                None => false,
            };
            if !same {
                seq![Patch::Update { id: m, node: c }]
            } else if c.listeners@.len() > 0 {
                seq![Patch::UpdateListeners { id: m, node: c }]
            } else {
                Seq::<Patch<'a>>::empty()
            }
        }),
        up.len() == 0 ==> f == o,
        up.len() > 0 ==> patch_applied(o, up[0], f),
    ensures
        shaped(t0, parent, f, pl, used),
        forall|x: ElementId| x != m ==> #[trigger] node(f, x) == node(o, x),
        ({
            let c = n.children@[k];
            node(f, m) matches Some(v) && v.kind == c.kind && key_seq(v.key) == key_seq(c.key) && v.config == c.config
                && v.parent == Some(parent) && v.children.len() == 0 && (c.listeners@.len() > 0 ==> v.listeners
                == c.listeners@)
        }),
{
    let w = node(t0, m).unwrap();
    assert(w.children.len() == 0) by {
        lemma_children_node(t0, m);
    }
    assert(pl.contains(m)) by {
        assert(pl[k] == m);
    }
    if up.len() > 0 {
        lemma_step_touch(t0, parent, o, f, pl, used, m);
    }
}

/// The patches of view child `k` of `n` under `parent` (see `child_patches`).
pub open spec fn group<'a>(t0: TreeModel, n: &'a ViewNode, parent: ElementId, k: int) -> Seq<Patch<'a>> {
    let ex = children_of_spec(t0, parent);
    let kids = n.children@;
    let c = &kids[k];
    match match_for(t0, ex, taken(t0, ex, kids, k), *c, k) {
        Some(id) => reuse_patches(t0, ex, c, parent, k, id) + diff_spec(t0, c, id),
        None => seq![Patch::Create { parent, position: k as usize, node: c }],
    }
}

/// A view child that the matcher reuses an existing element for has no
/// children, and neither has that element.
pub open spec fn flat_view(t0: TreeModel, n: &ViewNode, parent: ElementId) -> bool {
    let ex = children_of_spec(t0, parent);
    let kids = n.children@;
    forall|k: int|
        0 <= k < kids.len() ==> (match_for(t0, ex, taken(t0, ex, kids, k), #[trigger] kids[k], k) matches Some(m)
            ==> kids[k].children@.len() == 0 && children_of_spec(t0, m).len() == 0)
}

/// Whenever the matcher finds, for view child `k`, the existing child that
/// already sits at position `k` (so that it is not moved), every existing
/// child before it has been taken by an earlier view child.
pub open spec fn in_place_ok(t0: TreeModel, n: &ViewNode, parent: ElementId) -> bool {
    let ex = children_of_spec(t0, parent);
    let kids = n.children@;
    forall|k: int|
        0 <= k < kids.len() ==> (match_for(t0, ex, taken(t0, ex, kids, k), #[trigger] kids[k], k) matches Some(m)
            && position_of(ex, m, 0) == k ==> forall|j: int| 0 <= j < k ==> taken(t0, ex, kids, k).contains(ex[j]))
}

/// After the first `k` view children: the placed elements `pl` reconcile
/// them, in order.
pub open spec fn stage(t0: TreeModel, parent: ElementId, n: &ViewNode, t: TreeModel, k: int, pl: Seq<ElementId>) -> bool {
    let ex = children_of_spec(t0, parent);
    &&& shaped(t0, parent, t, pl, taken(t0, ex, n.children@, k))
    &&& pl.len() == k
    &&& t.slots.len() <= t0.slots.len() + forest_size(n, k)
    &&& forall|i: int| 0 <= i < k ==> reconciled_child(t0, t, parent, n, i, #[trigger] pl[i])
}

/// View child `k` without a match: its subtree is created.
proof fn lemma_group_create<'a>(
    t0: TreeModel,
    parent: ElementId,
    n: &'a ViewNode,
    o: TreeModel,
    f: TreeModel,
    k: int,
    pl: Seq<ElementId>,
) -> (pl2: Seq<ElementId>)
    requires
        well_linked(t0, parent),
        0 <= k < n.children@.len(),
        stage(t0, parent, n, o, k, pl),
        match_for(
            t0,
            children_of_spec(t0, parent),
            taken(t0, children_of_spec(t0, parent), n.children@, k),
            n.children@[k],
            k,
        ) is None,
        t0.slots.len() + forest_size(n, n.children@.len() as int) < u64::MAX,
        patch_applied(o, Patch::Create { parent, position: k as usize, node: &n.children@[k] }, f),
    ensures
        stage(t0, parent, n, f, k + 1, pl2),
{
    let ex = children_of_spec(t0, parent);
    let kids = n.children@;
    assert(n.children.len() == kids.len());
    lemma_forest_mono(n, k + 1, kids.len() as int);
    assert(forest_size(n, k + 1) == forest_size(n, k) + subtree_size(&kids[k]));
    lemma_shaped_facts(t0, parent, o, pl, taken(t0, ex, kids, k));
    lemma_step_create(t0, parent, o, f, pl, taken(t0, ex, kids, k), &kids[k]);
    let id = ElementId(o.slots.len() as u64);
    let pl2 = pl.push(id);
    assert(taken(t0, ex, kids, k + 1) == taken(t0, ex, kids, k));
    assert forall|y: ElementId| t0.slots.len() <= y.0 && y.0 < o.slots.len() implies #[trigger] node(f, y) == node(
        o,
        y,
    ) by {
        assert(parent.0 < t0.slots.len()) by {
            assert(live(t0, parent));
        }
    }
    assert forall|i: int| 0 <= i < k + 1 implies reconciled_child(t0, f, parent, n, i, #[trigger] pl2[i]) by {
        if i < k {
            assert(pl2[i] == pl[i]);
            assert(reconciled_child(t0, o, parent, n, i, pl[i]));
            assert(node(f, pl[i]) == node(o, pl[i]));
            lemma_child_kept(t0, parent, n, o, f, i, pl[i]);
        }
    }
    pl2
}

/// Putting the matched element `m` of view child `k` in place: it is moved
/// there, or it is already there.
proof fn lemma_place_phase<'a>(
    t0: TreeModel,
    parent: ElementId,
    n: &'a ViewNode,
    chain: Seq<TreeModel>,
    a: int,
    k: int,
    pl: Seq<ElementId>,
    m: ElementId,
    mv: Seq<Patch<'a>>,
)
    requires
        well_linked(t0, parent),
        in_place_ok(t0, n, parent),
        0 <= k < n.children@.len(),
        0 <= a,
        a + mv.len() < chain.len(),
        pl.len() == k,
        shaped(t0, parent, chain[a], pl, taken(t0, children_of_spec(t0, parent), n.children@, k)),
        match_for(
            t0,
            children_of_spec(t0, parent),
            taken(t0, children_of_spec(t0, parent), n.children@, k),
            n.children@[k],
            k,
        ) == Some(m),
        mv == (if position_of(children_of_spec(t0, parent), m, 0) >= 0 && position_of(
            children_of_spec(t0, parent),
            m,
            0,
        ) != k {
            seq![Patch::Move { id: m, parent, position: k as usize }]
        } else {
            Seq::<Patch<'a>>::empty()
        }),
        mv.len() > 0 ==> patch_applied(chain[a], mv[0], chain[a + 1]),
    ensures
        ({
            let ex = children_of_spec(t0, parent);
            let used = taken(t0, ex, n.children@, k);
            let o = chain[a];
            let mid = chain[a + mv.len()];
            &&& shaped(t0, parent, mid, pl.push(m), used.insert(m))
            &&& node(mid, m) matches Some(v) && v == (EntryView {
                parent: Some(parent),
                dirty: v.dirty,
                ..node(t0, m).unwrap()
            })
            &&& m.0 < t0.slots.len()
            &&& node(t0, m) is Some
            &&& forall|y: ElementId| y != m && y != parent ==> #[trigger] node(mid, y) == node(o, y)
            &&& mid.slots.len() == o.slots.len()
        }),
{
    let ex = children_of_spec(t0, parent);
    let kids = n.children@;
    let c = &kids[k];
    let used = taken(t0, ex, kids, k);
    let o = chain[a];
    assert(n.children.len() == kids.len());
    lemma_match_free(t0, ex, used, *c, k);
    assert(ex.subrange(0, ex.len() as int) =~= ex);
    lemma_position(ex, m, 0);
    let cur = position_of(ex, m, 0);
    assert(node(t0, ex[cur]) matches Some(w) && w.parent == Some(parent));
    assert(m.0 < t0.slots.len());
    lemma_free_contains(ex, used, ex.len() as int, m);
    lemma_shaped_facts(t0, parent, o, pl, used);
    if cur != k {
        lemma_step_move(t0, parent, o, chain[a + 1], pl, used, m);
    } else {
        lemma_step_skip(t0, parent, o, pl, used, k);
        assert(ex[k] == m);
    }
}

/// View child `k` matched to the existing element `m`: `m` is moved into
/// place (or is already there), then brought up to date.
#[verifier::spinoff_prover]
#[verifier::rlimit(40)]
proof fn lemma_group_reuse<'a>(
    t0: TreeModel,
    parent: ElementId,
    n: &'a ViewNode,
    chain: Seq<TreeModel>,
    a: int,
    k: int,
    pl: Seq<ElementId>,
    m: ElementId,
) -> (pl2: Seq<ElementId>)
    requires
        well_linked(t0, parent),
        flat_view(t0, n, parent),
        in_place_ok(t0, n, parent),
        0 <= k < n.children@.len(),
        0 <= a,
        stage(t0, parent, n, chain[a], k, pl),
        match_for(
            t0,
            children_of_spec(t0, parent),
            taken(t0, children_of_spec(t0, parent), n.children@, k),
            n.children@[k],
            k,
        ) == Some(m),
        a + group(t0, n, parent, k).len() < chain.len(),
        forall|i: int|
            0 <= i < group(t0, n, parent, k).len() ==> patch_applied(
                #[trigger] chain[a + i],
                group(t0, n, parent, k)[i],
                chain[a + i + 1],
            ),
    ensures
        stage(t0, parent, n, chain[a + group(t0, n, parent, k).len()], k + 1, pl2),
{
    let ex = children_of_spec(t0, parent);
    let kids = n.children@;
    let c = &kids[k];
    let used = taken(t0, ex, kids, k);
    let g = group(t0, n, parent, k);
    assert(taken(t0, ex, kids, k + 1) == used.insert(m));
    assert(kids[k].children@.len() == 0);
    assert(children_of_spec(t0, m).len() == 0);
    assert(diff_spec(t0, c, m) =~= Seq::<Patch<'a>>::empty()) by {
        assert(crate::reconcile::child_patches(t0, c, m, 0) =~= Seq::<Patch<'a>>::empty());
        assert(removals::<'a>(t0, children_of_spec(t0, m), taken(t0, children_of_spec(t0, m), c.children@, 0), 0)
            =~= Seq::<Patch<'a>>::empty());
    }
    let cur = position_of(ex, m, 0);
    let mv: Seq<Patch<'a>> = if cur >= 0 && cur != k {
        seq![Patch::Move { id: m, parent, position: k as usize }]
    } else {
        Seq::<Patch<'a>>::empty()
    };
    let same = match node(t0, m) {
        Some(v) => v.kind == c.kind && key_seq(v.key) == key_seq(c.key) && v.config == c.config,
        None => false,
    };
    let up: Seq<Patch<'a>> = if !same {
        seq![Patch::Update { id: m, node: c }]
    } else if c.listeners@.len() > 0 {
        seq![Patch::UpdateListeners { id: m, node: c }]
    } else {
        Seq::<Patch<'a>>::empty()
    };
    assert(g =~= mv + up);
    if mv.len() > 0 {
        assert(patch_applied(chain[a + 0], g[0], chain[a + 0 + 1]));
    }
    let o = chain[a];
    lemma_place_phase(t0, parent, n, chain, a, k, pl, m, mv);
    let b = a + mv.len();
    let mid = chain[b];
    let pl2 = pl.push(m);
    if up.len() > 0 {
        assert(patch_applied(chain[a + mv.len()], g[mv.len() as int], chain[a + mv.len() + 1]));
    }
    let fin = chain[b + up.len()];
    lemma_touch_phase(t0, parent, n, mid, fin, pl2, used.insert(m), k, m, up);
    lemma_shaped_facts(t0, parent, o, pl, used);
    assert forall|y: ElementId| t0.slots.len() <= y.0 && y.0 < o.slots.len() implies #[trigger] node(fin, y) == node(
        o,
        y,
    ) by {
        assert(parent.0 < t0.slots.len()) by {
            assert(live(t0, parent));
        }
        assert(node(mid, y) == node(o, y));
    }
    assert forall|i: int| 0 <= i < k + 1 implies reconciled_child(t0, fin, parent, n, i, #[trigger] pl2[i]) by {
        if i < k {
            assert(pl2[i] == pl[i]);
            assert(reconciled_child(t0, o, parent, n, i, pl[i]));
            assert(pl[i] != m) by {
                lemma_match_free(t0, ex, used, *c, k);
                assert(used.contains(pl[i]) || !ex.contains(pl[i]));
            }
            assert(node(mid, pl[i]) == node(o, pl[i]));
            assert(node(fin, pl[i]) == node(mid, pl[i]));
            lemma_child_kept(t0, parent, n, o, fin, i, pl[i]);
        }
    }
    assert(a + g.len() == b + up.len());
    pl2
}

proof fn lemma_group_split<'a>(t0: TreeModel, n: &'a ViewNode, parent: ElementId, k: int)
    requires
        0 <= k < n.children@.len(),
    ensures
        child_patches(t0, n, parent, k + 1) == child_patches(t0, n, parent, k) + group(t0, n, parent, k),
{
    let ex = children_of_spec(t0, parent);
    let kids = n.children@;
    let c = &kids[k];
    let prev = child_patches(t0, n, parent, k);
    match match_for(t0, ex, taken(t0, ex, kids, k), *c, k) {
        Some(id) => {
            assert(prev + reuse_patches(t0, ex, c, parent, k, id) + diff_spec(t0, c, id) =~= prev + (reuse_patches(
                t0,
                ex,
                c,
                parent,
                k,
                id,
            ) + diff_spec(t0, c, id)));
        },
        None => {
            assert(prev.push(Patch::Create { parent, position: k as usize, node: c }) =~= prev + seq![
                Patch::Create { parent, position: k as usize, node: c },
            ]);
        },
    }
}

proof fn lemma_patches_prefix<'a>(t0: TreeModel, n: &'a ViewNode, parent: ElementId, k: int, m: int)
    requires
        0 <= k <= m <= n.children@.len(),
    ensures
        child_patches(t0, n, parent, k).len() <= child_patches(t0, n, parent, m).len(),
        forall|j: int|
            0 <= j < child_patches(t0, n, parent, k).len() ==> #[trigger] child_patches(t0, n, parent, m)[j]
                == child_patches(t0, n, parent, k)[j],
    decreases m - k,
{
    if k < m {
        lemma_patches_prefix(t0, n, parent, k, m - 1);
        lemma_group_split(t0, n, parent, m - 1);
    }
}

/// The tree after the patches of the first `k` view children.
#[verifier::spinoff_prover]
#[verifier::rlimit(40)]
proof fn lemma_children_phase<'a>(
    t0: TreeModel,
    parent: ElementId,
    n: &'a ViewNode,
    chain: Seq<TreeModel>,
    k: int,
) -> (pl: Seq<ElementId>)
    requires
        well_linked(t0, parent),
        flat_view(t0, n, parent),
        in_place_ok(t0, n, parent),
        0 <= k <= n.children@.len(),
        t0.slots.len() + forest_size(n, n.children@.len() as int) < u64::MAX,
        chain.len() == diff_spec(t0, n, parent).len() + 1,
        chain[0] == t0,
        forall|j: int|
            0 <= j < diff_spec(t0, n, parent).len() ==> patch_applied(
                #[trigger] chain[j],
                diff_spec(t0, n, parent)[j],
                chain[j + 1],
            ),
    ensures
        stage(t0, parent, n, chain[child_patches(t0, n, parent, k).len() as int], k, pl),
    decreases k,
{
    let ex = children_of_spec(t0, parent);
    let kids = n.children@;
    let nn = kids.len() as int;
    let ps = diff_spec(t0, n, parent);
    let full = child_patches(t0, n, parent, nn);
    assert(ps == full + removals(t0, ex, taken(t0, ex, kids, nn), ex.len() as int));
    if k == 0 {
        lemma_shaped_start(t0, parent);
        assert(taken(t0, ex, kids, 0) == Set::<ElementId>::empty());
        assert(forest_size(n, 0) == 0);
        Seq::empty()
    } else {
        let pl = lemma_children_phase(t0, parent, n, chain, k - 1);
        let a = child_patches(t0, n, parent, k - 1).len() as int;
        let g = group(t0, n, parent, k - 1);
        lemma_group_split(t0, n, parent, k - 1);
        lemma_patches_prefix(t0, n, parent, k, nn);
        assert forall|i: int| 0 <= i < g.len() implies patch_applied(#[trigger] chain[a + i], g[i], chain[a + i + 1]) by {
            assert(child_patches(t0, n, parent, k)[a + i] == g[i]);
            assert(full[a + i] == g[i]);
            assert(ps[a + i] == g[i]);
            assert(patch_applied(chain[a + i], ps[a + i], chain[a + i + 1]));
        }
        let c = kids[k - 1];
        match match_for(t0, ex, taken(t0, ex, kids, k - 1), c, k - 1) {
            Some(m) => {
                let pl2 = lemma_group_reuse(t0, parent, n, chain, a, k - 1, pl, m);
                assert(a + g.len() == child_patches(t0, n, parent, k).len());
                pl2
            },
            None => {
                assert(g =~= seq![Patch::Create { parent, position: (k - 1) as usize, node: &kids[k - 1] }]);
                assert(patch_applied(chain[a + 0], g[0], chain[a + 0 + 1]));
                let pl2 = lemma_group_create(t0, parent, n, chain[a], chain[a + 1], k - 1, pl);
                assert(a + 1 == child_patches(t0, n, parent, k).len());
                pl2
            },
        }
    }
}

proof fn lemma_removals_free<'a>(t0: TreeModel, parent: ElementId, used: Set<ElementId>, i: int)
    requires
        well_linked(t0, parent),
        0 <= i <= children_of_spec(t0, parent).len(),
    ensures
        removals::<'a>(t0, children_of_spec(t0, parent), used, i).len() == free_elems(
            children_of_spec(t0, parent),
            used,
            i,
        ).len(),
        forall|q: int|
            0 <= q < free_elems(children_of_spec(t0, parent), used, i).len() ==> #[trigger] removals::<'a>(
                t0,
                children_of_spec(t0, parent),
                used,
                i,
            )[q] == (Patch::Remove { id: free_elems(children_of_spec(t0, parent), used, i)[q] }),
    decreases i,
{
    let ex = children_of_spec(t0, parent);
    if i > 0 {
        lemma_removals_free(t0, parent, used, i - 1);
        assert(node(t0, ex[i - 1]) is Some);
        assert(live(t0, ex[i - 1]));
    }
}

/// The children of `parent` in `t` reconcile the children of `n`, one per
/// view child, in order (see `reconciled_child`).
pub open spec fn children_follow(t0: TreeModel, t: TreeModel, parent: ElementId, n: &ViewNode) -> bool {
    node(t, parent) matches Some(v) && v.children.len() == n.children@.len() && forall|i: int|
        0 <= i < n.children@.len() ==> reconciled_child(t0, t, parent, n, i, #[trigger] v.children[i])
}

/// What the law needs of a reconciliation: a well-linked parent, leaves on
/// both sides wherever an element is reused (created children may carry
/// whole subtrees), in-place matches that follow the taken ones, and room
/// for every node of the view's children.
pub open spec fn law_applies(t0: TreeModel, n: &ViewNode, parent: ElementId) -> bool {
    &&& well_linked(t0, parent)
    &&& flat_view(t0, n, parent)
    &&& in_place_ok(t0, n, parent)
    &&& t0.slots.len() + forest_size(n, n.children@.len() as int) < u64::MAX
}

/// Reconciling the view node `n` against an existing parent reuses what the
/// matcher finds and leaves the parent with exactly one child per view
/// child, in the view's order. Child `i` is the element the matcher found
/// for view child `i` whenever it found one (reused, not recreated), and it
/// then mirrors view child `i` (kind, key, configuration, no children, and
/// the view child's listeners when it has any); otherwise child `i` is a new
/// element whose whole subtree mirrors view child `i` (`child_built`).
/// Stated for a well-linked parent whose reused elements and their view
/// children are leaves, and for matchings where an element found already at
/// its view position comes after every existing child taken before it
/// (`in_place_ok`); when that fails, the element is left where it is and can
/// end up out of order.
#[verifier::spinoff_prover]
#[verifier::rlimit(40)]
pub proof fn lemma_reconciled_children_follow_view<'a>(
    t0: TreeModel,
    n: &'a ViewNode,
    parent: ElementId,
    chain: Seq<TreeModel>,
)
    requires
        law_applies(t0, n, parent),
        chain.len() == diff_spec(t0, n, parent).len() + 1,
        chain[0] == t0,
        forall|j: int|
            0 <= j < diff_spec(t0, n, parent).len() ==> patch_applied(
                #[trigger] chain[j],
                diff_spec(t0, n, parent)[j],
                chain[j + 1],
            ),
    ensures
        children_follow(t0, chain.last(), parent, n),
{
    let ex = children_of_spec(t0, parent);
    let kids = n.children@;
    let nn = kids.len() as int;
    let ps = diff_spec(t0, n, parent);
    let full = child_patches(t0, n, parent, nn);
    let used = taken(t0, ex, kids, nn);
    let rm = removals::<'a>(t0, ex, used, ex.len() as int);
    assert(ps == full + rm);
    let pl = lemma_children_phase(t0, parent, n, chain, nn);
    let a = full.len() as int;
    let fr = free_elems(ex, used, ex.len() as int);
    lemma_removals_free(t0, parent, used, ex.len() as int);
    assert forall|r: int| 0 <= r < fr.len() implies patch_applied(
        #[trigger] chain[a + r],
        Patch::Remove { id: fr[r] },
        chain[a + r + 1],
    ) by {
        assert(ps[a + r] == rm[r]);
        assert(patch_applied(chain[a + r], ps[a + r], chain[a + r + 1]));
    }
    lemma_removal_phase(t0, parent, n, chain, a, pl, used, fr.len() as int);
    let all = used.union(fr.subrange(0, fr.len() as int).to_set());
    assert(fr.subrange(0, fr.len() as int) =~= fr);
    assert forall|j: int| 0 <= j < ex.len() implies all.contains(#[trigger] ex[j]) by {
        if !used.contains(ex[j]) {
            lemma_free_contains(ex, used, ex.len() as int, ex[j]);
            assert(ex.subrange(0, ex.len() as int) =~= ex);
            assert(ex.subrange(0, ex.len() as int)[j] == ex[j]);
            assert(fr.contains(ex[j]));
        }
    }
    lemma_free_empty_prefix(ex, all, ex.len() as int);
    let last = chain[a + fr.len()];
    assert(chain.last() == last);
    lemma_shaped_facts(t0, parent, last, pl, all);
    assert(pl + free_elems(ex, all, ex.len() as int) =~= pl);
}


/// Every patch of `ps` only gives an element fresh listeners.
pub open spec fn only_listener_refreshes<'a>(ps: Seq<Patch<'a>>) -> bool {
    forall|j: int| 0 <= j < ps.len() ==> #[trigger] ps[j] is UpdateListeners
}

proof fn lemma_refreshes_concat<'a>(a: Seq<Patch<'a>>, b: Seq<Patch<'a>>)
    requires
        only_listener_refreshes(a),
        only_listener_refreshes(b),
    ensures
        only_listener_refreshes(a + b),
{
    assert forall|j: int| 0 <= j < (a + b).len() implies #[trigger] (a + b)[j] is UpdateListeners by {
        if j < a.len() {
            assert((a + b)[j] == a[j]);
        } else {
            assert((a + b)[j] == b[j - a.len()]);
        }
    }
}

/// The children of a built element, in slot order.
proof fn lemma_built_children(t: TreeModel, id: ElementId, n: &ViewNode, i: int, j: int)
    requires
        built_subtree(t, id, n),
        id.0 + subtree_size(n) <= u64::MAX,
        0 <= i < j < n.children@.len(),
    ensures
        children_of_spec(t, id).len() == n.children@.len(),
        children_of_spec(t, id)[i].0 < children_of_spec(t, id)[j].0,
{
    lemma_children_node(t, id);
    let kids = n.children@;
    assert(n.children.len() == kids.len());
    lemma_forest_mono(n, i + 1, j);
    lemma_forest_mono(n, j, kids.len() as int);
    assert(forest_size(n, i + 1) == forest_size(n, i) + subtree_size(&kids[i]));
    assert(children_of_spec(t, id)[i] == ElementId((id.0 + 1 + forest_size(n, i)) as u64));
    assert(children_of_spec(t, id)[j] == ElementId((id.0 + 1 + forest_size(n, j)) as u64));
}

proof fn lemma_position_first(ex: Seq<ElementId>, k: int, i: int)
    requires
        0 <= i <= k < ex.len(),
        forall|j: int| 0 <= j < k ==> ex[j] != ex[k],
    ensures
        position_of(ex, ex[k], i) == k,
    decreases k - i,
{
    if i < k {
        lemma_position_first(ex, k, i + 1);
    }
}

proof fn lemma_keyed_first(t: TreeModel, ex: Seq<ElementId>, used: Set<ElementId>, key: Seq<char>, k: int, i: int)
    requires
        0 <= i <= k < ex.len(),
        forall|j: int| 0 <= j < k ==> used.contains(#[trigger] ex[j]),
        !used.contains(ex[k]),
        crate::reconcile::keyed(t, ex[k], key),
    ensures
        first_free_keyed(t, ex, used, key, i) == Some(ex[k]),
    decreases k - i,
{
    if i < k {
        assert(used.contains(ex[i]));
        lemma_keyed_first(t, ex, used, key, k, i + 1);
    }
}

/// The view child `c` at position `k` takes the free element `ex[k]` of its
/// kind and key when every element before it is taken.
proof fn lemma_quiet_match(t: TreeModel, ex: Seq<ElementId>, u: Set<ElementId>, c: ViewNode, k: int)
    requires
        0 <= k < ex.len(),
        forall|j: int| 0 <= j < k ==> u.contains(#[trigger] ex[j]),
        !u.contains(ex[k]),
        node(t, ex[k]) matches Some(v) && v.kind == c.kind && v.key == c.key,
    ensures
        match_for(t, ex, u, c, k) == Some(ex[k]),
{
    match c.key {
        Some(kk) => {
            lemma_keyed_first(t, ex, u, kk@, k, 0);
        },
        None => {},
    }
}

/// Reusing an element in place whose kind, key and configuration already
/// match at most refreshes its listeners.
proof fn lemma_quiet_reuse<'a>(t: TreeModel, ex: Seq<ElementId>, c: &'a ViewNode, id: ElementId, k: int)
    requires
        0 <= k < ex.len(),
        forall|j: int| 0 <= j < k ==> #[trigger] ex[j] != ex[k],
        node(t, ex[k]) matches Some(v) && v.kind == c.kind && v.key == c.key && v.config == c.config,
    ensures
        only_listener_refreshes(reuse_patches(t, ex, c, id, k, ex[k])),
{
    lemma_position_first(ex, k, 0);
}

/// The elements taken by the first `k` view children: those of the first
/// `k - 1`, and the match of child `k - 1` when it has one.
proof fn lemma_taken_step(t: TreeModel, ex: Seq<ElementId>, kids: Seq<ViewNode>, k: int)
    requires
        k >= 1,
    ensures
        taken(t, ex, kids, k) == match match_for(t, ex, taken(t, ex, kids, k - 1), kids[k - 1], k - 1) {
            Some(id) => taken(t, ex, kids, k - 1).insert(id),
            None => taken(t, ex, kids, k - 1),
        },
{
}

/// View child `k - 1` of `n`, after the first `k - 1` took the first `k - 1`
/// children of an element built from `n`, takes child `k - 1` in place and
/// at most refreshes its listeners.
#[verifier::spinoff_prover]
#[verifier::rlimit(30)]
proof fn lemma_quiet_step<'a>(t: TreeModel, n: &'a ViewNode, id: ElementId, k: int)
    requires
        built_subtree(t, id, n),
        id.0 + subtree_size(n) <= u64::MAX,
        1 <= k <= n.children@.len(),
        forall|x: ElementId|
            #[trigger] taken(t, children_of_spec(t, id), n.children@, k - 1).contains(x) <==> exists|j: int|
                0 <= j < k - 1 && children_of_spec(t, id)[j] == x,
    ensures
        ({
            let ex = children_of_spec(t, id);
            let kids = n.children@;
            &&& match_for(t, ex, taken(t, ex, kids, k - 1), kids[k - 1], k - 1) == Some(ex[k - 1])
            &&& only_listener_refreshes(reuse_patches(t, ex, &kids[k - 1], id, k - 1, ex[k - 1]))
            &&& built_subtree(t, ex[k - 1], &kids[k - 1])
            &&& ex[k - 1].0 + subtree_size(&kids[k - 1]) <= u64::MAX
            &&& forall|x: ElementId|
                #[trigger] taken(t, ex, kids, k).contains(x) <==> exists|j: int| 0 <= j < k && ex[j] == x
        }),
{
    let ex = children_of_spec(t, id);
    let kids = n.children@;
    lemma_children_node(t, id);
    assert(n.children.len() == kids.len());
    let u = taken(t, ex, kids, k - 1);
    let c = &kids[k - 1];
    let x = ex[k - 1];
    assert forall|j: int| 0 <= j < k - 1 implies #[trigger] ex[j] != x && u.contains(ex[j]) by {
        lemma_built_children(t, id, n, j, k - 1);
    }
    assert(!u.contains(x)) by {
        if u.contains(x) {
            let j = choose|j: int| 0 <= j < k - 1 && ex[j] == x;
            assert(ex[j] != x);
        }
    }
    assert(child_built(t, id, x, c)) by {
        assert(x == ElementId((id.0 + 1 + forest_size(n, k - 1)) as u64));
    }
    assert(x.0 + subtree_size(c) <= u64::MAX) by {
        assert(x == ElementId((id.0 + 1 + forest_size(n, k - 1)) as u64));
        lemma_forest_mono(n, k, kids.len() as int);
        assert(forest_size(n, k) == forest_size(n, k - 1) + subtree_size(c));
    }
    lemma_quiet_match(t, ex, u, *c, k - 1);
    lemma_quiet_reuse(t, ex, c, id, k - 1);
    lemma_taken_step(t, ex, kids, k);
    assert forall|y: ElementId| #[trigger] taken(t, ex, kids, k).contains(y) <==> exists|j: int|
        0 <= j < k && ex[j] == y by {
        if y != x && exists|j: int| 0 <= j < k && ex[j] == y {
            let j = choose|j: int| 0 <= j < k && ex[j] == y;
            assert(j < k - 1);
            assert(u.contains(y));
        }
    }
}

/// Reconciling the first `k` view children of `n` against the children of
/// an element built from `n` takes them one by one, in order, and only
/// refreshes listeners.
proof fn lemma_quiet_children<'a>(t: TreeModel, n: &'a ViewNode, id: ElementId, k: int)
    requires
        built_subtree(t, id, n),
        id.0 + subtree_size(n) <= u64::MAX,
        0 <= k <= n.children@.len(),
    ensures
        forall|x: ElementId|
            #[trigger] taken(t, children_of_spec(t, id), n.children@, k).contains(x) <==> exists|j: int|
                0 <= j < k && children_of_spec(t, id)[j] == x,
        only_listener_refreshes(child_patches(t, n, id, k)),
    decreases n, 0int, k,
{
    let ex = children_of_spec(t, id);
    let kids = n.children@;
    if k > 0 {
        lemma_quiet_children(t, n, id, k - 1);
        lemma_quiet_step(t, n, id, k);
        let c = &kids[k - 1];
        let x = ex[k - 1];
        let prev = child_patches(t, n, id, k - 1);
        let rp = reuse_patches(t, ex, c, id, k - 1, x);
        lemma_rebuild_only_refreshes_listeners(t, c, x);
        lemma_refreshes_concat(prev, rp);
        lemma_refreshes_concat(prev + rp, diff_spec(t, c, x));
    }
}

proof fn lemma_no_removals<'a>(t: TreeModel, ex: Seq<ElementId>, used: Set<ElementId>, i: int)
    requires
        0 <= i <= ex.len(),
        forall|j: int| 0 <= j < ex.len() ==> used.contains(#[trigger] ex[j]),
    ensures
        removals::<'a>(t, ex, used, i).len() == 0,
    decreases i,
{
    if i > 0 {
        lemma_no_removals(t, ex, used, i - 1);
        assert(used.contains(ex[i - 1]));
    }
}

/// Listener refreshes count as no creation, update, removal or move.
proof fn lemma_refreshes_count<'a>(ps: Seq<Patch<'a>>)
    requires
        only_listener_refreshes(ps),
    ensures
        patch_counts(ps) == (0nat, 0nat, 0nat, 0nat),
    decreases ps.len(),
{
    if ps.len() > 0 {
        assert(only_listener_refreshes(ps.drop_last())) by {
            assert forall|j: int| 0 <= j < ps.drop_last().len() implies #[trigger] ps.drop_last()[j] is UpdateListeners by {
                assert(ps.drop_last()[j] == ps[j]);
            }
        }
        lemma_refreshes_count(ps.drop_last());
        assert(ps.last() == ps[ps.len() - 1]);
    }
}

/// Reconciling an element against the very view its subtree was built from
/// creates, updates, moves and removes nothing: every element is reused in
/// place, and the only patches give elements the view's fresh listeners.
pub proof fn lemma_rebuild_only_refreshes_listeners<'a>(t: TreeModel, n: &'a ViewNode, id: ElementId)
    requires
        built_subtree(t, id, n),
        id.0 + subtree_size(n) <= u64::MAX,
    ensures
        only_listener_refreshes(diff_spec(t, n, id)),
        patch_counts(diff_spec(t, n, id)) == (0nat, 0nat, 0nat, 0nat),
    decreases n, 1int,
{
    let ex = children_of_spec(t, id);
    let kids = n.children@;
    lemma_children_node(t, id);
    assert(n.children.len() == kids.len());
    lemma_quiet_children(t, n, id, kids.len() as int);
    let used = taken(t, ex, kids, kids.len() as int);
    assert forall|j: int| 0 <= j < ex.len() implies used.contains(#[trigger] ex[j]) by {
        assert(exists|q: int| 0 <= q < kids.len() && ex[q] == ex[j]);
    }
    lemma_no_removals(t, ex, used, ex.len() as int);
    let rm = removals::<'a>(t, ex, used, ex.len() as int);
    assert(rm =~= Seq::<Patch<'a>>::empty());
    lemma_refreshes_concat(child_patches(t, n, id, kids.len() as int), rm);
    lemma_refreshes_count(diff_spec(t, n, id));
}

} // verus!
