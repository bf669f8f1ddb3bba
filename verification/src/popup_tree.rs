//! The popup ownership graph: a map from a popup's handle to its direct
//! children, and the descendants of a popup in it.

use vstd::prelude::*;
use std::collections::HashMap;

verus! {

broadcast use vstd::std_specs::hash::group_hash_axioms;

/// `b` is a direct child of popup `a`.
pub open spec fn popup_edge(children: Map<u64, Seq<u64>>, a: u64, b: u64) -> bool {
    children.contains_key(a) && children[a].contains(b)
}

/// `p` walks from parent to child along ownership edges.
pub open spec fn popup_path(children: Map<u64, Seq<u64>>, p: Seq<u64>) -> bool {
    forall|i: int| 0 <= i < p.len() - 1 ==> popup_edge(children, #[trigger] p[i], p[i + 1])
}

/// `b` is a descendant (child, grandchild, ...) of popup `a`.
pub open spec fn popup_descends(children: Map<u64, Seq<u64>>, a: u64, b: u64) -> bool {
    exists|p: Seq<u64>|
        p.len() >= 2 && p[0] == a && p[p.len() - 1] == b && #[trigger] popup_path(children, p)
}


/// Whether `x` occurs in `v`.
pub fn contains_u64(v: &Vec<u64>, x: u64) -> (r: bool)
    ensures
        r == v@.contains(x),
{
    let mut i: usize = 0;
    while i < v.len()
        invariant
            i <= v@.len(),
            forall|j: int| 0 <= j < i ==> v@[j] != x,
        decreases v@.len() - i,
    {
        if v[i] == x {
            return true;
        }
        i = i + 1;
    }
    false
}

/// Extends a path to a descendant by one more ownership edge.
proof fn lemma_descends_step(children: Map<u64, Seq<u64>>, a: u64, b: u64, c: u64)
    requires
        popup_descends(children, a, b),
        popup_edge(children, b, c),
    ensures
        popup_descends(children, a, c),
{
    let p = choose|p: Seq<u64>|
        p.len() >= 2 && p[0] == a && p[p.len() - 1] == b && #[trigger] popup_path(children, p);
    let q = p.push(c);
    assert forall|i: int| 0 <= i < q.len() - 1 implies popup_edge(children, #[trigger] q[i], q[i + 1]) by {
        if i < p.len() - 1 {
            assert(q[i] == p[i] && q[i + 1] == p[i + 1]);
        }
    }
    assert(popup_path(children, q));
}

/// A direct child is a descendant.
proof fn lemma_descends_edge(children: Map<u64, Seq<u64>>, a: u64, c: u64)
    requires
        popup_edge(children, a, c),
    ensures
        popup_descends(children, a, c),
{
    let q = seq![a, c];
    assert(popup_path(children, q));
}

/// Every node on a path from `a` lies in a set that holds `a`'s children and
/// is closed under taking children.
proof fn lemma_closed_set_holds_path(
    children: Map<u64, Seq<u64>>,
    a: u64,
    s: Set<u64>,
    p: Seq<u64>,
    k: int,
)
    requires
        p.len() >= 2,
        p[0] == a,
        popup_path(children, p),
        1 <= k < p.len(),
        forall|c: u64| popup_edge(children, a, c) ==> s.contains(c),
        forall|x: u64, c: u64| s.contains(x) && popup_edge(children, x, c) ==> s.contains(c),
    ensures
        s.contains(p[k]),
    decreases k,
{
    assert(popup_edge(children, p[k - 1], p[k]));
    if k > 1 {
        lemma_closed_set_holds_path(children, a, s, p, k - 1);
    }
}


/// The ownership graph held by a hash map of child lists.
pub open spec fn graph_of(children: Map<u64, Vec<u64>>) -> Map<u64, Seq<u64>> {
    children.map_values(|v: Vec<u64>| v@)
}

proof fn lemma_graph_of(children: Map<u64, Vec<u64>>, x: u64)
    ensures
        graph_of(children).contains_key(x) <==> children.contains_key(x),
        children.contains_key(x) ==> graph_of(children)[x] == children[x]@,
        graph_of(children).dom() == children.dom(),
{
    assert(graph_of(children).dom() =~= children.dom());
}

/// Copies a list of handles.
pub fn copy_list(v: &Vec<u64>) -> (r: Vec<u64>)
    ensures
        r@ == v@,
{
    let mut r: Vec<u64> = Vec::new();
    let mut i: usize = 0;
    while i < v.len()
        invariant
            i <= v@.len(),
            r@ == v@.subrange(0, i as int),
        decreases v@.len() - i,
    {
        r.push(v[i]);
        assert(r@ =~= v@.subrange(0, i + 1));
        i = i + 1;
    }
    assert(r@ =~= v@);
    r
}

/// Appends a list of handles.
fn append_list(dst: &mut Vec<u64>, v: &Vec<u64>)
    ensures
        final(dst)@ == old(dst)@ + v@,
{
    let ghost base = dst@;
    let mut i: usize = 0;
    while i < v.len()
        invariant
            i <= v@.len(),
            dst@ == base + v@.subrange(0, i as int),
        decreases v@.len() - i,
    {
        dst.push(v[i]);
        assert(dst@ =~= base + v@.subrange(0, i + 1));
        i = i + 1;
    }
    assert(v@.subrange(0, v@.len() as int) =~= v@);
}

/// The search state: `visited` holds descendants seen so far, `stack` those
/// still to expand; every child of `h` and of a visited node is one of them.
pub open spec fn search_inv(g: Map<u64, Seq<u64>>, h: u64, visited: Set<u64>, stack: Seq<u64>) -> bool {
    &&& forall|x: u64| visited.contains(x) ==> popup_descends(g, h, x)
    &&& forall|i: int| 0 <= i < stack.len() ==> popup_descends(g, h, #[trigger] stack[i])
    &&& forall|x: u64, c: u64| #![trigger visited.contains(x), popup_edge(g, x, c)]
        visited.contains(x) && popup_edge(g, x, c) ==> visited.contains(c) || stack.contains(c)
    &&& forall|c: u64| popup_edge(g, h, c) ==> visited.contains(c) || stack.contains(c)
}

proof fn lemma_search_start(g: Map<u64, Seq<u64>>, h: u64, stack: Seq<u64>)
    requires
        g.contains_key(h) ==> stack == g[h],
        !g.contains_key(h) ==> stack.len() == 0,
    ensures
        search_inv(g, h, Set::empty(), stack),
{
    assert forall|i: int| 0 <= i < stack.len() implies popup_descends(g, h, #[trigger] stack[i]) by {
        assert(g[h][i] == stack[i]);
        assert(popup_edge(g, h, stack[i]));
        lemma_descends_edge(g, h, stack[i]);
    }
}

/// Popping a node that was already visited keeps the invariant.
proof fn lemma_search_skip(g: Map<u64, Seq<u64>>, h: u64, visited: Set<u64>, rest: Seq<u64>, x: u64)
    requires
        search_inv(g, h, visited, rest.push(x)),
        visited.contains(x),
    ensures
        search_inv(g, h, visited, rest),
{
    let st = rest.push(x);
    assert forall|c: u64| st.contains(c) && c != x implies rest.contains(c) by {
        let k = choose|k: int| 0 <= k < st.len() && st[k] == c;
        assert(rest[k] == c);
    }
    assert forall|i: int| 0 <= i < rest.len() implies popup_descends(g, h, #[trigger] rest[i]) by {
        assert(st[i] == rest[i]);
    }
}

/// Popping a new node marks it visited and pushes its children.
proof fn lemma_search_expand(
    g: Map<u64, Seq<u64>>,
    h: u64,
    visited: Set<u64>,
    rest: Seq<u64>,
    x: u64,
    kids: Seq<u64>,
)
    requires
        search_inv(g, h, visited, rest.push(x)),
        g.contains_key(x) ==> kids == g[x],
        !g.contains_key(x) ==> kids.len() == 0,
    ensures
        search_inv(g, h, visited.insert(x), rest + kids),
{
    let st = rest.push(x);
    let ns = rest + kids;
    let nv = visited.insert(x);
    assert(popup_descends(g, h, x)) by {
        assert(st[st.len() - 1] == x);
    }
    assert forall|c: u64| st.contains(c) implies ns.contains(c) || c == x by {
        let k = choose|k: int| 0 <= k < st.len() && st[k] == c;
        if k < rest.len() {
            assert(ns[k] == c);
        }
    }
    assert forall|c: u64| popup_edge(g, x, c) implies ns.contains(c) by {
        let k = choose|k: int| 0 <= k < g[x].len() && g[x][k] == c;
        assert(ns[rest.len() + k] == c);
    }
    assert forall|i: int| 0 <= i < ns.len() implies popup_descends(g, h, #[trigger] ns[i]) by {
        if i < rest.len() {
            assert(st[i] == ns[i]);
        } else {
            assert(g[x][i - rest.len()] == ns[i]);
            assert(popup_edge(g, x, ns[i]));
            lemma_descends_step(g, h, x, ns[i]);
        }
    }
    assert forall|y: u64, c: u64| #![trigger nv.contains(y), popup_edge(g, y, c)]
        nv.contains(y) && popup_edge(g, y, c) implies nv.contains(c) || ns.contains(c) by {
        if y != x {
            assert(visited.contains(y));
        }
    }
}

/// The descendants of `h` in the ownership graph `children`, each once.
pub fn descendants(children: &HashMap<u64, Vec<u64>>, h: u64) -> (out: Vec<u64>)
    ensures
        forall|i: int| 0 <= i < out@.len() ==> popup_descends(graph_of(children@), h, #[trigger] out@[i]),
        forall|x: u64| popup_descends(graph_of(children@), h, x) ==> out@.contains(x),
        forall|i: int, j: int| 0 <= i < j < out@.len() ==> out@[i] != out@[j],
{
    let ghost g = graph_of(children@);
    let ghost keys = children@.dom();
    proof {
        lemma_graph_of(children@, h);
    }
    let mut stack: Vec<u64> = match children.get(&h) {
        Some(v) => copy_list(v),
        None => Vec::new(),
    };
    proof {
        lemma_search_start(g, h, stack@);
    }
    let mut out: Vec<u64> = Vec::new();
    let ghost mut visited: Set<u64> = Set::empty();
    while stack.len() > 0
        invariant
            keys.finite(),
            keys == children@.dom(),
            g == graph_of(children@),
            visited.finite(),
            forall|x: u64| visited.contains(x) <==> out@.contains(x),
            forall|i: int, j: int| 0 <= i < j < out@.len() ==> out@[i] != out@[j],
            search_inv(g, h, visited, stack@),
        decreases keys.difference(visited).len(), stack@.len(),
    {
        let ghost old_stack = stack@;
        let ghost old_out = out@;
        let ghost old_visited = visited;
        let x = stack.pop().unwrap();
        assert(old_stack == stack@.push(x));
        if contains_u64(&out, x) {
            proof {
                lemma_search_skip(g, h, visited, stack@, x);
            }
        } else {
            out.push(x);
            proof {
                lemma_graph_of(children@, x);
                visited = visited.insert(x);
                assert forall|y: u64| visited.contains(y) <==> out@.contains(y) by {
                    if out@.contains(y) && y != x {
                        let k = choose|k: int| 0 <= k < out@.len() && out@[k] == y;
                        assert(old_out[k] == y);
                    }
                    if old_out.contains(y) {
                        let k = choose|k: int| 0 <= k < old_out.len() && old_out[k] == y;
                        assert(out@[k] == y);
                    }
                    if y == x {
                        assert(out@[out@.len() - 1] == x);
                    }
                }
            }
            let ghost rest = stack@;
            match children.get(&x) {
                Some(v) => {
                    append_list(&mut stack, v);
                    proof {
                        lemma_search_expand(g, h, old_visited, rest, x, v@);
                        assert(keys.contains(x));
                        assert(keys.difference(visited) =~= keys.difference(old_visited).remove(x));
                    }
                },
                None => {
                    proof {
                        lemma_search_expand(g, h, old_visited, rest, x, Seq::empty());
                        assert(rest + Seq::<u64>::empty() =~= rest);
                        assert(keys.difference(visited) =~= keys.difference(old_visited));
                    }
                },
            }
        }
    }
    proof {
        let s = visited;
        assert forall|x: u64| popup_descends(g, h, x) implies out@.contains(x) by {
            let p = choose|p: Seq<u64>|
                p.len() >= 2 && p[0] == h && p[p.len() - 1] == x && #[trigger] popup_path(g, p);
            assert forall|y: u64, c: u64| s.contains(y) && popup_edge(g, y, c) implies s.contains(c) by {
                assert(!stack@.contains(c));
            }
            lemma_closed_set_holds_path(g, h, s, p, p.len() - 1);
        }
        assert forall|i: int| 0 <= i < out@.len() implies popup_descends(g, h, #[trigger] out@[i]) by {
            assert(out@.contains(out@[i]));
            assert(visited.contains(out@[i]));
        }
    }
    out
}

} // verus!
