//! Stable ordering of positions by an integer key.

use vstd::prelude::*;

verus! {

/// Position `a` comes before position `b`: smaller key, or equal key and
/// earlier position (stable order).
pub open spec fn key_before(keys: Seq<i64>, a: int, b: int) -> bool {
    keys[a] < keys[b] || (keys[a] == keys[b] && a < b)
}

/// `order` lists every position of `keys` exactly once, in stable key order.
pub open spec fn is_stable_order(keys: Seq<i64>, order: Seq<usize>) -> bool {
    &&& order.len() == keys.len()
    &&& forall|k: int| 0 <= k < order.len() ==> order[k] < keys.len()
    &&& forall|k: int, l: int| 0 <= k < l < order.len() ==> key_before(keys, order[k] as int, order[l] as int)
}

/// The positions of `keys` sorted by key, ties kept in input order.
pub fn stable_order(keys: &Vec<i64>) -> (order: Vec<usize>)
    ensures
        is_stable_order(keys@, order@),
{
    let n = keys.len();
    let mut order: Vec<usize> = Vec::new();
    let mut i: usize = 0;
    while i < n
        invariant
            n == keys@.len(),
            i <= n,
            order@.len() == i,
            forall|k: int| 0 <= k < order@.len() ==> order@[k] < i,
            forall|k: int, l: int|
                0 <= k < l < order@.len() ==> key_before(keys@, order@[k] as int, order@[l] as int),
        decreases n - i,
    {
        let key = keys[i];
        let mut pos: usize = 0;
        while pos < order.len() && keys[order[pos]] <= key
            invariant
                n == keys@.len(),
                i < n,
                key == keys@[i as int],
                pos <= order@.len(),
                forall|k: int| 0 <= k < order@.len() ==> order@[k] < i,
                forall|k: int| 0 <= k < pos ==> keys@[order@[k] as int] <= key,
            decreases order@.len() - pos,
        {
            pos = pos + 1;
        }
        proof {
            assert forall|k: int| pos <= k < order@.len() implies keys@[order@[k] as int] > key by {
                if pos < order@.len() {
                    if k > pos {
                        assert(key_before(keys@, order@[pos as int] as int, order@[k] as int));
                    }
                }
            }
        }
        let ghost old_order = order@;
        order.insert(pos, i);
        proof {
            assert forall|k: int, l: int| 0 <= k < l < order@.len() implies key_before(
                keys@,
                order@[k] as int,
                order@[l] as int,
            ) by {
                if k < pos && l < pos {
                    assert(order@[k] == old_order[k] && order@[l] == old_order[l]);
                } else if k < pos && l == pos {
                    assert(order@[k] == old_order[k]);
                } else if k < pos {
                    assert(order@[k] == old_order[k] && order@[l] == old_order[l - 1]);
                } else if k == pos {
                    assert(order@[l] == old_order[l - 1]);
                } else {
                    assert(order@[k] == old_order[k - 1] && order@[l] == old_order[l - 1]);
                }
            }
        }
        i = i + 1;
    }
    order
}

} // verus!
