//! Small facts about sequences used across the crate.

use vstd::prelude::*;

verus! {

/// Membership in a sequence extended by one element.
pub proof fn lemma_push_contains<T>(s: Seq<T>, k: T, x: T)
    ensures
        s.push(k).contains(x) <==> s.contains(x) || x == k,
{
    if s.push(k).contains(x) {
        let j = choose|j: int| 0 <= j < s.push(k).len() && s.push(k)[j] == x;
        if j < s.len() {
            assert(s[j] == x);
        }
    }
    if s.contains(x) {
        let j = choose|j: int| 0 <= j < s.len() && s[j] == x;
        assert(s.push(k)[j] == x);
    }
    if x == k {
        assert(s.push(k)[s.len() as int] == x);
    }
}

/// Membership in a prefix that grows by one element.
pub proof fn lemma_prefix_contains<T>(s: Seq<T>, i: int, x: T)
    requires
        0 <= i < s.len(),
    ensures
        s.subrange(0, i + 1).contains(x) <==> s.subrange(0, i).contains(x) || x == s[i],
{
    assert(s.subrange(0, i + 1) =~= s.subrange(0, i).push(s[i]));
    lemma_push_contains(s.subrange(0, i), s[i], x);
}

/// In a sequence without duplicates, an element does not occur before its
/// own position.
pub proof fn lemma_no_dup_prefix<T>(s: Seq<T>, i: int)
    requires
        s.no_duplicates(),
        0 <= i < s.len(),
    ensures
        !s.subrange(0, i).contains(s[i]),
{
    if s.subrange(0, i).contains(s[i]) {
        let j = choose|j: int| 0 <= j < i && s.subrange(0, i)[j] == s[i];
        assert(s[j] == s[i]);
    }
}

/// Extending a duplicate-free sequence by a new element keeps it so.
pub proof fn lemma_push_no_dup<T>(s: Seq<T>, k: T)
    requires
        s.no_duplicates(),
        !s.contains(k),
    ensures
        s.push(k).no_duplicates(),
{
    let t = s.push(k);
    assert forall|a: int, b: int| 0 <= a < t.len() && 0 <= b < t.len() && a != b implies t[a] != t[b] by {
        if a < s.len() && b < s.len() {
            assert(t[a] == s[a] && t[b] == s[b]);
        } else if a == s.len() {
            assert(t[b] == s[b]);
        } else {
            assert(t[a] == s[a]);
        }
    }
}

} // verus!
