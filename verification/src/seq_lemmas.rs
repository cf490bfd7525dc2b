//! Facts about sequences used to keep the colour lists of the collector in
//! step with the colour of each object.
use vstd::prelude::*;

verus! {

/// Pushing `x` adds exactly `x` to what the sequence contains.
pub proof fn lemma_push_contains<A>(s: Seq<A>, x: A, y: A)
    ensures
        s.push(x).contains(y) <==> (s.contains(y) || y == x),
{
    if s.contains(y) {
        let k = choose|k: int| 0 <= k < s.len() && s[k] == y;
        assert(s.push(x)[k] == y);
    }
    if y == x {
        assert(s.push(x)[s.len() as int] == y);
    }
    if s.push(x).contains(y) {
        let k = choose|k: int| 0 <= k < s.push(x).len() && s.push(x)[k] == y;
        if k < s.len() {
            assert(s[k] == y);
        }
    }
}

/// Pushing an element that is absent keeps a sequence free of duplicates.
pub proof fn lemma_push_no_duplicates<A>(s: Seq<A>, x: A)
    requires
        s.no_duplicates(),
        !s.contains(x),
    ensures
        s.push(x).no_duplicates(),
{
    let t = s.push(x);
    assert forall|i: int, j: int| 0 <= i < t.len() && 0 <= j < t.len() && i != j implies t[i]
        != t[j] by {
        if i == s.len() as int {
            assert(s[j] == t[j]);
        } else if j == s.len() as int {
            assert(s[i] == t[i]);
        } else {
            assert(s[i] == t[i] && s[j] == t[j]);
        }
    }
}

/// Removing the entry at `k` of a duplicate-free sequence removes exactly
/// that element and keeps the sequence duplicate-free.
pub proof fn lemma_remove_contains<A>(s: Seq<A>, k: int, y: A)
    requires
        s.no_duplicates(),
        0 <= k < s.len(),
    ensures
        s.remove(k).contains(y) <==> (s.contains(y) && y != s[k]),
        s.remove(k).no_duplicates(),
{
    let t = s.remove(k);
    if t.contains(y) {
        let j = choose|j: int| 0 <= j < t.len() && t[j] == y;
        if j < k {
            assert(s[j] == y);
        } else {
            assert(s[j + 1] == y);
        }
    }
    if s.contains(y) && y != s[k] {
        let j = choose|j: int| 0 <= j < s.len() && s[j] == y;
        if j < k {
            assert(t[j] == y);
        } else {
            assert(j != k);
            assert(t[j - 1] == y);
        }
    }
    assert forall|i: int, j: int| 0 <= i < t.len() && 0 <= j < t.len() && i != j implies t[i]
        != t[j] by {
        let oi = if i < k { i } else { i + 1 };
        let oj = if j < k { j } else { j + 1 };
        assert(t[i] == s[oi] && t[j] == s[oj]);
    }
}

} // verus!
