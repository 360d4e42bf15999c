//! The recency order as a sequence of keys, from most to least recently used.
use vstd::prelude::*;

verus! {

/// `s` with `k` moved (or added) to the front.
pub open spec fn to_front(s: Seq<u16>, k: u16) -> Seq<u16> {
    if s.contains(k) {
        seq![k] + s.remove(s.index_of(k))
    } else {
        seq![k] + s
    }
}

/// The order after inserting `k` into a cache holding `s` with room for `cap` keys:
/// a new key arriving when the cache is full first pushes out the last key.
pub open spec fn insert_step(s: Seq<u16>, cap: nat, k: u16) -> Seq<u16> {
    if !s.contains(k) && s.len() == cap {
        to_front(s.drop_last(), k)
    } else {
        to_front(s, k)
    }
}

/// In a sequence without duplicates, `index_of` finds the one position of a key.
pub proof fn lemma_index_of_unique(s: Seq<u16>, j: int)
    requires
        s.no_duplicates(),
        0 <= j < s.len(),
    ensures
        s.index_of(s[j]) == j,
{
    assert(s.contains(s[j]));
}

/// Moving a present key to the front keeps the keys and their number.
pub proof fn lemma_to_front_present(s: Seq<u16>, k: u16)
    requires
        s.no_duplicates(),
        s.contains(k),
    ensures
        to_front(s, k).len() == s.len(),
        to_front(s, k)[0] == k,
        to_front(s, k).no_duplicates(),
        forall|x: u16| #[trigger] to_front(s, k).contains(x) <==> s.contains(x),
{
    let j = s.index_of(k);
    let t = to_front(s, k);
    let r = s.remove(j);
    assert forall|a: int, b: int| 0 <= a < b < t.len() implies t[a] != t[b] by {
        if a == 0 {
            assert(t[b] == s[if b - 1 < j { b - 1 } else { b }]);
        } else {
            assert(t[a] == s[if a - 1 < j { a - 1 } else { a }]);
            assert(t[b] == s[if b - 1 < j { b - 1 } else { b }]);
        }
    }
    assert forall|x: u16| #[trigger] t.contains(x) <==> s.contains(x) by {
        if s.contains(x) {
            let i = s.index_of(x);
            if i == j {
                assert(t[0] == x);
            } else if i < j {
                assert(t[i + 1] == x);
            } else {
                assert(t[i] == x);
            }
        }
        if t.contains(x) {
            let i = t.index_of(x);
            if i > 0 {
                assert(s[if i - 1 < j { i - 1 } else { i }] == x);
            }
        }
    }
}

/// Adding an absent key to the front adds exactly that key.
pub proof fn lemma_to_front_absent(s: Seq<u16>, k: u16)
    requires
        s.no_duplicates(),
        !s.contains(k),
    ensures
        to_front(s, k) == seq![k] + s,
        to_front(s, k).len() == s.len() + 1,
        to_front(s, k)[0] == k,
        to_front(s, k).no_duplicates(),
        forall|x: u16| #[trigger] to_front(s, k).contains(x) <==> (s.contains(x) || x == k),
{
    let t = to_front(s, k);
    assert forall|x: u16| #[trigger] t.contains(x) <==> (s.contains(x) || x == k) by {
        if s.contains(x) {
            let i = s.index_of(x);
            assert(t[i + 1] == x);
        }
        if t.contains(x) {
            let i = t.index_of(x);
            if i > 0 {
                assert(s[i - 1] == x);
            }
        }
        if x == k {
            assert(t[0] == x);
        }
    }
}

} // verus!
