//! Properties that hold across several operations, stated over the recency order.
use vstd::prelude::*;
use crate::recency::{insert_step, lemma_index_of_unique, lemma_to_front_absent, lemma_to_front_present, to_front};

verus! {

/// The order left by inserting the keys `ks`, first to last, into an empty cache
/// with room for `cap` keys.
pub open spec fn replay(ks: Seq<u16>, cap: nat) -> Seq<u16>
    decreases ks.len(),
{
    if ks.len() == 0 {
        Seq::empty()
    } else {
        insert_step(replay(ks.drop_last(), cap), cap, ks.last())
    }
}

/// The keys handed out by calling `remove_lru` on a cache with order `s` until it is empty.
pub open spec fn drain_order(s: Seq<u16>) -> Seq<u16>
    decreases s.len(),
{
    if s.len() == 0 {
        Seq::empty()
    } else {
        seq![s.last()] + drain_order(s.drop_last())
    }
}

/// Holds of every key but `k`.
pub open spec fn other_than(k: u16) -> spec_fn(u16) -> bool {
    |x: u16| x != k
}

/// As long as the distinct keys inserted fit in the capacity, nothing is evicted:
/// the cache holds each distinct inserted key exactly once.
pub proof fn lemma_len_counts_distinct_keys(ks: Seq<u16>, cap: nat)
    requires
        ks.to_set().len() <= cap,
    ensures
        replay(ks, cap).len() == ks.to_set().len(),
        replay(ks, cap).no_duplicates(),
        replay(ks, cap).to_set() == ks.to_set(),
    decreases ks.len(),
{
    if ks.len() == 0 {
        assert(ks.to_set() =~= Set::<u16>::empty());
        assert(replay(ks, cap).to_set() =~= Set::<u16>::empty());
    } else {
        let init = ks.drop_last();
        let k = ks.last();
        assert(ks =~= init.push(k));
        assert(ks.to_set() =~= init.to_set().insert(k)) by {
            assert forall|x: u16| ks.to_set().contains(x) implies init.to_set().contains(x) || x == k by {
                let i = ks.index_of(x);
                if i < ks.len() - 1 {
                    assert(init[i] == x);
                }
            }
            assert forall|x: u16| init.to_set().contains(x) implies ks.to_set().contains(x) by {
                let i = init.index_of(x);
                assert(ks[i] == x);
            }
            assert(ks[ks.len() - 1] == k);
        }
        vstd::seq_lib::seq_to_set_is_finite(ks);
        vstd::set_lib::lemma_len_subset(init.to_set(), ks.to_set());
        lemma_len_counts_distinct_keys(init, cap);
        let r = replay(init, cap);
        r.unique_seq_to_set();
        if r.contains(k) {
            lemma_to_front_present(r, k);
            assert(init.to_set().contains(k));
            assert(init.to_set().insert(k) =~= init.to_set());
        } else {
            assert(!init.to_set().contains(k));
            lemma_to_front_absent(r, k);
        }
        let t = replay(ks, cap);
        assert(t.to_set() =~= ks.to_set());
        t.unique_seq_to_set();
    }
}

/// A new key inserted into a full cache evicts exactly the least recently used key:
/// the new key goes in front, the others keep their order, and the count stays at
/// the capacity.
pub proof fn lemma_overflow_evicts_lru(s: Seq<u16>, cap: nat, k: u16)
    requires
        s.no_duplicates(),
        s.len() == cap,
        cap > 0,
        !s.contains(k),
    ensures
        insert_step(s, cap, k) == seq![k] + s.drop_last(),
        insert_step(s, cap, k).len() == cap,
        !insert_step(s, cap, k).contains(s.last()),
{
    let d = s.drop_last();
    assert(!d.contains(k)) by {
        if d.contains(k) {
            assert(s[d.index_of(k)] == k);
        }
    }
    assert(d.no_duplicates());
    lemma_to_front_absent(d, k);
    assert(!d.contains(s.last())) by {
        if d.contains(s.last()) {
            assert(s[d.index_of(s.last())] == s[s.len() - 1]);
        }
    }
}

/// An insert never takes the cache past its capacity, nor repeats a key.
pub proof fn lemma_insert_within_capacity(s: Seq<u16>, cap: nat, k: u16)
    requires
        s.no_duplicates(),
        s.len() <= cap,
        cap > 0,
    ensures
        insert_step(s, cap, k).len() <= cap,
        insert_step(s, cap, k).no_duplicates(),
        insert_step(s, cap, k).contains(k),
{
    if s.contains(k) {
        lemma_to_front_present(s, k);
        assert(to_front(s, k)[0] == k);
    } else if s.len() == cap {
        lemma_overflow_evicts_lru(s, cap, k);
        lemma_to_front_absent(s.drop_last(), k);
        assert(insert_step(s, cap, k)[0] == k);
    } else {
        lemma_to_front_absent(s, k);
        assert(insert_step(s, cap, k)[0] == k);
    }
}

proof fn lemma_filter_keeps_all(s: Seq<u16>, k: u16)
    requires
        !s.contains(k),
    ensures
        s.filter(other_than(k)) == s,
    decreases s.len(),
{
    reveal(Seq::filter);
    if s.len() > 0 {
        let d = s.drop_last();
        assert(!d.contains(k)) by {
            if d.contains(k) {
                assert(s[d.index_of(k)] == k);
            }
        }
        lemma_filter_keeps_all(d, k);
        assert(s.last() != k);
        assert(d.push(s.last()) =~= s);
    }
}

/// A lookup hit on `k` puts `k` in front, keeps the number of keys, and leaves
/// every other key in the same relative order.
pub proof fn lemma_touch_keeps_others(s: Seq<u16>, k: u16)
    requires
        s.no_duplicates(),
        s.contains(k),
    ensures
        to_front(s, k)[0] == k,
        to_front(s, k).len() == s.len(),
        to_front(s, k) == seq![k] + s.filter(other_than(k)),
{
    lemma_to_front_present(s, k);
    let j = s.index_of(k);
    let a = s.subrange(0, j);
    let b = s.subrange(j + 1, s.len() as int);
    assert(!a.contains(k)) by {
        if a.contains(k) {
            assert(s[a.index_of(k)] == k);
        }
    }
    assert(!b.contains(k)) by {
        if b.contains(k) {
            assert(s[b.index_of(k) + j + 1] == k);
        }
    }
    lemma_filter_keeps_all(a, k);
    lemma_filter_keeps_all(b, k);
    assert(s =~= (a + seq![k]) + b);
    Seq::filter_distributes_over_add(a + seq![k], b, other_than(k));
    Seq::filter_distributes_over_add(a, seq![k], other_than(k));
    assert(seq![k].filter(other_than(k)) =~= Seq::<u16>::empty()) by {
        reveal_with_fuel(Seq::filter, 2);
    }
    assert(s.filter(other_than(k)) =~= a + b);
}

/// Calling `remove_lru` until the cache is empty hands the keys out in exactly the
/// reverse of the iteration order.
pub proof fn lemma_drain_reverses_order(s: Seq<u16>)
    ensures
        drain_order(s) == s.reverse(),
    decreases s.len(),
{
    if s.len() > 0 {
        lemma_drain_reverses_order(s.drop_last());
        assert(drain_order(s) =~= s.reverse());
    }
}

/// Looking a key up right after inserting it hits, and leaves the order as the
/// insert left it, with the key in front.
pub proof fn lemma_insert_then_get(s: Seq<u16>, cap: nat, k: u16)
    requires
        s.no_duplicates(),
        s.len() <= cap,
        cap > 0,
    ensures
        insert_step(s, cap, k)[0] == k,
        insert_step(s, cap, k).contains(k),
        to_front(insert_step(s, cap, k), k) == insert_step(s, cap, k),
{
    lemma_insert_within_capacity(s, cap, k);
    let t = insert_step(s, cap, k);
    if s.contains(k) {
        lemma_to_front_present(s, k);
    } else if s.len() == cap {
        lemma_overflow_evicts_lru(s, cap, k);
        lemma_to_front_absent(s.drop_last(), k);
    } else {
        lemma_to_front_absent(s, k);
    }
    lemma_index_of_unique(t, 0);
    assert(to_front(t, k) =~= t);
}

} // verus!
