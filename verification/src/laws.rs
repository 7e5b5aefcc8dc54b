//! The general laws of the cache, stated and proved over the recency-order
//! model that the engine's contracts are written in: eviction order, recency
//! promotion, expiry boundaries, size-budget behaviour, and replacement.

use vstd::prelude::*;
use crate::cache::{
    Entry, entry_expired, sweep, total_size, keys_distinct, has_key, index_of_key, remove_key,
    evict_for_size, evict_for_capacity, spec_put, make_entry, promote, lookup, effective_budget,
    sat_add64, lemma_total_size_nonneg, lemma_total_size_remove, lemma_distinct_remove,
    lemma_distinct_push, lemma_index_of_key_unique, lemma_total_size_push,
};

verus! {

/// A sweep removes nothing when no entry is expired.
pub proof fn lemma_sweep_all_live<V>(s: Seq<Entry<V>>, now: u64)
    requires
        forall|i: int| 0 <= i < s.len() ==> !entry_expired(#[trigger] s[i], now),
    ensures
        sweep(s, now) == s,
    decreases s.len(),
{
    reveal(Seq::filter);
    if s.len() > 0 {
        assert forall|i: int| 0 <= i < s.drop_last().len() implies !entry_expired(
            #[trigger] s.drop_last()[i],
            now,
        ) by {
            assert(s.drop_last()[i] == s[i]);
        }
        lemma_sweep_all_live(s.drop_last(), now);
        assert(sweep(s, now) == sweep(s.drop_last(), now).push(s.last()));
        assert(s.drop_last().push(s.last()) =~= s);
    } else {
        assert(sweep(s, now) =~= s);
    }
}

/// A sweep keeps the keys distinct and introduces no key.
pub proof fn lemma_sweep_distinct<V>(s: Seq<Entry<V>>, now: u64)
    requires
        keys_distinct(s),
    ensures
        keys_distinct(sweep(s, now)),
        forall|k: u64| #[trigger] has_key(sweep(s, now), k) ==> has_key(s, k),
    decreases s.len(),
{
    reveal(Seq::filter);
    if s.len() == 0 {
        assert(sweep(s, now) =~= s);
    } else {
        let s0 = s.drop_last();
        assert forall|i: int, j: int|
            #![trigger s0[i].key, s0[j].key]
            0 <= i < j < s0.len() implies s0[i].key != s0[j].key by {
            assert(s0[i] == s[i] && s0[j] == s[j]);
        }
        lemma_sweep_distinct(s0, now);
        assert forall|k: u64| #[trigger] has_key(s0, k) implies has_key(s, k) by {
            let i = choose|i: int| 0 <= i < s0.len() && #[trigger] s0[i].key == k;
            assert(s[i].key == k);
        }
        if !entry_expired(s.last(), now) {
            assert(sweep(s, now) == sweep(s0, now).push(s.last()));
            assert(!has_key(s0, s.last().key)) by {
                if has_key(s0, s.last().key) {
                    let i = choose|i: int|
                        0 <= i < s0.len() && #[trigger] s0[i].key == s.last().key;
                    assert(s[i].key == s[s.len() - 1].key);
                }
            }
            lemma_distinct_push(sweep(s0, now), s.last());
            assert forall|k: u64| #[trigger] has_key(sweep(s, now), k) implies has_key(s, k) by {
                let t = sweep(s0, now).push(s.last());
                let i = choose|i: int| 0 <= i < t.len() && #[trigger] t[i].key == k;
                if i < t.len() - 1 {
                    assert(t[i] == sweep(s0, now)[i]);
                    assert(has_key(sweep(s0, now), k));
                } else {
                    assert(t[i] == s.last());
                    assert(s[s.len() - 1].key == k);
                }
            }
        } else {
            assert(sweep(s, now) == sweep(s0, now));
        }
    }
}

/// Oldest-first eviction for size keeps the keys distinct, never introduces
/// a key, and only shrinks the order and its size total.
pub proof fn lemma_evict_for_size_shape<V>(s: Seq<Entry<V>>, budget: int, size: int)
    requires
        keys_distinct(s),
    ensures
        keys_distinct(evict_for_size(s, budget, size)),
        forall|k: u64| #[trigger] has_key(evict_for_size(s, budget, size), k) ==> has_key(s, k),
        evict_for_size(s, budget, size).len() <= s.len(),
        total_size(evict_for_size(s, budget, size)) <= total_size(s),
        total_size(evict_for_size(s, budget, size)) + size <= budget || evict_for_size(
            s,
            budget,
            size,
        ).len() == 0,
    decreases s.len(),
{
    if s.len() > 0 && total_size(s) + size > budget {
        let s0 = s.drop_first();
        lemma_distinct_remove(s, 0);
        assert(s.remove(0) =~= s0);
        lemma_total_size_remove(s, 0);
        lemma_evict_for_size_shape(s0, budget, size);
        assert forall|k: u64| #[trigger] has_key(s0, k) implies has_key(s, k) by {
            let i = choose|i: int| 0 <= i < s0.len() && #[trigger] s0[i].key == k;
            assert(s[i + 1].key == k);
        }
    }
}

/// Oldest-first eviction for capacity keeps the keys distinct, never
/// introduces a key, only shrinks the order and its size total, and leaves
/// the count strictly below a positive capacity.
pub proof fn lemma_evict_for_capacity_shape<V>(s: Seq<Entry<V>>, cap: int)
    requires
        keys_distinct(s),
        cap >= 1,
    ensures
        keys_distinct(evict_for_capacity(s, cap)),
        forall|k: u64| #[trigger] has_key(evict_for_capacity(s, cap), k) ==> has_key(s, k),
        evict_for_capacity(s, cap).len() <= s.len(),
        total_size(evict_for_capacity(s, cap)) <= total_size(s),
        evict_for_capacity(s, cap).len() < cap,
    decreases s.len(),
{
    if s.len() > 0 && s.len() >= cap {
        let s0 = s.drop_first();
        lemma_distinct_remove(s, 0);
        assert(s.remove(0) =~= s0);
        lemma_total_size_remove(s, 0);
        lemma_total_size_nonneg(s0);
        lemma_evict_for_capacity_shape(s0, cap);
        assert forall|k: u64| #[trigger] has_key(s0, k) implies has_key(s, k) by {
            let i = choose|i: int| 0 <= i < s0.len() && #[trigger] s0[i].key == k;
            assert(s[i + 1].key == k);
        }
    }
}

/// With a size larger than the whole budget, oldest-first eviction for size
/// runs until nothing is left.
pub proof fn lemma_evict_for_size_oversize<V>(s: Seq<Entry<V>>, budget: int, size: int)
    requires
        size > budget,
    ensures
        evict_for_size(s, budget, size).len() == 0,
    decreases s.len(),
{
    if s.len() > 0 {
        lemma_total_size_nonneg(s);
        lemma_evict_for_size_oversize(s.drop_first(), budget, size);
    }
}

/// The eviction-order law: putting a fresh key into a full cache with no
/// expired entry and no size pressure evicts exactly the least-recently-used
/// entry — with no intervening reads, the first-inserted key — and nothing
/// else.
pub proof fn lemma_put_full_evicts_oldest<V>(
    s: Seq<Entry<V>>,
    key: u64,
    value: V,
    ttl: Option<u64>,
    size: usize,
    now: u64,
    cap: usize,
)
    requires
        keys_distinct(s),
        !has_key(s, key),
        s.len() == cap,
        cap >= 1,
        forall|i: int| 0 <= i < s.len() ==> !entry_expired(#[trigger] s[i], now),
        total_size(s) + size <= usize::MAX,
    ensures
        spec_put(s, key, value, ttl, size, now, cap, None) == s.drop_first().push(
            make_entry(key, value, ttl, size, now),
        ),
        !has_key(spec_put(s, key, value, ttl, size, now, cap, None), s[0].key),
{
    lemma_sweep_all_live(s, now);
    assert(remove_key(s, key) == s);
    lemma_total_size_nonneg(s);
    assert(evict_for_size(s, usize::MAX as int, size as int) == s);
    let s0 = s.drop_first();
    assert(evict_for_capacity(s, cap as int) == evict_for_capacity(s0, cap as int));
    assert(evict_for_capacity(s0, cap as int) == s0);
    let ne = make_entry(key, value, ttl, size, now);
    let t = s0.push(ne);
    assert(!has_key(t, s[0].key)) by {
        if has_key(t, s[0].key) {
            let i = choose|i: int| 0 <= i < t.len() && #[trigger] t[i].key == s[0].key;
            if i < s0.len() {
                assert(t[i] == s[i + 1]);
            } else {
                assert(t[i] == ne);
                assert(s[0].key == key);
                assert(has_key(s, key));
            }
        }
    }
}

/// Recency promotion protects the read key: the promoted entry stands at the
/// most-recently-used end, the next eviction candidate carries a different
/// key, and the promoted key survives one oldest-first eviction.
pub proof fn lemma_promotion_protects<V>(s: Seq<Entry<V>>, i: int)
    requires
        keys_distinct(s),
        0 <= i < s.len(),
        s.len() >= 2,
    ensures
        promote(s, i).len() == s.len(),
        promote(s, i).last() == s[i],
        keys_distinct(promote(s, i)),
        promote(s, i)[0].key != s[i].key,
        has_key(promote(s, i).drop_first(), s[i].key),
{
    lemma_distinct_remove(s, i);
    lemma_distinct_push(s.remove(i), s[i]);
    let p = promote(s, i);
    if i == 0 {
        assert(p[0] == s[1]);
    } else {
        assert(p[0] == s[0]);
    }
    assert(p.drop_first()[p.len() - 2] == p[p.len() - 1]);
    assert(p.drop_first()[p.len() - 2].key == s[i].key);
    assert(has_key(p.drop_first(), s[i].key));
}

/// Expiry boundary: a read of a key returns the stored value strictly before
/// its deadline and absence at or after it (the boundary is closed, so an
/// exactly-equal tick counts as expired); an entry without a deadline is
/// never expired by time alone.
pub proof fn lemma_ttl_boundary<V>(s: Seq<Entry<V>>, i: int, now: u64)
    requires
        keys_distinct(s),
        0 <= i < s.len(),
    ensures
        match s[i].expires_at {
            Some(t) => lookup(s, s[i].key, now) == if now < t {
                Some(s[i].value)
            } else {
                None::<V>
            },
            None => lookup(s, s[i].key, now) == Some(s[i].value),
        },
{
    lemma_index_of_key_unique(s, i);
}

/// An entry just installed is retrievable until its deadline: after a put
/// with a time-to-live, a read at any tick strictly before the deadline
/// returns the new value and a read at or after it returns absence; after a
/// put without one, the value is readable at every tick.
pub proof fn lemma_put_then_get<V>(
    s: Seq<Entry<V>>,
    key: u64,
    value: V,
    ttl: Option<u64>,
    size: usize,
    now: u64,
    cap: usize,
    ms: Option<usize>,
    later: u64,
)
    requires
        keys_distinct(s),
        cap >= 1,
    ensures
        ({
            let t = spec_put(s, key, value, ttl, size, now, cap, ms);
            lookup(t, key, later) == match ttl {
                Some(d) => if later < sat_add64(now, d) {
                    Some(value)
                } else {
                    None::<V>
                },
                None => Some(value),
            }
        }),
{
    let w = sweep(s, now);
    lemma_sweep_distinct(s, now);
    let rk = remove_key(w, key);
    if has_key(w, key) {
        let idx = index_of_key(w, key);
        lemma_distinct_remove(w, idx);
    }
    assert(keys_distinct(rk) && !has_key(rk, key));
    let es = evict_for_size(rk, effective_budget(ms), size as int);
    lemma_evict_for_size_shape(rk, effective_budget(ms), size as int);
    let ec = evict_for_capacity(es, cap as int);
    lemma_evict_for_capacity_shape(es, cap as int);
    let ne = make_entry(key, value, ttl, size, now);
    lemma_distinct_push(ec, ne);
    let t = ec.push(ne);
    assert(t[t.len() - 1] == ne);
    lemma_index_of_key_unique(t, t.len() - 1);
}

/// Size-budget law: with a budget configured, a put leaves the accounted
/// total within the budget whenever the new entry alone fits it; an entry
/// whose declared size alone exceeds the budget empties the cache entirely
/// and is still installed, standing as the sole entry.
pub proof fn lemma_size_budget<V>(
    s: Seq<Entry<V>>,
    key: u64,
    value: V,
    ttl: Option<u64>,
    size: usize,
    now: u64,
    cap: usize,
    m: usize,
)
    requires
        keys_distinct(s),
        cap >= 1,
    ensures
        ({
            let t = spec_put(s, key, value, ttl, size, now, cap, Some(m));
            &&& size <= m ==> total_size(t) <= m
            &&& size > m ==> t == seq![make_entry(key, value, ttl, size, now)]
        }),
{
    let w = sweep(s, now);
    lemma_sweep_distinct(s, now);
    let rk = remove_key(w, key);
    if has_key(w, key) {
        let idx = index_of_key(w, key);
        lemma_distinct_remove(w, idx);
    }
    let es = evict_for_size(rk, m as int, size as int);
    lemma_evict_for_size_shape(rk, m as int, size as int);
    let ec = evict_for_capacity(es, cap as int);
    lemma_evict_for_capacity_shape(es, cap as int);
    let ne = make_entry(key, value, ttl, size, now);
    lemma_total_size_push(ec, ne);
    let t = ec.push(ne);
    if size <= m {
        lemma_total_size_nonneg(ec);
    } else {
        lemma_evict_for_size_oversize(rk, m as int, size as int);
        assert(es =~= Seq::<Entry<V>>::empty());
        assert(ec =~= Seq::<Entry<V>>::empty());
        assert(t =~= seq![ne]);
    }
}

/// Idempotent replace: a put on a key already present, with no entry expired
/// and the replacement fitting the budget, leaves the entry count unchanged
/// and adjusts the size total by exactly the difference of the old and new
/// declared sizes — the replaced entry's size is never double-counted.
pub proof fn lemma_replace_preserves_len<V>(
    s: Seq<Entry<V>>,
    key: u64,
    value: V,
    ttl: Option<u64>,
    size: usize,
    now: u64,
    cap: usize,
    ms: Option<usize>,
)
    requires
        keys_distinct(s),
        cap >= 1,
        s.len() <= cap,
        has_key(s, key),
        forall|i: int| 0 <= i < s.len() ==> !entry_expired(#[trigger] s[i], now),
        total_size(s) - s[index_of_key(s, key)].size + size <= effective_budget(ms),
    ensures
        ({
            let t = spec_put(s, key, value, ttl, size, now, cap, ms);
            &&& t.len() == s.len()
            &&& total_size(t) == total_size(s) - s[index_of_key(s, key)].size + size
        }),
{
    lemma_sweep_all_live(s, now);
    let idx = index_of_key(s, key);
    lemma_total_size_remove(s, idx);
    lemma_distinct_remove(s, idx);
    let rk = s.remove(idx);
    assert(remove_key(s, key) == rk);
    assert(evict_for_size(rk, effective_budget(ms), size as int) == rk);
    assert(evict_for_capacity(rk, cap as int) == rk);
    let ne = make_entry(key, value, ttl, size, now);
    lemma_total_size_push(rk, ne);
}

} // verus!
