//! The eviction-ordered storage engine: a recency-ordered sequence of entries
//! with distinct keys, a slot capacity, an optional total size budget, and
//! per-entry expiry deadlines.

use vstd::prelude::*;

verus! {

/// One stored entry: the key, the caller's value, the caller-declared logical
/// size used for budget accounting, and an optional absolute expiry deadline
/// in clock ticks (absent means the entry never expires by time).
pub struct Entry<V> {
    pub key: u64,
    pub value: V,
    pub size: usize,
    pub expires_at: Option<u64>,
}

/// An entry is expired once its deadline is at or before the current tick;
/// the boundary is closed, so an exactly-equal instant counts as expired.
pub open spec fn entry_expired<V>(e: Entry<V>, now: u64) -> bool {
    match e.expires_at {
        Some(t) => t <= now,
        None => false,
    }
}

/// Sum of the declared sizes of a sequence of entries.
pub open spec fn total_size<V>(s: Seq<Entry<V>>) -> int
    decreases s.len(),
{
    if s.len() == 0 {
        0
    } else {
        s[0].size + total_size(s.drop_first())
    }
}

/// No key occurs twice: the central invariant of the recency order.
pub open spec fn keys_distinct<V>(s: Seq<Entry<V>>) -> bool {
    forall|i: int, j: int|
        #![trigger s[i].key, s[j].key]
        0 <= i < j < s.len() ==> s[i].key != s[j].key
}

/// Whether some entry carries the given key.
pub open spec fn has_key<V>(s: Seq<Entry<V>>, key: u64) -> bool {
    exists|i: int| 0 <= i < s.len() && #[trigger] s[i].key == key
}

/// The position of the entry carrying the given key; meaningful only where
/// `has_key` holds and the keys are distinct.
pub open spec fn index_of_key<V>(s: Seq<Entry<V>>, key: u64) -> int {
    choose|i: int| 0 <= i < s.len() && #[trigger] s[i].key == key
}

/// The size budget actually enforced: the configured maximum, or, with none
/// configured, the largest total the accounting field can represent.
pub open spec fn effective_budget(max_size: Option<usize>) -> int {
    match max_size {
        Some(m) => m as int,
        None => usize::MAX as int,
    }
}

/// The configured budget is respected, except that a single oversized entry
/// is permitted to stand alone.
pub open spec fn within_budget<V>(s: Seq<Entry<V>>, max_size: Option<usize>) -> bool {
    match max_size {
        Some(m) => total_size(s) <= m || s.len() <= 1,
        None => true,
    }
}

/// The entries that survive an expiry sweep at the given tick, in order.
pub open spec fn sweep<V>(s: Seq<Entry<V>>, now: u64) -> Seq<Entry<V>> {
    s.filter(|e: Entry<V>| !entry_expired(e, now))
}

pub proof fn lemma_total_size_push<V>(s: Seq<Entry<V>>, e: Entry<V>)
    ensures
        total_size(s.push(e)) == total_size(s) + e.size,
    decreases s.len(),
{
    if s.len() == 0 {
        assert(s.push(e)[0] == e);
        assert(s.push(e).drop_first() =~= Seq::<Entry<V>>::empty());
        assert(total_size(Seq::<Entry<V>>::empty()) == 0);
    } else {
        assert(s.push(e)[0] == s[0]);
        assert(s.push(e).drop_first() =~= s.drop_first().push(e));
        lemma_total_size_push(s.drop_first(), e);
    }
}

pub proof fn lemma_total_size_remove<V>(s: Seq<Entry<V>>, i: int)
    requires
        0 <= i < s.len(),
    ensures
        total_size(s.remove(i)) == total_size(s) - s[i].size,
    decreases s.len(),
{
    if i == 0 {
        assert(s.remove(0) =~= s.drop_first());
    } else {
        assert(s.remove(i).drop_first() =~= s.drop_first().remove(i - 1));
        lemma_total_size_remove(s.drop_first(), i - 1);
    }
}

pub proof fn lemma_total_size_nonneg<V>(s: Seq<Entry<V>>)
    ensures
        total_size(s) >= 0,
    decreases s.len(),
{
    if s.len() > 0 {
        lemma_total_size_nonneg(s.drop_first());
    }
}

pub proof fn lemma_distinct_remove<V>(s: Seq<Entry<V>>, i: int)
    requires
        keys_distinct(s),
        0 <= i < s.len(),
    ensures
        keys_distinct(s.remove(i)),
        !has_key(s.remove(i), s[i].key),
{
    let t = s.remove(i);
    assert forall|a: int, b: int| 0 <= a < b < t.len() implies t[a].key != t[b].key by {
        let a0 = if a < i { a } else { a + 1 };
        let b0 = if b < i { b } else { b + 1 };
        assert(t[a] == s[a0]);
        assert(t[b] == s[b0]);
    }
    assert forall|a: int| 0 <= a < t.len() implies t[a].key != s[i].key by {
        let a0 = if a < i { a } else { a + 1 };
        assert(t[a] == s[a0]);
    }
}

/// Every entry that survives a sweep is unexpired at the sweep's tick.
pub proof fn lemma_sweep_live<V>(s: Seq<Entry<V>>, now: u64)
    ensures
        forall|i: int|
            0 <= i < sweep(s, now).len() ==> !entry_expired(#[trigger] sweep(s, now)[i], now),
    decreases s.len(),
{
    reveal(Seq::filter);
    if s.len() == 0 {
        assert(sweep(s, now) =~= s);
    } else {
        let s0 = s.drop_last();
        lemma_sweep_live(s0, now);
        if !entry_expired(s.last(), now) {
            assert(sweep(s, now) == sweep(s0, now).push(s.last()));
            assert forall|i: int| 0 <= i < sweep(s, now).len() implies !entry_expired(
                #[trigger] sweep(s, now)[i],
                now,
            ) by {
                if i < sweep(s, now).len() - 1 {
                    assert(sweep(s, now)[i] == sweep(s0, now)[i]);
                } else {
                    assert(sweep(s, now)[i] == s.last());
                }
            }
        } else {
            assert(sweep(s, now) == sweep(s0, now));
        }
    }
}

/// Sweeping a sequence extended by one entry keeps the entry exactly when it
/// is not expired.
pub proof fn lemma_sweep_push<V>(s: Seq<Entry<V>>, e: Entry<V>, now: u64)
    ensures
        sweep(s.push(e), now) == if entry_expired(e, now) {
            sweep(s, now)
        } else {
            sweep(s, now).push(e)
        },
{
    reveal(Seq::filter);
    assert(s.push(e).drop_last() =~= s);
}

/// Addition on ticks that sticks at the largest representable tick instead
/// of wrapping, so a huge time-to-live yields a deadline in the far future.
pub open spec fn sat_add64(a: u64, b: u64) -> u64 {
    if a + b > u64::MAX {
        u64::MAX
    } else {
        (a + b) as u64
    }
}

/// The entry a put installs at the given tick: a missing time-to-live means
/// no deadline, otherwise the deadline is the tick plus the time-to-live.
pub open spec fn make_entry<V>(key: u64, value: V, ttl: Option<u64>, size: usize, now: u64) -> Entry<
    V,
> {
    Entry {
        key,
        value,
        size,
        expires_at: match ttl {
            Some(d) => Some(sat_add64(now, d)),
            None => None,
        },
    }
}

/// The order with the entry carrying the given key dropped, if one does.
pub open spec fn remove_key<V>(s: Seq<Entry<V>>, key: u64) -> Seq<Entry<V>> {
    if has_key(s, key) {
        s.remove(index_of_key(s, key))
    } else {
        s
    }
}

/// Oldest-first eviction until an incoming entry of the given size fits the
/// budget or nothing is left.
pub open spec fn evict_for_size<V>(s: Seq<Entry<V>>, budget: int, size: int) -> Seq<Entry<V>>
    decreases s.len(),
{
    if s.len() > 0 && total_size(s) + size > budget {
        evict_for_size(s.drop_first(), budget, size)
    } else {
        s
    }
}

/// Oldest-first eviction until the entry count is strictly below the slot
/// capacity or nothing is left.
pub open spec fn evict_for_capacity<V>(s: Seq<Entry<V>>, cap: int) -> Seq<Entry<V>>
    decreases s.len(),
{
    if s.len() > 0 && s.len() >= cap {
        evict_for_capacity(s.drop_first(), cap)
    } else {
        s
    }
}

/// The full effect of a put on the recency order: sweep expired entries,
/// drop the key's previous entry, resolve size pressure, then capacity
/// pressure, and append the new entry at the most-recently-used end.
pub open spec fn spec_put<V>(
    s: Seq<Entry<V>>,
    key: u64,
    value: V,
    ttl: Option<u64>,
    size: usize,
    now: u64,
    cap: usize,
    max_size: Option<usize>,
) -> Seq<Entry<V>> {
    evict_for_capacity(
        evict_for_size(remove_key(sweep(s, now), key), effective_budget(max_size), size as int),
        cap as int,
    ).push(make_entry(key, value, ttl, size, now))
}

/// Promotion of the entry at the given position to most-recently-used.
pub open spec fn promote<V>(s: Seq<Entry<V>>, i: int) -> Seq<Entry<V>> {
    s.remove(i).push(s[i])
}

/// Promotion of the entry at the given position, with its value replaced:
/// the shape a mutable read leaves behind once the handed-out borrow ends.
pub open spec fn promote_with_value<V>(s: Seq<Entry<V>>, i: int, v: V) -> Seq<Entry<V>> {
    s.remove(i).push(Entry { value: v, ..s[i] })
}

/// What a read of the given key at the given tick returns: the stored value
/// if the key is present and not expired, absence otherwise.
pub open spec fn lookup<V>(s: Seq<Entry<V>>, key: u64, now: u64) -> Option<V> {
    if has_key(s, key) && !entry_expired(s[index_of_key(s, key)], now) {
        Some(s[index_of_key(s, key)].value)
    } else {
        None
    }
}

/// With distinct keys, the position of a key is the only position carrying
/// that key.
pub proof fn lemma_index_of_key_unique<V>(s: Seq<Entry<V>>, i: int)
    requires
        keys_distinct(s),
        0 <= i < s.len(),
    ensures
        has_key(s, s[i].key),
        index_of_key(s, s[i].key) == i,
{
    assert(has_key(s, s[i].key));
    let j = index_of_key(s, s[i].key);
    if i < j {
        assert(s[i].key != s[j].key);
    } else if j < i {
        assert(s[j].key != s[i].key);
    }
}

pub proof fn lemma_distinct_push<V>(s: Seq<Entry<V>>, e: Entry<V>)
    requires
        keys_distinct(s),
        !has_key(s, e.key),
    ensures
        keys_distinct(s.push(e)),
{
    let t = s.push(e);
    assert forall|a: int, b: int| 0 <= a < b < t.len() implies t[a].key != t[b].key by {
        if b == s.len() {
            assert(t[a] == s[a]);
            assert(s[a].key != e.key);
        } else {
            assert(t[a] == s[a]);
            assert(t[b] == s[b]);
        }
    }
}

/// A bounded cache ordered by recency: the entry at position 0 is the
/// least-recently-used, the last entry the most-recently-used.
pub struct LruCache<V> {
    entries: Vec<Entry<V>>,
    capacity: usize,
    max_size: Option<usize>,
    current_size: usize,
}

/// Construction is the only operation that can fail: a zero capacity is
/// rejected outright rather than accepted in degraded form.
#[derive(Clone, Copy, Debug, PartialEq, Eq, Structural)]
pub enum CacheError {
    InvalidCapacity,
}

impl<V> Entry<V> {
    /// Whether this entry's deadline has passed at the given tick.
    pub fn expired_at(&self, now: u64) -> (r: bool)
        ensures
            r == entry_expired(*self, now),
    {
        match self.expires_at {
            Some(t) => t <= now,
            None => false,
        }
    }
}

impl<V> View for LruCache<V> {
    type V = Seq<Entry<V>>;

    closed spec fn view(&self) -> Seq<Entry<V>> {
        self.entries@
    }
}

impl<V> LruCache<V> {
    /// The configured slot capacity.
    pub closed spec fn spec_capacity(&self) -> usize {
        self.capacity
    }

    /// The configured size budget, if one was set.
    pub closed spec fn spec_max_size(&self) -> Option<usize> {
        self.max_size
    }

    /// The running total of the declared sizes of the live entries.
    pub closed spec fn spec_current_size(&self) -> usize {
        self.current_size
    }

    /// Well-formedness: distinct keys, a positive capacity that bounds the
    /// entry count, exact size accounting, and the size budget respected
    /// (save for a lone oversized entry).
    pub open spec fn wf(&self) -> bool {
        &&& keys_distinct(self@)
        &&& 1 <= self.spec_capacity()
        &&& self@.len() <= self.spec_capacity()
        &&& self.spec_current_size() == total_size(self@)
        &&& within_budget(self@, self.spec_max_size())
    }

    /// Creates an empty cache with the given slot capacity and optional total
    /// size budget; rejects a zero capacity.
    pub fn new(capacity: usize, max_size: Option<usize>) -> (r: Result<Self, CacheError>)
        ensures
            r is Ok <==> capacity >= 1,
            capacity == 0 ==> r == Err::<Self, CacheError>(CacheError::InvalidCapacity),
            r matches Ok(c) ==> {
                &&& c.wf()
                &&& c@ == Seq::<Entry<V>>::empty()
                &&& c.spec_capacity() == capacity
                &&& c.spec_max_size() == max_size
                &&& c.spec_current_size() == 0
            },
    {
        if capacity == 0 {
            Err(CacheError::InvalidCapacity)
        } else {
            let c = LruCache { entries: Vec::new(), capacity, max_size, current_size: 0 };
            proof {
                assert(c@ == Seq::<Entry<V>>::empty());
            }
            Ok(c)
        }
    }

    /// Number of live entries.
    pub fn len(&self) -> (r: usize)
        ensures
            r == self@.len(),
    {
        self.entries.len()
    }

    /// Whether the cache holds no entries.
    pub fn is_empty(&self) -> (r: bool)
        ensures
            r == (self@.len() == 0),
    {
        self.entries.len() == 0
    }

    /// The configured slot capacity.
    pub fn capacity(&self) -> (r: usize)
        ensures
            r == self.spec_capacity(),
    {
        self.capacity
    }

    /// The configured size budget, if one was set.
    pub fn max_size(&self) -> (r: Option<usize>)
        ensures
            r == self.spec_max_size(),
    {
        self.max_size
    }

    /// The running total of the declared sizes of the live entries.
    pub fn current_size(&self) -> (r: usize)
        ensures
            r == self.spec_current_size(),
    {
        self.current_size
    }

    /// Evicts the single least-recently-used entry, patching the order and
    /// the size accounting; does nothing on an empty cache. This is the sole
    /// removal primitive the eviction policy invokes.
    pub fn remove_oldest(&mut self)
        requires
            old(self).wf(),
        ensures
            final(self).wf(),
            final(self).spec_capacity() == old(self).spec_capacity(),
            final(self).spec_max_size() == old(self).spec_max_size(),
            old(self)@.len() == 0 ==> *final(self) == *old(self),
            old(self)@.len() > 0 ==> {
                &&& final(self)@ == old(self)@.drop_first()
                &&& final(self).spec_current_size() == old(self).spec_current_size()
                    - old(self)@[0].size
            },
    {
        if self.entries.len() > 0 {
            proof {
                lemma_total_size_remove(self.entries@, 0);
                lemma_total_size_nonneg(self.entries@.remove(0));
                lemma_distinct_remove(self.entries@, 0);
                assert(self.entries@.remove(0) =~= self.entries@.drop_first());
            }
            let e = self.entries.remove(0);
            self.current_size = self.current_size - e.size;
        }
    }

    /// The eager full sweep: removes every entry whose deadline has passed at
    /// the given tick, independent of access pattern, preserving the recency
    /// order of the surviving entries.
    pub fn clear_expired(&mut self, now: u64)
        requires
            old(self).wf(),
        ensures
            final(self).wf(),
            final(self).spec_capacity() == old(self).spec_capacity(),
            final(self).spec_max_size() == old(self).spec_max_size(),
            final(self)@ == sweep(old(self)@, now),
            forall|i: int|
                0 <= i < final(self)@.len() ==> !entry_expired(#[trigger] final(self)@[i], now),
    {
        proof {
            lemma_sweep_live(self.entries@, now);
        }
        let ghost orig = self.entries@;
        let ghost mut j: int = 0;
        let mut i: usize = 0;
        while i < self.entries.len()
            invariant
                0 <= j <= orig.len(),
                i == sweep(orig.take(j), now).len(),
                self.entries@ == sweep(orig.take(j), now) + orig.skip(j),
                self.current_size == total_size(self.entries@),
                keys_distinct(self.entries@),
                self.entries@.len() <= orig.len(),
                within_budget(self.entries@, self.max_size),
                self.capacity == old(self).capacity,
                self.max_size == old(self).max_size,
                orig == old(self)@,
                old(self).wf(),
            decreases orig.len() - j,
        {
            proof {
                assert(self.entries@[i as int] == orig.skip(j)[0]);
                assert(orig.skip(j)[0] == orig[j]);
                assert(orig.take(j + 1) =~= orig.take(j).push(orig[j]));
                lemma_sweep_push(orig.take(j), orig[j], now);
            }
            if self.entries[i].expired_at(now) {
                proof {
                    lemma_total_size_remove(self.entries@, i as int);
                    lemma_total_size_nonneg(self.entries@.remove(i as int));
                    lemma_distinct_remove(self.entries@, i as int);
                    assert(self.entries@.remove(i as int) =~= sweep(orig.take(j + 1), now)
                        + orig.skip(j + 1));
                }
                let e = self.entries.remove(i);
                self.current_size = self.current_size - e.size;
                proof {
                    j = j + 1;
                }
            } else {
                proof {
                    assert(sweep(orig.take(j), now).push(orig[j]) + orig.skip(j + 1)
                        =~= self.entries@);
                    j = j + 1;
                }
                i = i + 1;
            }
        }
        proof {
            assert(orig.skip(j).len() == 0);
            assert(j == orig.len());
            assert(orig.take(j) =~= orig);
            assert(self.entries@ =~= sweep(orig, now));
        }
    }

    /// Position of the entry carrying the given key, if any.
    fn find(&self, key: u64) -> (r: Option<usize>)
        ensures
            match r {
                Some(i) => i < self@.len() && self@[i as int].key == key,
                None => !has_key(self@, key),
            },
    {
        let mut i: usize = 0;
        while i < self.entries.len()
            invariant
                i <= self@.len(),
                forall|j: int| 0 <= j < i ==> self@[j].key != key,
            decreases self@.len() - i,
        {
            if self.entries[i].key == key {
                return Some(i);
            }
            i = i + 1;
        }
        None
    }

    /// Removes the entry carrying the given key, if one is present, keeping
    /// the rest of the order and the size accounting intact.
    fn drop_key(&mut self, key: u64)
        requires
            old(self).wf(),
        ensures
            final(self).wf(),
            final(self).spec_capacity() == old(self).spec_capacity(),
            final(self).spec_max_size() == old(self).spec_max_size(),
            final(self)@ == remove_key(old(self)@, key),
            !has_key(final(self)@, key),
            has_key(old(self)@, key) ==> {
                &&& final(self)@.len() == old(self)@.len() - 1
                &&& final(self).spec_current_size() == old(self).spec_current_size()
                    - old(self)@[index_of_key(old(self)@, key)].size
            },
            !has_key(old(self)@, key) ==> *final(self) == *old(self),
    {
        match self.find(key) {
            None => {
            },
            Some(i) => {
                proof {
                    lemma_index_of_key_unique(self.entries@, i as int);
                    lemma_total_size_remove(self.entries@, i as int);
                    lemma_total_size_nonneg(self.entries@.remove(i as int));
                    lemma_distinct_remove(self.entries@, i as int);
                }
                let e = self.entries.remove(i);
                self.current_size = self.current_size - e.size;
            },
        }
    }

    /// Whether the key is present and unexpired at the given tick, without
    /// promoting or removing anything.
    pub fn contains_live(&self, key: u64, now: u64) -> (r: bool)
        requires
            self.wf(),
        ensures
            r == (lookup(self@, key, now) is Some),
    {
        match self.find(key) {
            None => false,
            Some(i) => {
                proof {
                    lemma_index_of_key_unique(self.entries@, i as int);
                }
                !self.entries[i].expired_at(now)
            },
        }
    }

    /// Looks the key up at the given tick. A hit promotes the entry to
    /// most-recently-used and returns a reference to its value; a key found
    /// expired is removed on the spot and reported absent (lazy expiry), so
    /// an expired value is never returned.
    pub fn get(&mut self, key: u64, now: u64) -> (r: Option<&V>)
        requires
            old(self).wf(),
        ensures
            final(self).wf(),
            final(self).spec_capacity() == old(self).spec_capacity(),
            final(self).spec_max_size() == old(self).spec_max_size(),
            match r {
                Some(v) => lookup(old(self)@, key, now) == Some(*v),
                None => lookup(old(self)@, key, now) is None,
            },
            !has_key(old(self)@, key) ==> r is None && *final(self) == *old(self),
            has_key(old(self)@, key) && entry_expired(
                old(self)@[index_of_key(old(self)@, key)],
                now,
            ) ==> {
                &&& r is None
                &&& final(self)@ == old(self)@.remove(index_of_key(old(self)@, key))
                &&& final(self).spec_current_size() == old(self).spec_current_size()
                    - old(self)@[index_of_key(old(self)@, key)].size
            },
            has_key(old(self)@, key) && !entry_expired(
                old(self)@[index_of_key(old(self)@, key)],
                now,
            ) ==> {
                &&& final(self)@ == promote(old(self)@, index_of_key(old(self)@, key))
                &&& final(self).spec_current_size() == old(self).spec_current_size()
            },
    {
        match self.find(key) {
            None => None,
            Some(i) => {
                proof {
                    lemma_index_of_key_unique(self.entries@, i as int);
                    lemma_total_size_remove(self.entries@, i as int);
                    lemma_total_size_nonneg(self.entries@.remove(i as int));
                    lemma_distinct_remove(self.entries@, i as int);
                }
                if self.entries[i].expired_at(now) {
                    let e = self.entries.remove(i);
                    self.current_size = self.current_size - e.size;
                    None
                } else {
                    proof {
                        let s = self.entries@;
                        lemma_distinct_push(s.remove(i as int), s[i as int]);
                        lemma_total_size_push(s.remove(i as int), s[i as int]);
                    }
                    let e = self.entries.remove(i);
                    self.entries.push(e);
                    let n = self.entries.len();
                    Some(&self.entries[n - 1].value)
                }
            },
        }
    }

    /// Looks the key up at the given tick, handing out a mutable borrow of
    /// the value on a hit. Behaves as `get` otherwise: the entry is promoted
    /// to most-recently-used, and a key found expired is removed on the spot
    /// and reported absent.
    pub fn get_mut(&mut self, key: u64, now: u64) -> (r: Option<&mut V>)
        requires
            old(self).wf(),
        ensures
            final(self).wf(),
            final(self).spec_capacity() == old(self).spec_capacity(),
            final(self).spec_max_size() == old(self).spec_max_size(),
            !has_key(old(self)@, key) ==> r is None && *final(self) == *old(self),
            has_key(old(self)@, key) && entry_expired(
                old(self)@[index_of_key(old(self)@, key)],
                now,
            ) ==> {
                &&& r is None
                &&& final(self)@ == old(self)@.remove(index_of_key(old(self)@, key))
                &&& final(self).spec_current_size() == old(self).spec_current_size()
                    - old(self)@[index_of_key(old(self)@, key)].size
            },
            has_key(old(self)@, key) && !entry_expired(
                old(self)@[index_of_key(old(self)@, key)],
                now,
            ) ==> {
                &&& r is Some
                &&& *r.unwrap() == old(self)@[index_of_key(old(self)@, key)].value
                &&& final(self)@ == promote_with_value(
                    old(self)@,
                    index_of_key(old(self)@, key),
                    *final(r.unwrap()),
                )
                &&& final(self).spec_current_size() == old(self).spec_current_size()
            },
    {
        match self.find(key) {
            None => None,
            Some(i) => {
                proof {
                    lemma_index_of_key_unique(self.entries@, i as int);
                    lemma_total_size_remove(self.entries@, i as int);
                    lemma_total_size_nonneg(self.entries@.remove(i as int));
                    lemma_distinct_remove(self.entries@, i as int);
                }
                if self.entries[i].expired_at(now) {
                    let e = self.entries.remove(i);
                    self.current_size = self.current_size - e.size;
                    None
                } else {
                    proof {
                        let s = self.entries@;
                        let ii = i as int;
                        assert forall|v: V|
                            {
                                &&& #[trigger] promote_with_value(s, ii, v)
                                    == s.remove(ii).push(s[ii]).update(
                                    s.len() - 1,
                                    Entry { value: v, ..s[ii] },
                                )
                                &&& total_size(promote_with_value(s, ii, v)) == total_size(s)
                                &&& keys_distinct(promote_with_value(s, ii, v))
                            } by {
                            let e2 = Entry { value: v, ..s[ii] };
                            lemma_total_size_push(s.remove(ii), e2);
                            lemma_distinct_push(s.remove(ii), e2);
                            assert(s.remove(ii).push(s[ii]).update(s.len() - 1, e2)
                                =~= promote_with_value(s, ii, v));
                        }
                        assert forall|e2: Entry<V>|
                            e2.size == s[ii].size && e2.key == s[ii].key implies {
                                &&& total_size(
                                    #[trigger] s.remove(ii).push(s[ii]).update(s.len() - 1, e2),
                                ) == total_size(s)
                                &&& keys_distinct(s.remove(ii).push(s[ii]).update(s.len() - 1, e2))
                            } by {
                            lemma_total_size_push(s.remove(ii), e2);
                            lemma_distinct_push(s.remove(ii), e2);
                            assert(s.remove(ii).push(s[ii]).update(s.len() - 1, e2) =~= s.remove(
                                ii,
                            ).push(e2));
                        }
                        lemma_total_size_push(s.remove(i as int), s[i as int]);
                    }
                    let e = self.entries.remove(i);
                    self.entries.push(e);
                    let n = self.entries.len();
                    Some(&mut self.entries[n - 1].value)
                }
            },
        }
    }

    /// Inserts or replaces. Expired entries are swept first; a previous entry
    /// under the same key is dropped (so its size is never double-counted);
    /// then least-recently-used entries are evicted until the newcomer fits
    /// the size budget and the slot capacity; finally the new entry is
    /// appended at the most-recently-used end. Always succeeds: an entry
    /// whose size alone exceeds the budget empties the cache and is still
    /// installed.
    pub fn put(&mut self, key: u64, value: V, ttl: Option<u64>, size: usize, now: u64)
        requires
            old(self).wf(),
        ensures
            final(self).wf(),
            final(self).spec_capacity() == old(self).spec_capacity(),
            final(self).spec_max_size() == old(self).spec_max_size(),
            final(self)@ == spec_put(
                old(self)@,
                key,
                value,
                ttl,
                size,
                now,
                old(self).spec_capacity(),
                old(self).spec_max_size(),
            ),
            final(self)@.len() >= 1,
            final(self)@.last() == make_entry(key, value, ttl, size, now),
    {
        self.clear_expired(now);
        self.drop_key(key);
        let budget: usize = match self.max_size {
            Some(m) => m,
            None => usize::MAX,
        };
        proof {
            assert(budget as int == effective_budget(self.max_size));
        }
        let ghost s1 = self.entries@;
        while self.entries.len() > 0 && (size > budget || self.current_size > budget - size)
            invariant
                self.wf(),
                self.spec_capacity() == old(self).spec_capacity(),
                self.spec_max_size() == old(self).spec_max_size(),
                budget as int == effective_budget(self.spec_max_size()),
                !has_key(self.entries@, key),
                evict_for_size(self.entries@, budget as int, size as int) == evict_for_size(
                    s1,
                    budget as int,
                    size as int,
                ),
            decreases self.entries@.len(),
        {
            proof {
                lemma_total_size_nonneg(self.entries@.drop_first());
                assert(total_size(self.entries@) + size > budget);
                assert(evict_for_size(self.entries@, budget as int, size as int)
                    == evict_for_size(self.entries@.drop_first(), budget as int, size as int));
                assert forall|a: int| 0 <= a < self.entries@.drop_first().len() implies self.entries@.drop_first()[a].key
                    != key by {
                    assert(self.entries@.drop_first()[a] == self.entries@[a + 1]);
                }
            }
            self.remove_oldest();
        }
        let ghost s2 = self.entries@;
        proof {
            assert(evict_for_size(self.entries@, budget as int, size as int) == self.entries@);
            assert(s2 == evict_for_size(s1, budget as int, size as int));
            lemma_total_size_nonneg(s2);
        }
        while self.entries.len() >= self.capacity
            invariant
                self.wf(),
                self.spec_capacity() == old(self).spec_capacity(),
                self.spec_max_size() == old(self).spec_max_size(),
                !has_key(self.entries@, key),
                total_size(self.entries@) + size <= budget || self.entries@.len() == 0,
                evict_for_capacity(self.entries@, self.capacity as int) == evict_for_capacity(
                    s2,
                    self.capacity as int,
                ),
            decreases self.entries@.len(),
        {
            proof {
                assert(evict_for_capacity(self.entries@, self.capacity as int)
                    == evict_for_capacity(self.entries@.drop_first(), self.capacity as int));
                lemma_total_size_nonneg(self.entries@.drop_first());
                assert forall|a: int| 0 <= a < self.entries@.drop_first().len() implies self.entries@.drop_first()[a].key
                    != key by {
                    assert(self.entries@.drop_first()[a] == self.entries@[a + 1]);
                }
            }
            self.remove_oldest();
        }
        let ghost s3 = self.entries@;
        let ghost ne = make_entry(key, value, ttl, size, now);
        proof {
            assert(evict_for_capacity(self.entries@, self.capacity as int) == self.entries@);
            assert(s3 == evict_for_capacity(s2, self.capacity as int));
            lemma_distinct_push(s3, ne);
            lemma_total_size_push(s3, ne);
            lemma_total_size_nonneg(s3);
        }
        let expires_at: Option<u64> = match ttl {
            Some(d) => Some(now.saturating_add(d)),
            None => None,
        };
        self.entries.push(Entry { key, value, size, expires_at });
        self.current_size = self.current_size + size;
        proof {
            assert(self.entries@ == s3.push(ne));
        }
    }
}

} // verus!
