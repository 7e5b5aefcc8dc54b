//! The concurrency wrapper: a single reader/writer lock guards the whole
//! engine, so reads may share access among themselves while any operation
//! that can mutate the order, the index or the size accounting holds
//! exclusive access for its full duration. The lock's predicate is the
//! engine's well-formedness, so no interleaving of callers can observe or
//! leave a state that violates the engine's invariants.

use vstd::prelude::*;
use vstd::rwlock::{RwLock, RwLockPredicate};
use crate::cache::{CacheError, LruCache};

verus! {

/// What every state stored in the lock satisfies: the engine is well-formed
/// and carries the configuration the wrapper was built with.
pub struct CachePred {
    pub capacity: usize,
    pub max_size: Option<usize>,
}

impl<V> RwLockPredicate<LruCache<V>> for CachePred {
    open spec fn inv(self, c: LruCache<V>) -> bool {
        &&& c.wf()
        &&& c.spec_capacity() == self.capacity
        &&& c.spec_max_size() == self.max_size
    }
}

/// A cache safely shared across threads. The concurrent variant hands out
/// owned copies of values, never live references, because a reference could
/// not safely outlive the released lock scope.
pub struct ConcurrentLruCache<V> {
    lock: RwLock<LruCache<V>, CachePred>,
    capacity: usize,
    max_size: Option<usize>,
}

impl<V> ConcurrentLruCache<V> {
    /// The configured slot capacity.
    pub closed spec fn spec_capacity(&self) -> usize {
        self.capacity
    }

    /// The configured size budget, if one was set.
    pub closed spec fn spec_max_size(&self) -> Option<usize> {
        self.max_size
    }

    /// The wrapper is tied to its lock: every state the lock stores is a
    /// well-formed engine with this wrapper's configuration.
    pub closed spec fn wf(&self) -> bool {
        self.lock.pred() == (CachePred { capacity: self.capacity, max_size: self.max_size })
    }

    /// Creates a shared cache with the given slot capacity and optional size
    /// budget; rejects a zero capacity.
    pub fn new(capacity: usize, max_size: Option<usize>) -> (r: Result<Self, CacheError>)
        ensures
            r is Ok <==> capacity >= 1,
            capacity == 0 ==> r == Err::<Self, CacheError>(CacheError::InvalidCapacity),
            r matches Ok(c) ==> {
                &&& c.wf()
                &&& c.spec_capacity() == capacity
                &&& c.spec_max_size() == max_size
            },
    {
        match LruCache::new(capacity, max_size) {
            Ok(inner) => {
                let lock = RwLock::new(inner, Ghost(CachePred { capacity, max_size }));
                Ok(ConcurrentLruCache { lock, capacity, max_size })
            },
            Err(e) => Err(e),
        }
    }

    /// Inserts or replaces under exclusive access for the full duration of
    /// the mutation; the engine's invariants hold again before the lock is
    /// released.
    pub fn put(&self, key: u64, value: V, ttl: Option<u64>, size: usize, now: u64)
        requires
            self.wf(),
    {
        let (mut c, handle) = self.lock.acquire_write();
        c.put(key, value, ttl, size, now);
        handle.release_write(c);
    }

    /// Evicts the least-recently-used entry under exclusive access.
    pub fn remove_oldest(&self)
        requires
            self.wf(),
    {
        let (mut c, handle) = self.lock.acquire_write();
        c.remove_oldest();
        handle.release_write(c);
    }

    /// The eager full sweep as an explicit maintenance hook, meant to be
    /// invoked by an external periodic timer collaborator so that expired
    /// entries do not sit against the capacity and the budget indefinitely.
    pub fn clear_expired(&self, now: u64)
        requires
            self.wf(),
    {
        let (mut c, handle) = self.lock.acquire_write();
        c.clear_expired(now);
        handle.release_write(c);
    }

    /// Number of live entries at the moment the shared access was held; it
    /// never exceeds the configured capacity.
    pub fn len(&self) -> (r: usize)
        requires
            self.wf(),
        ensures
            r <= self.spec_capacity(),
    {
        let read_handle = self.lock.acquire_read();
        let n = read_handle.borrow().len();
        read_handle.release_read();
        n
    }

    /// Whether the cache held no entries at the moment the shared access was
    /// held.
    pub fn is_empty(&self) -> (r: bool)
        requires
            self.wf(),
    {
        let read_handle = self.lock.acquire_read();
        let e = read_handle.borrow().is_empty();
        read_handle.release_read();
        e
    }

    /// The configured slot capacity.
    pub fn capacity(&self) -> (r: usize)
        ensures
            r == self.spec_capacity(),
    {
        self.capacity
    }

    /// The configured size budget, if one was set.
    pub fn max_size(&self) -> (r: Option<usize>)
        ensures
            r == self.spec_max_size(),
    {
        self.max_size
    }
}

impl<V: Copy> ConcurrentLruCache<V> {
    /// Looks the key up at the given tick, returning an owned copy of the
    /// value on a hit. Follows the two-phase discipline: an optimistic
    /// existence-and-expiry check under shared access, then, only if the key
    /// looked live, an upgrade to exclusive access under which existence and
    /// expiry are checked again — the state may have changed between the two
    /// acquisitions — before the entry is promoted and the value copied out.
    pub fn get(&self, key: u64, now: u64) -> (r: Option<V>)
        requires
            self.wf(),
    {
        let read_handle = self.lock.acquire_read();
        let maybe_live = read_handle.borrow().contains_live(key, now);
        read_handle.release_read();
        if !maybe_live {
            return None;
        }
        let (mut c, handle) = self.lock.acquire_write();
        let r = match c.get(key, now) {
            Some(v) => Some(*v),
            None => None,
        };
        handle.release_write(c);
        r
    }
}

} // verus!
