//! A bounded in-process cache that evicts entries by recency, by a total
//! size budget, by per-entry time-to-live, or by a raw slot capacity —
//! whichever limit is reached first.
//!
//! The engine in [`cache`] keeps a recency-ordered sequence of entries with
//! distinct keys; every mutation is specified against a sequence model, and
//! the well-formedness invariants (distinct keys, capacity bound, exact size
//! accounting, budget respected) are proved to hold after every operation.
//! The laws the cache obeys — eviction order, recency promotion, expiry
//! boundaries, size-budget behaviour, idempotent replacement — are stated
//! and proved in [`laws`]. The [`concurrent`] module shares one engine
//! across threads behind a single reader/writer lock whose predicate is the
//! engine's well-formedness, so no interleaving can observe a broken state.
//!
//! Time is supplied by the caller as monotonic clock ticks, so every expiry
//! decision is a pure function of the cache state and the tick handed in; an
//! external monotonic clock collaborator produces the ticks.

pub mod cache;
pub mod concurrent;
pub mod laws;
