//! The snapshot that is served, and the rule by which it is refreshed.

use crate::snapshot::{Snapshot, SnapshotView};
use crate::time::{elapsed_exceeds, Timestamp, NANOS_PER_SEC};
use vstd::prelude::*;

verus! {

/// What the service hands out: the current snapshot and the interval, in
/// seconds, after which it is captured anew.
#[derive(Clone, Debug, PartialEq, Eq)]
pub struct SnapshotContainer {
    pub update_interval: u64,
    pub snapshot: Snapshot,
}

/// The mathematical value of a [`SnapshotContainer`].
pub struct SnapshotContainerView {
    pub update_interval: nat,
    pub snapshot: SnapshotView,
}

impl View for SnapshotContainer {
    type V = SnapshotContainerView;

    open spec fn view(&self) -> SnapshotContainerView {
        SnapshotContainerView {
            update_interval: self.update_interval as nat,
            snapshot: self.snapshot@,
        }
    }
}

/// What an access to the cache asks of its caller.
#[derive(Clone, Copy, Debug, PartialEq, Eq, Structural)]
pub enum Access {
    /// The stored snapshot is fresh: serve it.
    Serve,
    /// The stored snapshot is stale: attempt a capture, report its outcome
    /// with [`Cache::store`], then serve what is stored.
    Refresh,
}

/// The most recent snapshot together with the time of the last attempt to
/// capture one, if there has been any.
#[derive(Debug)]
pub struct Cache {
    last_update: Option<Timestamp>,
    data: SnapshotContainer,
}

/// The mathematical value of a [`Cache`].
pub struct CacheView {
    /// When a capture was last attempted; `None` before the first attempt.
    pub last_update: Option<int>,
    pub data: SnapshotContainerView,
}

impl View for Cache {
    type V = CacheView;

    closed spec fn view(&self) -> CacheView {
        CacheView {
            last_update: match self.last_update {
                Some(last) => Some(last@),
                None => None,
            },
            data: self.data@,
        }
    }
}

/// Whether the stored snapshot is stale at `now`: no capture has been
/// attempted yet, or more time than the update interval has passed since the
/// last attempt.
pub open spec fn is_stale(state: CacheView, now: int) -> bool {
    match state.last_update {
        Some(last) => elapsed_exceeds(last, now, state.data.update_interval),
        None => true,
    }
}

/// The cache after an access at `now`: a stale cache records `now` as the
/// time of the attempt that the caller is about to make.
pub open spec fn accessed(state: CacheView, now: int) -> CacheView {
    if is_stale(state, now) {
        CacheView { last_update: Some(now), ..state }
    } else {
        state
    }
}

/// What an access at `now` asks for.
pub open spec fn asked(state: CacheView, now: int) -> Access {
    if is_stale(state, now) {
        Access::Refresh
    } else {
        Access::Serve
    }
}

/// The cache after an attempt to capture: a snapshot replaces the stored one,
/// a failed attempt leaves it in place.
pub open spec fn stored(state: CacheView, outcome: Option<SnapshotView>) -> CacheView {
    match outcome {
        Some(snapshot) => CacheView {
            data: SnapshotContainerView { snapshot, ..state.data },
            ..state
        },
        None => state,
    }
}

/// The cache before its first access.
pub open spec fn untouched(update_interval: nat, placeholder: SnapshotView) -> CacheView {
    CacheView {
        last_update: None,
        data: SnapshotContainerView { update_interval, snapshot: placeholder },
    }
}

/// The first access to a cache asks for a capture, at whatever time it
/// comes and whatever the update interval is, and dates the attempt.
pub proof fn lemma_first_access_refreshes(interval: nat, placeholder: SnapshotView, now: int)
    ensures
        asked(untouched(interval, placeholder), now) == Access::Refresh,
        accessed(untouched(interval, placeholder), now).last_update == Some(now),
{
}

/// A stale access dates the attempt at its own time, and the outcome of the
/// attempt does not change that date: a failed capture is not tried again
/// before the update interval has passed.
pub proof fn lemma_attempt_is_dated(
    state: CacheView,
    now: int,
    outcome: Option<SnapshotView>,
    later: int,
)
    requires
        is_stale(state, now),
        now <= later <= now + state.data.update_interval * NANOS_PER_SEC,
    ensures
        stored(accessed(state, now), outcome).last_update == Some(now),
        asked(stored(accessed(state, now), outcome), later) == Access::Serve,
{
}

/// The update interval spaces the captures. After an access at `first` that
/// found the cache stale, and whatever the attempt to capture gave, every
/// access up to a whole interval later serves the stored snapshot and leaves
/// the cache as it is, and every access later than that asks for a capture
/// again.
pub proof fn lemma_interval_spaces_captures(
    state: CacheView,
    first: int,
    outcome: Option<SnapshotView>,
    next: int,
)
    requires
        is_stale(state, first),
        first <= next,
    ensures
        asked(state, first) == Access::Refresh,
        next <= first + state.data.update_interval * NANOS_PER_SEC ==> {
            &&& asked(stored(accessed(state, first), outcome), next) == Access::Serve
            &&& accessed(stored(accessed(state, first), outcome), next) == stored(
                accessed(state, first),
                outcome,
            )
        },
        next > first + state.data.update_interval * NANOS_PER_SEC ==> asked(
            stored(accessed(state, first), outcome),
            next,
        ) == Access::Refresh,
{
}

/// With an update interval of at least a second, an access half an interval
/// after a stale one serves, and an access two intervals after it asks for a
/// capture again.
pub proof fn lemma_half_and_twice_the_interval(
    state: CacheView,
    first: int,
    outcome: Option<SnapshotView>,
)
    requires
        is_stale(state, first),
        state.data.update_interval > 0,
    ensures
        asked(
            stored(accessed(state, first), outcome),
            first + state.data.update_interval * NANOS_PER_SEC / 2,
        ) == Access::Serve,
        asked(
            stored(accessed(state, first), outcome),
            first + 2 * state.data.update_interval * NANOS_PER_SEC,
        ) == Access::Refresh,
{
    let span = state.data.update_interval * NANOS_PER_SEC;
    assert(span > 0) by (nonlinear_arith)
        requires
            span == state.data.update_interval * 1_000_000_000,
            state.data.update_interval > 0,
    ;
    assert(2 * state.data.update_interval * NANOS_PER_SEC == 2 * span) by (nonlinear_arith)
        requires
            span == state.data.update_interval * NANOS_PER_SEC,
    ;
}

/// A failed attempt to capture changes nothing, and no access changes what
/// is served: the snapshot stored before is served after.
pub proof fn lemma_failure_keeps_snapshot(state: CacheView, now: int)
    ensures
        stored(state, None) == state,
        accessed(state, now).data == state.data,
        stored(accessed(state, now), None).data == state.data,
{
}

impl Cache {
    /// A cache that serves `placeholder` until a first capture has
    /// succeeded. No capture has been attempted yet.
    pub fn new(update_interval: u64, placeholder: Snapshot) -> (cache: Cache)
        ensures
            cache@ == untouched(update_interval as nat, placeholder@),
    {
        Cache { last_update: None, data: SnapshotContainer { update_interval, snapshot: placeholder } }
    }

    /// Decides at the time `now` whether the stored snapshot is served as it
    /// is or captured anew first. Where it asks for a capture it dates the
    /// attempt at `now`, whatever the outcome of the attempt will be.
    pub fn access(&mut self, now: Timestamp) -> (access: Access)
        ensures
            final(self)@ == accessed(old(self)@, now@),
            access == asked(old(self)@, now@),
    {
        let stale = match self.last_update {
            Some(last) => last.older_than(&now, self.data.update_interval),
            None => true,
        };
        if stale {
            self.last_update = Some(now);
            Access::Refresh
        } else {
            Access::Serve
        }
    }

    /// Takes the outcome of an attempt to capture: `Some` snapshot replaces
    /// the stored one, `None` leaves it in place.
    pub fn store(&mut self, outcome: Option<Snapshot>)
        ensures
            final(self)@ == stored(
                old(self)@,
                match outcome {
                    Some(snapshot) => Some(snapshot@),
                    None => None,
                },
            ),
    {
        match outcome {
            Some(snapshot) => {
                self.data.snapshot = snapshot;
            },
            None => {},
        }
    }

    /// When a capture was last attempted, if one has been.
    pub fn last_update(&self) -> (last: Option<Timestamp>)
        ensures
            self@.last_update == match last {
                Some(time) => Some(time@),
                None => None::<int>,
            },
    {
        self.last_update
    }

    /// What is served now.
    pub fn data(&self) -> (data: &SnapshotContainer)
        ensures
            data@ == self@.data,
    {
        &self.data
    }
}

} // verus!
