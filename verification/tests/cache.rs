use cran_incoming::cache::{Access, Cache};
use cran_incoming::snapshot::Snapshot;
use cran_incoming::time::Timestamp;

fn at(secs: i64, nanos: u32) -> Timestamp {
    Timestamp::new(secs, nanos).unwrap()
}

fn snapshot(duration: i64) -> Snapshot {
    Snapshot { capture_time: at(1_700_000_000, 0), capture_duration: duration, submissions: Vec::new() }
}

#[test]
fn new_cache_serves_the_placeholder() {
    let cache = Cache::new(600, Snapshot::new(at(1_700_000_000, 0)));
    assert_eq!(cache.data().update_interval, 600);
    assert_eq!(cache.data().snapshot, Snapshot::new(at(1_700_000_000, 0)));
}

#[test]
fn first_access_asks_for_a_capture() {
    let mut cache = Cache::new(600, snapshot(0));
    assert_eq!(cache.access(at(1_700_000_000, 0)), Access::Refresh);
}

#[test]
fn interval_spaces_the_captures() {
    let t0 = 1_700_000_000;
    let mut cache = Cache::new(600, snapshot(0));
    assert_eq!(cache.access(at(t0, 0)), Access::Refresh);
    cache.store(Some(snapshot(1)));
    assert_eq!(cache.access(at(t0 + 300, 0)), Access::Serve);
    assert_eq!(cache.data().snapshot, snapshot(1));
    assert_eq!(cache.access(at(t0 + 1200, 0)), Access::Refresh);
    cache.store(Some(snapshot(2)));
    assert_eq!(cache.data().snapshot, snapshot(2));
}

#[test]
fn interval_ends_the_instant_it_has_passed() {
    let t0 = 1_700_000_000;
    let mut cache = Cache::new(600, snapshot(0));
    assert_eq!(cache.access(at(t0, 500_000_000)), Access::Refresh);
    assert_eq!(cache.access(at(t0 + 600, 499_999_999)), Access::Serve);
    assert_eq!(cache.access(at(t0 + 600, 500_000_000)), Access::Serve);
    assert_eq!(cache.last_update(), Some(at(t0, 500_000_000)));
    assert_eq!(cache.access(at(t0 + 600, 500_000_001)), Access::Refresh);
    assert_eq!(cache.last_update(), Some(at(t0 + 600, 500_000_001)));
}

#[test]
fn half_a_second_past_the_interval_is_stale() {
    let t0 = 1_700_000_000;
    let mut cache = Cache::new(600, snapshot(0));
    assert_eq!(cache.access(at(t0, 0)), Access::Refresh);
    cache.store(None);
    assert_eq!(cache.access(at(t0 + 600, 500_000_000)), Access::Refresh);
    assert_eq!(cache.last_update(), Some(at(t0 + 600, 500_000_000)));
}

#[test]
fn failed_capture_keeps_the_placeholder() {
    let mut cache = Cache::new(600, snapshot(0));
    assert_eq!(cache.access(at(1_700_000_000, 0)), Access::Refresh);
    cache.store(None);
    assert_eq!(cache.data().snapshot, snapshot(0));
}

#[test]
fn failed_capture_keeps_the_last_good_snapshot() {
    let t0 = 1_700_000_000;
    let mut cache = Cache::new(600, snapshot(0));
    assert_eq!(cache.access(at(t0, 0)), Access::Refresh);
    cache.store(Some(snapshot(7)));
    assert_eq!(cache.access(at(t0 + 700, 0)), Access::Refresh);
    cache.store(None);
    assert_eq!(cache.data().snapshot, snapshot(7));
    assert_eq!(cache.data().update_interval, 600);
}

#[test]
fn failed_capture_is_not_tried_again_within_the_interval() {
    let t0 = 1_700_000_000;
    let mut cache = Cache::new(600, snapshot(0));
    assert_eq!(cache.access(at(t0, 0)), Access::Refresh);
    cache.store(None);
    assert_eq!(cache.last_update(), Some(at(t0, 0)));
    assert_eq!(cache.access(at(t0 + 1, 0)), Access::Serve);
    assert_eq!(cache.access(at(t0 + 600, 0)), Access::Serve);
    assert_eq!(cache.data().snapshot, snapshot(0));
    assert_eq!(cache.access(at(t0 + 600, 1)), Access::Refresh);
}

#[test]
fn access_before_the_last_attempt_serves() {
    let t0 = 1_700_000_000;
    let mut cache = Cache::new(600, snapshot(0));
    assert_eq!(cache.access(at(t0, 0)), Access::Refresh);
    assert_eq!(cache.access(at(t0 - 5000, 0)), Access::Serve);
    assert_eq!(cache.access(at(t0 + 600, 0)), Access::Serve);
}

#[test]
fn interval_of_zero_serves_at_the_same_instant_only() {
    let t0 = 1_700_000_000;
    let mut cache = Cache::new(0, snapshot(0));
    assert_eq!(cache.access(at(t0, 0)), Access::Refresh);
    assert_eq!(cache.access(at(t0, 0)), Access::Serve);
    assert_eq!(cache.access(at(t0, 1)), Access::Refresh);
}

#[test]
fn first_access_asks_for_a_capture_whatever_the_interval() {
    let mut cache = Cache::new(u64::MAX, snapshot(0));
    assert_eq!(cache.access(at(1_700_000_000, 0)), Access::Refresh);
    cache.store(Some(snapshot(1)));
    assert_eq!(cache.access(at(253_402_300_799, 0)), Access::Serve);
    assert_eq!(cache.data().snapshot, snapshot(1));
    let mut early = Cache::new(600, snapshot(0));
    assert_eq!(early.access(Timestamp::earliest()), Access::Refresh);
    assert_eq!(early.last_update(), Some(Timestamp::earliest()));
}

#[test]
fn last_attempt_is_dated_at_the_access_that_asked_for_it() {
    let t0 = 1_700_000_000;
    let mut cache = Cache::new(600, snapshot(0));
    assert_eq!(cache.last_update(), None);
    assert_eq!(cache.access(at(t0, 3)), Access::Refresh);
    assert_eq!(cache.last_update(), Some(at(t0, 3)));
    assert_eq!(cache.access(at(t0 + 10, 0)), Access::Serve);
    assert_eq!(cache.last_update(), Some(at(t0, 3)));
    cache.store(None);
    assert_eq!(cache.last_update(), Some(at(t0, 3)));
}
