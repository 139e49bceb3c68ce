use anwesen::dates::Instant;
use anwesen::health::{HealthState, WatcherState};

#[test]
fn fresh_state_reads_initial_values() {
    let s = HealthState::default();
    assert!(!s.in_flight_rescan());
    assert!(s.last_index_update().is_none());
    assert!(s.last_event().is_none());
    assert_eq!(s.watcher_state(), WatcherState::Running);
}

#[test]
fn rescan_flag_round_trips() {
    let mut s = HealthState::default();
    s.set_in_flight_rescan(true);
    assert!(s.in_flight_rescan());
    s.set_in_flight_rescan(false);
    assert!(!s.in_flight_rescan());
}

#[test]
fn timestamp_round_trips_at_millisecond_resolution() {
    let mut s = HealthState::default();
    let secs = chrono::DateTime::parse_from_rfc3339("2026-05-14T12:00:00Z")
        .unwrap()
        .timestamp();
    let now = Instant::from_timestamp(secs, 0).unwrap();
    s.record_index_update(now);
    assert_eq!(s.last_index_update(), Some(now));
    let fine = Instant::from_timestamp(secs, 123_456_789).unwrap();
    s.record_event(fine);
    assert_eq!(
        s.last_event(),
        Some(Instant::from_timestamp(secs, 123_000_000).unwrap())
    );
}

#[test]
fn times_before_1970_round_trip() {
    let mut s = HealthState::default();
    let at = Instant::from_timestamp(-1, 500_000_000).unwrap();
    s.record_event(at);
    assert_eq!(s.last_event(), Some(at));
}

#[test]
fn the_first_millisecond_of_1970_reads_as_never() {
    let mut s = HealthState::default();
    s.record_event(Instant::from_timestamp(0, 0).unwrap());
    assert!(s.last_event().is_none());
}

#[test]
fn watcher_state_round_trips() {
    let mut s = HealthState::default();
    s.set_watcher_state(WatcherState::Degraded);
    assert_eq!(s.watcher_state(), WatcherState::Degraded);
    s.set_watcher_state(WatcherState::Running);
    assert_eq!(s.watcher_state(), WatcherState::Running);
    assert_eq!(WatcherState::Running.as_str(), "running");
    assert_eq!(WatcherState::Degraded.as_str(), "degraded");
}
