//! The health of the daemon: what the scanner, the writer and the watcher last
//! reported. Times are kept in milliseconds since the first moment of 1970,
//! with zero for "never".

use vstd::prelude::*;

use crate::dates;
use crate::dates::Instant;

verus! {

/// Whether the watcher is bound to the file system.
#[derive(Debug, Clone, Copy, PartialEq, Eq, Structural)]
pub enum WatcherState {
    Running,
    Degraded,
}

/// The name of a watcher state.
pub open spec fn state_name(s: WatcherState) -> Seq<char> {
    match s {
        WatcherState::Running => "running"@,
        WatcherState::Degraded => "degraded"@,
    }
}

impl WatcherState {
    /// The name of the state.
    pub fn as_str(self) -> (r: &'static str)
        ensures
            r@ == state_name(self),
    {
        match self {
            WatcherState::Running => "running",
            WatcherState::Degraded => "degraded",
        }
    }
}

/// What the processes last reported.
#[derive(Debug)]
pub struct HealthState {
    in_flight_rescan: bool,
    last_index_update_ms: i64,
    last_event_ms: i64,
    watcher_state: WatcherState,
}

/// What a [`HealthState`] holds.
#[verifier::ext_equal]
pub struct HealthData {
    pub in_flight_rescan: bool,
    pub last_index_update_ms: int,
    pub last_event_ms: int,
    pub watcher_state: WatcherState,
}

impl View for HealthState {
    type V = HealthData;

    closed spec fn view(&self) -> HealthData {
        HealthData {
            in_flight_rescan: self.in_flight_rescan,
            last_index_update_ms: self.last_index_update_ms as int,
            last_event_ms: self.last_event_ms as int,
            watcher_state: self.watcher_state,
        }
    }
}

/// The health of a daemon that nothing has happened in.
pub open spec fn fresh() -> HealthData {
    HealthData {
        in_flight_rescan: false,
        last_index_update_ms: 0,
        last_event_ms: 0,
        watcher_state: WatcherState::Running,
    }
}

/// The instant that a stored number of milliseconds stands for: none for zero,
/// and none for one that is out of range.
pub open spec fn stored_instant(ms: int) -> Option<(i64, u32)> {
    if ms == 0 || ms < -8334601228800000 || ms > 8210266876799999 {
        None
    } else {
        Some(((ms / 1000) as i64, ((ms % 1000) * 1_000_000) as u32))
    }
}

/// Whether an optional instant is what `d` says.
pub open spec fn instant_is(r: Option<Instant>, d: Option<(i64, u32)>) -> bool {
    match (r, d) {
        (Some(t), Some(x)) => t@ == x,
        (None, None) => true,
        _ => false,
    }
}

fn read_stored(ms: i64) -> (r: Option<Instant>)
    ensures
        instant_is(r, stored_instant(ms as int)),
{
    if ms == 0 {
        None
    } else {
        Instant::from_timestamp_millis(ms)
    }
}

impl Default for HealthState {
    fn default() -> (r: Self)
        ensures
            r@ == fresh(),
    {
        HealthState {
            in_flight_rescan: false,
            last_index_update_ms: 0,
            last_event_ms: 0,
            watcher_state: WatcherState::Running,
        }
    }
}

impl HealthState {
    /// The health of a daemon that nothing has happened in.
    pub fn new() -> (r: Self)
        ensures
            r@ == fresh(),
    {
        HealthState {
            in_flight_rescan: false,
            last_index_update_ms: 0,
            last_event_ms: 0,
            watcher_state: WatcherState::Running,
        }
    }

    /// Says whether a walk through the vault is under way.
    pub fn set_in_flight_rescan(&mut self, on: bool)
        ensures
            final(self)@ == (HealthData { in_flight_rescan: on, ..old(self)@ }),
    {
        self.in_flight_rescan = on;
    }

    /// Notes when the note set was last changed.
    pub fn record_index_update(&mut self, at: Instant)
        ensures
            final(self)@ == (HealthData { last_index_update_ms: dates::millis(at@), ..old(self)@ }),
    {
        self.last_index_update_ms = at.timestamp_millis();
    }

    /// Notes when the last file system event came.
    pub fn record_event(&mut self, at: Instant)
        ensures
            final(self)@ == (HealthData { last_event_ms: dates::millis(at@), ..old(self)@ }),
    {
        self.last_event_ms = at.timestamp_millis();
    }

    /// Says whether the watcher is bound.
    pub fn set_watcher_state(&mut self, s: WatcherState)
        ensures
            final(self)@ == (HealthData { watcher_state: s, ..old(self)@ }),
    {
        self.watcher_state = s;
    }

    /// Whether a walk through the vault is under way.
    pub fn in_flight_rescan(&self) -> (r: bool)
        ensures
            r == self@.in_flight_rescan,
    {
        self.in_flight_rescan
    }

    /// When the note set was last changed, to the millisecond.
    pub fn last_index_update(&self) -> (r: Option<Instant>)
        ensures
            instant_is(r, stored_instant(self@.last_index_update_ms)),
    {
        read_stored(self.last_index_update_ms)
    }

    /// When the last file system event came, to the millisecond.
    pub fn last_event(&self) -> (r: Option<Instant>)
        ensures
            instant_is(r, stored_instant(self@.last_event_ms)),
    {
        read_stored(self.last_event_ms)
    }

    /// Whether the watcher is bound.
    pub fn watcher_state(&self) -> (r: WatcherState)
        ensures
            r == self@.watcher_state,
    {
        self.watcher_state
    }
}

/// A time that was noted reads back to the millisecond. The first millisecond
/// of 1970 is what "never" looks like, and a leap second reads as the second
/// after it; both are left out.
pub proof fn noted_time_reads_back(at: (i64, u32))
    requires
        dates::valid_instant(at.0, at.1),
        at.1 < 1_000_000_000,
        dates::millis(at) != 0,
    ensures
        stored_instant(dates::millis(at)) == Some((at.0, (at.1 / 1_000_000 * 1_000_000) as u32)),
{
}

}
