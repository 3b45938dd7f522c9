//! Instants on the UTC time line, and the correction of wall-clock readings
//! that a remote endpoint reports in its own civil time zone.

use chrono::TimeZone;
use vstd::prelude::*;

verus! {

/// Nanoseconds in one second.
pub const NANOS_PER_SEC: i64 = 1_000_000_000;

/// Nanoseconds in one millisecond.
pub const NANOS_PER_MILLI: i64 = 1_000_000;

/// Seconds from the epoch to the first instant of year 0 (a negative count).
pub const MIN_SECS: i64 = -62_167_219_200;

/// Seconds from the epoch to the instant that closes year 9999.
pub const MAX_SECS: i64 = 253_402_300_800;

/// Whether a count of nanoseconds since the epoch lies between the start of
/// year 0 and the end of year 9999.
pub open spec fn representable(instant: int) -> bool {
    MIN_SECS * NANOS_PER_SEC <= instant <= MAX_SECS * NANOS_PER_SEC
}

/// The instant `nanos` nanoseconds after the whole second `secs`.
pub open spec fn instant_of(secs: int, nanos: int) -> int {
    secs * NANOS_PER_SEC + nanos
}

/// The nearest whole second to `instant`; an instant half-way between two
/// seconds goes to the later one.
pub open spec fn rounded_to_second(instant: int) -> int {
    let past = instant % (NANOS_PER_SEC as int);
    if past >= NANOS_PER_SEC / 2 {
        instant - past + NANOS_PER_SEC
    } else {
        instant - past
    }
}

/// Every representable instant is named by its whole seconds and the
/// nanoseconds past them, and by no other pair with less than a second of
/// nanoseconds: a timestamp is made again from what `secs` and `nanos` give.
pub proof fn lemma_instant_parts(instant: int)
    requires
        representable(instant),
    ensures
        0 <= instant % (NANOS_PER_SEC as int) < NANOS_PER_SEC,
        instant_of(instant / (NANOS_PER_SEC as int), instant % (NANOS_PER_SEC as int)) == instant,
        forall|secs: int, nanos: int|
            0 <= nanos < NANOS_PER_SEC && #[trigger] instant_of(secs, nanos) == instant ==> secs
                == instant / (NANOS_PER_SEC as int) && nanos == instant % (NANOS_PER_SEC as int),
{
}

/// Rounding gives a whole second that lies no more than half a second from
/// the instant rounded, and leaves a whole second as it is.
pub proof fn lemma_rounded_to_second(instant: int)
    ensures
        rounded_to_second(instant) % (NANOS_PER_SEC as int) == 0,
        -(NANOS_PER_SEC / 2) <= instant - rounded_to_second(instant) < NANOS_PER_SEC / 2,
        instant % (NANOS_PER_SEC as int) == 0 ==> rounded_to_second(instant) == instant,
{
}

/// The whole milliseconds that have passed from `start` to `end`: none
/// where `end` lies before `start`.
pub open spec fn elapsed_millis(start: int, end: int) -> int {
    if end >= start {
        (end - start) / (NANOS_PER_MILLI as int)
    } else {
        0
    }
}

/// Whether more than `limit` seconds have passed from `start` to `end`.
pub open spec fn elapsed_exceeds(start: int, end: int, limit: nat) -> bool {
    end - start > limit * NANOS_PER_SEC
}

/// An instant between the start of year 0 and the end of year 9999, with
/// nanosecond resolution. Its view is the count of nanoseconds since
/// 1970-01-01T00:00:00Z.
#[derive(Clone, Copy, Debug, PartialEq, Eq, Structural)]
pub struct Timestamp {
    secs: i64,
    nanos: u32,
}

impl View for Timestamp {
    type V = int;

    closed spec fn view(&self) -> int {
        instant_of(self.secs as int, self.nanos as int)
    }
}

impl Timestamp {
    #[verifier::type_invariant]
    spec fn in_range(self) -> bool {
        &&& self.nanos < NANOS_PER_SEC
        &&& representable(instant_of(self.secs as int, self.nanos as int))
    }

    /// The timestamp `nanos` nanoseconds after the whole second `secs`, where
    /// `nanos` is less than a second and the instant is representable.
    pub fn new(secs: i64, nanos: u32) -> (made: Option<Timestamp>)
        ensures
            made is Some <==> nanos < NANOS_PER_SEC && representable(instant_of(secs as int, nanos as int)),
            made matches Some(t) ==> t@ == instant_of(secs as int, nanos as int),
    {
        if nanos < 1_000_000_000 && MIN_SECS <= secs && (secs < MAX_SECS || (secs == MAX_SECS
            && nanos == 0)) {
            Some(Timestamp { secs, nanos })
        } else {
            None
        }
    }

    /// The whole seconds since the epoch, rounded towards the past.
    pub fn secs(&self) -> (secs: i64)
        ensures
            secs == self@ / (NANOS_PER_SEC as int),
    {
        proof {
            use_type_invariant(self);
        }
        self.secs
    }

    /// The nanoseconds past the last whole second.
    pub fn nanos(&self) -> (nanos: u32)
        ensures
            nanos == self@ % (NANOS_PER_SEC as int),
    {
        proof {
            use_type_invariant(self);
        }
        self.nanos
    }

    /// This instant at second precision: the nearest whole second.
    pub fn round_to_second(&self) -> (rounded: Timestamp)
        ensures
            rounded@ == rounded_to_second(self@),
            rounded@ % (NANOS_PER_SEC as int) == 0,
    {
        proof {
            use_type_invariant(self);
        }
        if self.nanos >= 500_000_000 {
            Timestamp { secs: self.secs + 1, nanos: 0 }
        } else {
            Timestamp { secs: self.secs, nanos: 0 }
        }
    }

    /// The whole milliseconds that have passed from this instant to `end`:
    /// none where `end` lies before it.
    pub fn millis_until(&self, end: &Timestamp) -> (millis: i64)
        ensures
            millis == elapsed_millis(self@, end@),
            millis >= 0,
    {
        proof {
            use_type_invariant(self);
            use_type_invariant(end);
        }
        let from: i128 = (self.secs as i128) * 1_000_000_000 + (self.nanos as i128);
        let to: i128 = (end.secs as i128) * 1_000_000_000 + (end.nanos as i128);
        if to >= from {
            ((to - from) / 1_000_000) as i64
        } else {
            0
        }
    }

    /// Whether more than `limit` seconds have passed from this instant to
    /// `now`. An instant that lies after `now` is never that old.
    pub fn older_than(&self, now: &Timestamp, limit: u64) -> (old: bool)
        ensures
            old == elapsed_exceeds(self@, now@, limit as nat),
    {
        proof {
            use_type_invariant(self);
            use_type_invariant(now);
        }
        let from: i128 = (self.secs as i128) * 1_000_000_000 + (self.nanos as i128);
        let to: i128 = (now.secs as i128) * 1_000_000_000 + (now.nanos as i128);
        to - from > (limit as i128) * 1_000_000_000
    }

    /// Whether this instant lies before `other`.
    pub fn is_before(&self, other: &Timestamp) -> (before: bool)
        ensures
            before == (self@ < other@),
    {
        proof {
            use_type_invariant(self);
            use_type_invariant(other);
        }
        self.secs < other.secs || (self.secs == other.secs && self.nanos < other.nanos)
    }

    /// The first representable instant.
    pub fn earliest() -> (first: Timestamp)
        ensures
            first@ == MIN_SECS * NANOS_PER_SEC,
    {
        Timestamp { secs: MIN_SECS, nanos: 0 }
    }
}

/// How a wall-clock reading of a civil time zone lies on the UTC time line.
/// Each instant is given as whole seconds since the epoch and the nanoseconds
/// past them.
#[derive(Clone, Copy, Debug, PartialEq, Eq, Structural)]
pub enum LocalMapping {
    /// The reading names exactly one instant.
    Unique { secs: i64, nanos: u32 },
    /// The clock was set back over the reading, which therefore came twice.
    Fold { earlier_secs: i64, earlier_nanos: u32, later_secs: i64, later_nanos: u32 },
    /// The clock was set forward over the reading, or nothing is known of it.
    Gap,
}

/// What the time zone database says of the wall-clock reading that shows
/// `nanos` nanoseconds past second `secs` of the zone's own clock, counted as
/// if that clock ran on UTC. `zone` is the zone's name in the database.
pub uninterp spec fn local_mapping(zone: Seq<char>, secs: int, nanos: int) -> LocalMapping;

/// Looks a wall-clock reading up in the time zone database.
///
/// Trusted: the body parses `zone` with chrono-tz's `Tz::from_str`, builds the
/// reading with chrono's `DateTime::from_timestamp` and `naive_utc`, and asks
/// `TimeZone::from_local_datetime` for its place on the time line. The
/// contract only names that answer; an unknown zone or a reading outside
/// chrono's range is reported as a gap, like chrono's own `None`.
#[verifier::external_body]
fn map_local_time(zone: &str, secs: i64, nanos: u32) -> (mapping: LocalMapping)
    ensures
        mapping == local_mapping(zone@, secs as int, nanos as int),
{
    let reading = chrono::DateTime::from_timestamp(secs, nanos).map(|t| t.naive_utc());
    let (Ok(zone), Some(reading)) = (zone.parse::<chrono_tz::Tz>(), reading) else {
        return LocalMapping::Gap;
    };
    let found = zone.from_local_datetime(&reading);
    match found.map(|t| (t.timestamp(), t.timestamp_subsec_nanos())) {
        chrono::LocalResult::Single((secs, nanos)) => LocalMapping::Unique { secs, nanos },
        chrono::LocalResult::Ambiguous((earlier_secs, earlier_nanos), (later_secs, later_nanos)) => {
            LocalMapping::Fold { earlier_secs, earlier_nanos, later_secs, later_nanos }
        },
        chrono::LocalResult::None => LocalMapping::Gap,
    }
}

/// The name of the civil time zone in which the remote endpoint reports
/// modification times.
pub fn source_zone() -> (zone: &'static str)
    ensures
        zone@ == "Europe/Vienna"@,
{
    "Europe/Vienna"
}

/// The instant that seconds and nanoseconds name, or `fallback` where they
/// name none that a timestamp can hold.
pub open spec fn instant_or(secs: int, nanos: int, fallback: int) -> int {
    if 0 <= nanos < NANOS_PER_SEC && representable(instant_of(secs, nanos)) {
        instant_of(secs, nanos)
    } else {
        fallback
    }
}

/// The instant chosen for a wall-clock reading: the one it names; the earlier
/// of the two where it came twice; `now` where it never came.
pub open spec fn settled(mapping: LocalMapping, now: int) -> int {
    match mapping {
        LocalMapping::Unique { secs, nanos } => instant_or(secs as int, nanos as int, now),
        LocalMapping::Fold { earlier_secs, earlier_nanos, .. } => instant_or(
            earlier_secs as int,
            earlier_nanos as int,
            now,
        ),
        LocalMapping::Gap => now,
    }
}

/// Chooses the instant for a wall-clock reading from what the time zone
/// database says of it, with `now` standing in where the reading names no
/// instant.
pub fn settle(mapping: LocalMapping, now: Timestamp) -> (chosen: Timestamp)
    ensures
        chosen@ == settled(mapping, now@),
{
    let named = match mapping {
        LocalMapping::Unique { secs, nanos } => Timestamp::new(secs, nanos),
        LocalMapping::Fold { earlier_secs, earlier_nanos, .. } => Timestamp::new(
            earlier_secs,
            earlier_nanos,
        ),
        LocalMapping::Gap => None,
    };
    match named {
        Some(instant) => instant,
        None => now,
    }
}

/// The modification time of a file in UTC, from the reading that the remote
/// endpoint reported on its own wall clock. Where it reported none, the
/// current UTC time is read as if it were such a reading.
pub open spec fn corrected_time(reported: Option<int>, now: int) -> int {
    let reading = match reported {
        Some(reading) => reading,
        None => now,
    };
    settled(
        local_mapping(
            "Europe/Vienna"@,
            reading / (NANOS_PER_SEC as int),
            reading % (NANOS_PER_SEC as int),
        ),
        now,
    )
}

/// Corrects a reported modification time to UTC. `reported` is the reading of
/// the remote wall clock, held as if that clock ran on UTC, or `None` where
/// the query for it failed; `now` is the current UTC time.
pub fn correct_modify_time(reported: Option<Timestamp>, now: Timestamp) -> (corrected: Timestamp)
    ensures
        corrected@ == corrected_time(
            match reported {
                Some(reading) => Some(reading@),
                None => None,
            },
            now@,
        ),
{
    let reading = match reported {
        Some(reading) => reading,
        None => now,
    };
    let mapping = map_local_time(source_zone(), reading.secs(), reading.nanos());
    settle(mapping, now)
}

} // verus!
