//! Points in time: an instant in seconds since the Unix epoch, with the
//! offset of the local zone at that instant.
use vstd::prelude::*;
use vstd::arithmetic::div_mod::{lemma_hoist_over_denominator, lemma_mod_multiples_vanish};
use chrono::TimeZone;

verus! {

pub const SECS_PER_DAY: i64 = 86400;

/// Days from 0001-01-01 (day 1) to 1970-01-01, as `NaiveDate::num_days_from_ce` counts.
pub const EPOCH_DAY_FROM_CE: i64 = 719163;

/// A bound on epoch seconds within which chrono has a date for every
/// instant: about 253,000 years either side of 1970, inside chrono's years
/// -262143 to 262142.
pub const STAMP_RANGE_SECS: i64 = 8_000_000_000_000;

/// Whether chrono gives a date for the instant `secs`.
pub open spec fn in_stamp_range(secs: int) -> bool {
    -STAMP_RANGE_SECS <= secs <= STAMP_RANGE_SECS
}

/// A multiple of one week in seconds, larger than any `i64` plus any `i32`:
/// adding it makes a local time non-negative without moving its hour or weekday.
const WEEKS_SHIFT: u128 = 604800 * 0x2000_0000_0000;

/// An instant, whole seconds since 1970-01-01T00:00:00Z, and the offset of the
/// local zone from UTC at that instant, in seconds east.
#[derive(Clone, Copy, Debug, PartialEq, Eq, Structural)]
pub struct Stamp {
    pub secs: i64,
    pub offset: i32,
}

impl Stamp {
    /// Seconds since the epoch of the wall-clock time in the local zone.
    pub open spec fn local_secs(self) -> int {
        self.secs + self.offset
    }

    /// The local calendar day, counted from 1970-01-01 (day 0).
    pub open spec fn local_day(self) -> int {
        self.local_secs() / 86400
    }

    /// The local hour of the day, `0..24`.
    pub open spec fn hour_spec(self) -> int {
        (self.local_secs() % 86400) / 3600
    }

    /// The local day of the week, counted from Monday (0) to Sunday (6);
    /// 1970-01-01 was a Thursday.
    pub open spec fn weekday_spec(self) -> int {
        (self.local_day() + 3) % 7
    }

    /// The local calendar day as `NaiveDate::num_days_from_ce` counts it.
    pub open spec fn day_from_ce_spec(self) -> int {
        self.local_day() + EPOCH_DAY_FROM_CE
    }

    /// Whether two stamps name the same instant.
    pub open spec fn same_instant(self, other: Stamp) -> bool {
        self.secs == other.secs
    }

    proof fn lemma_shift(self)
        ensures
            (self.local_secs() + WEEKS_SHIFT) % 86400 == self.local_secs() % 86400,
            (self.local_secs() + WEEKS_SHIFT) / 86400 == self.local_day() + 7
                * 0x2000_0000_0000,
            (self.local_day() + 7 * 0x2000_0000_0000 + 3) % 7 == self.weekday_spec(),
    {
        let l = self.local_secs();
        lemma_mod_multiples_vanish((7 * 0x2000_0000_0000) as int, l, 86400);
        assert(86400 * (7 * 0x2000_0000_0000) == WEEKS_SHIFT);
        lemma_hoist_over_denominator(l, (7 * 0x2000_0000_0000) as int, 86400);
        assert((7 * 0x2000_0000_0000) * 86400 == WEEKS_SHIFT);
        lemma_mod_multiples_vanish(0x2000_0000_0000 as int, self.local_day() + 3, 7);
    }

    /// The local wall-clock time shifted by whole weeks to be non-negative.
    fn shifted_local(&self) -> (r: u128)
        ensures
            r == self.local_secs() + WEEKS_SHIFT,
    {
        (self.secs as i128 + self.offset as i128 + WEEKS_SHIFT as i128) as u128
    }

    /// The local hour of the day.
    pub fn hour(&self) -> (r: usize)
        ensures
            r == self.hour_spec(),
            r < 24,
    {
        proof {
            self.lemma_shift();
        }
        let u = self.shifted_local();
        ((u % 86400) / 3600) as usize
    }

    /// The local day of the week, Monday being 0.
    pub fn weekday(&self) -> (r: usize)
        ensures
            r == self.weekday_spec(),
            r < 7,
    {
        proof {
            self.lemma_shift();
        }
        let u = self.shifted_local();
        ((u / 86400 + 3) % 7) as usize
    }

    /// The local calendar day, as `NaiveDate::num_days_from_ce` counts it.
    pub fn day_from_ce(&self) -> (r: i64)
        ensures
            r == self.day_from_ce_spec(),
    {
        proof {
            self.lemma_shift();
        }
        let u = self.shifted_local();
        let shifted_days = (u / 86400) as i128;
        (shifted_days - 7 * 0x2000_0000_0000 + EPOCH_DAY_FROM_CE as i128) as i64
    }

    /// The instant `secs`, with the local zone's offset at that instant;
    /// `None` where chrono has no date for it.
    pub fn at(secs: i64) -> (r: Option<Stamp>)
        ensures
            r matches Some(t) ==> t.secs == secs && -86400 < t.offset < 86400,
            in_stamp_range(secs as int) ==> r is Some,
    {
        match local_offset_at(secs) {
            Some(offset) => Some(Stamp { secs, offset }),
            None => None,
        }
    }
}

/// Relies on chrono's `Local.timestamp_opt(secs, 0)` and
/// `FixedOffset::local_minus_utc`: the local zone's offset from UTC at the
/// instant `secs`, which `FixedOffset` keeps strictly within one day.
/// `timestamp_opt` gives a single local time for every instant that
/// `DateTime::from_timestamp` accepts, which includes every instant within
/// `STAMP_RANGE_SECS` of the epoch; `None` only outside chrono's range.
#[verifier::external_body]
fn local_offset_at(secs: i64) -> (r: Option<i32>)
    ensures
        r matches Some(o) ==> -86400 < o < 86400,
        in_stamp_range(secs as int) ==> r is Some,
{
    match chrono::Local.timestamp_opt(secs, 0).single() {
        Some(t) => Some(t.offset().local_minus_utc()),
        None => None,
    }
}

} // verus!
