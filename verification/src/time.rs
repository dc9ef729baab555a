//! Points in time, in whole seconds and nanoseconds since the Unix epoch.

use vstd::prelude::*;

verus! {

/// The earliest and the latest second of the calendar.
pub const FIRST_SECOND: i64 = -8_334_601_228_800;

pub const LAST_SECOND: i64 = 8_210_266_876_799;

/// Whether the calendar has the second `secs`.
pub open spec fn in_calendar(secs: int) -> bool {
    FIRST_SECOND <= secs <= LAST_SECOND
}

/// Nanoseconds in a second and seconds in a day.
pub open spec fn second() -> int {
    1_000_000_000
}

pub open spec fn day() -> int {
    86_400
}

/// Nanoseconds in a second with the leap second that may follow it.
pub open spec fn room() -> int {
    2_000_000_000
}

/// The instant `nanos` nanoseconds after the start of the second `secs`. In a leap second, which
/// follows that second, the nanoseconds go on from one second to two. There is room for both in the
/// number, so that later instants are greater numbers.
pub open spec fn instant(secs: int, nanos: int) -> int {
    secs * room() + nanos
}

/// A point in time.
#[derive(Clone, Copy, Debug, PartialEq, Eq, PartialOrd, Ord)]
pub struct Time {
    secs: i64,
    nanos: u32,
}

impl View for Time {
    type V = int;

    closed spec fn view(&self) -> int {
        instant(self.secs as int, self.nanos as int)
    }
}

/// The second that the instant `t` falls in. A leap second belongs to the second before it.
pub open spec fn second_of(t: int) -> int {
    t / room()
}

/// The nanoseconds of the instant `t` since the start of its second.
pub open spec fn nanos_of(t: int) -> int {
    t % room()
}

/// Whether the instant `t` falls in a leap second.
pub open spec fn leaping(t: int) -> bool {
    nanos_of(t) >= second()
}

/// The instant `t` without its fraction of a second. That of a leap second is its start.
pub open spec fn whole(t: int) -> int {
    instant(
        second_of(t),
        if leaping(t) {
            second()
        } else {
            0
        },
    )
}

/// The instant `days` days after `t`. No other day has the leap second: one that is left for a later
/// day becomes the second before it, for an earlier day the second after it.
pub open spec fn days_after(t: int, days: int) -> int {
    if days == 0 || !leaping(t) {
        instant(second_of(t) + days * day(), nanos_of(t))
    } else if days > 0 {
        instant(second_of(t) + days * day(), nanos_of(t) - second())
    } else {
        instant(second_of(t) + 1 + days * day(), nanos_of(t) - second())
    }
}

/// The second of the day that the second `secs` is.
pub open spec fn second_of_day(secs: int) -> int {
    secs % day()
}

/// The nanoseconds that pass from `earlier` to `later`. A leap second that one of the two falls in
/// counts where the other has passed it in its day.
pub open spec fn elapsed(earlier: int, later: int) -> int {
    let a = second_of_day(second_of(earlier));
    let b = second_of_day(second_of(later));
    let leap = if b > a && leaping(earlier) {
        1int
    } else if b < a && leaping(later) {
        -1int
    } else {
        0int
    };
    (second_of(later) - second_of(earlier) + leap) * second() + nanos_of(later) - nanos_of(earlier)
}

/// An instant has the second and the nanoseconds that it is made of.
pub proof fn instant_parts(secs: int, nanos: int)
    requires
        0 <= nanos < room(),
    ensures
        second_of(instant(secs, nanos)) == secs,
        nanos_of(instant(secs, nanos)) == nanos,
{
    assert((secs * 2_000_000_000 + nanos) / 2_000_000_000 == secs && (secs * 2_000_000_000 + nanos)
        % 2_000_000_000 == nanos) by (nonlinear_arith)
        requires
            0 <= nanos < 2_000_000_000,
    ;
}

impl Time {
    #[verifier::type_invariant]
    spec fn in_range(self) -> bool {
        in_calendar(self.secs as int) && self.nanos < room()
    }

    /// The time `nanos` nanoseconds into the second `secs`, if the calendar has it. From one second of
    /// nanoseconds on it falls in a leap second.
    pub fn new(secs: i64, nanos: u32) -> (r: Option<Time>)
        ensures
            r is Some <==> in_calendar(secs as int) && nanos < room(),
            r matches Some(t) ==> t@ == instant(secs as int, nanos as int),
    {
        if FIRST_SECOND <= secs && secs <= LAST_SECOND && nanos < 2_000_000_000 {
            Some(Time { secs, nanos })
        } else {
            None
        }
    }

    /// The second that the time falls in.
    pub fn seconds(&self) -> (r: i64)
        ensures
            r == second_of(self@),
            in_calendar(r as int),
    {
        proof {
            use_type_invariant(self);
            instant_parts(self.secs as int, self.nanos as int);
        }
        self.secs
    }

    /// The nanoseconds that have passed since the start of that second.
    pub fn subsec_nanos(&self) -> (r: u32)
        ensures
            r == nanos_of(self@),
    {
        proof {
            use_type_invariant(self);
            instant_parts(self.secs as int, self.nanos as int);
        }
        self.nanos
    }

    /// The time without its fraction of a second.
    pub fn truncated(&self) -> (r: Time)
        ensures
            r@ == whole(self@),
            in_calendar(second_of(self@)),
    {
        proof {
            use_type_invariant(self);
            instant_parts(self.secs as int, self.nanos as int);
        }
        if self.nanos < 1_000_000_000 {
            Time { secs: self.secs, nanos: 0 }
        } else {
            Time { secs: self.secs, nanos: 1_000_000_000 }
        }
    }

    /// The time `days` days later.
    pub fn plus_days(&self, days: i64) -> (r: Time)
        requires
            in_calendar(second_of(self@) + days * day()),
        ensures
            r@ == days_after(self@, days as int),
    {
        proof {
            use_type_invariant(self);
            instant_parts(self.secs as int, self.nanos as int);
        }
        let secs: i64 = (self.secs as i128 + days as i128 * 86_400) as i64;
        if days == 0 || self.nanos < 1_000_000_000 {
            Time { secs, nanos: self.nanos }
        } else if days > 0 {
            Time { secs, nanos: self.nanos - 1_000_000_000 }
        } else {
            Time { secs: secs + 1, nanos: self.nanos - 1_000_000_000 }
        }
    }

    /// Whether this time is earlier than `other`.
    pub fn earlier_than(&self, other: &Time) -> (r: bool)
        ensures
            r == (self@ < other@),
    {
        proof {
            use_type_invariant(self);
            use_type_invariant(other);
        }
        self.secs < other.secs || (self.secs == other.secs && self.nanos < other.nanos)
    }

    /// Whether less than `days` days pass from this time until `later`.
    pub fn within_days_of(&self, later: &Time, days: i64) -> (r: bool)
        ensures
            r == (elapsed(self@, later@) < days * day() * second()),
    {
        proof {
            use_type_invariant(self);
            use_type_invariant(later);
            instant_parts(self.secs as int, self.nanos as int);
            instant_parts(later.secs as int, later.nanos as int);
        }
        let a: u64 = day_second(self.secs);
        let b: u64 = day_second(later.secs);
        let leap: i128 = if b > a && self.nanos >= 1_000_000_000 {
            1
        } else if b < a && later.nanos >= 1_000_000_000 {
            -1
        } else {
            0
        };
        let gap: i128 = (later.secs as i128 - self.secs as i128 + leap) * 1_000_000_000
            + later.nanos as i128 - self.nanos as i128;
        gap < days as i128 * 86_400 * 1_000_000_000
    }
}

/// The second of the day that the second `secs` is.
fn day_second(secs: i64) -> (r: u64)
    requires
        in_calendar(secs as int),
    ensures
        r == second_of_day(secs as int),
{
    // A hundred million days later it is the same second of the day.
    let later: u64 = (secs + 8_640_000_000_000) as u64;
    later % 86_400
}

/// What the calendar writes for the start of the second `secs`, in the pattern `pattern` of
/// `strftime`.
pub uninterp spec fn calendar_text(secs: int, pattern: Seq<char>) -> Seq<char>;

/// Calls `chrono::DateTime::from_timestamp` and `format`: the contract only names the text, which
/// depends on the second and the pattern alone. The second must be one of the calendar, and the
/// pattern one that `format` accepts.
#[verifier::external_body]
fn format_utc(secs: i64, pattern: &str) -> (r: String)
    requires
        in_calendar(secs as int),
        pattern@ == "%Y-%m-%d"@ || pattern@ == "%Y-%m-%d %H:%M UTC"@,
    ensures
        r@ == calendar_text(secs as int, pattern@),
{
    chrono::DateTime::from_timestamp(secs, 0).unwrap().format(pattern).to_string()
}

/// The date of the instant `t`.
pub open spec fn date_text(t: int) -> Seq<char> {
    calendar_text(second_of(t), "%Y-%m-%d"@)
}

/// The date and time of the instant `t`, to the minute.
pub open spec fn minute_text(t: int) -> Seq<char> {
    calendar_text(second_of(t), "%Y-%m-%d %H:%M UTC"@)
}

impl Time {
    /// The date, as in `2026-12-23`.
    pub fn date(&self) -> (r: String)
        ensures
            r@ == date_text(self@),
    {
        format_utc(self.seconds(), "%Y-%m-%d")
    }

    /// The date and time, as in `2026-12-23 03:33 UTC`.
    pub fn minute(&self) -> (r: String)
        ensures
            r@ == minute_text(self@),
    {
        format_utc(self.seconds(), "%Y-%m-%d %H:%M UTC")
    }
}

} // verus!
