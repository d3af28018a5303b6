//! Points in time, in UTC.
use vstd::prelude::*;

verus! {

/// The first second that a point in time can lie in, counted from the epoch.
pub const MIN_SECS: i64 = -8_334_601_228_800;

/// The last second that a point in time can lie in, counted from the epoch.
pub const MAX_SECS: i64 = 8_210_266_876_799;

/// The nanoseconds of a second.
pub const NANOS_PER_SEC: u32 = 1_000_000_000;

/// The nanoseconds of a millisecond.
pub const NANOS_PER_MILLI: u32 = 1_000_000;

/// A point in time: the second since the epoch that it lies in, and the
/// nanoseconds since the start of that second. A leap second is the second
/// half of the one before it.
pub type Instant = (int, int);

/// Whether a point in time can be held.
pub open spec fn is_instant(t: Instant) -> bool {
    &&& MIN_SECS <= t.0 <= MAX_SECS
    &&& 0 <= t.1 < 2 * NANOS_PER_SEC
}

/// Whether a point in time comes before another.
pub open spec fn earlier(a: Instant, b: Instant) -> bool {
    a.0 < b.0 || a.0 == b.0 && a.1 < b.1
}

/// Whether a point in time comes before another or is the same.
pub open spec fn not_later(a: Instant, b: Instant) -> bool {
    !earlier(b, a)
}

/// The point in time of a number of milliseconds since the epoch.
pub open spec fn instant_of_millis(millis: int) -> Instant {
    (millis / 1000, (millis % 1000) * NANOS_PER_MILLI)
}

/// The point in time of a number of nanoseconds since the epoch.
pub open spec fn instant_of_nanos(nanos: int) -> Instant {
    (nanos / 1_000_000_000, nanos % 1_000_000_000)
}

/// The whole milliseconds since the epoch at a point in time.
pub open spec fn millis_of(t: Instant) -> int {
    t.0 * 1000 + t.1 / 1_000_000
}

/// Whether a number of milliseconds since the epoch is a point in time that
/// can be held.
pub open spec fn is_held_in_millis(millis: int) -> bool {
    MIN_SECS <= millis / 1000 <= MAX_SECS
}

/// The start of the minute that a point in time lies in.
pub open spec fn start_of_minute(t: Instant) -> Instant {
    (t.0 - t.0 % 60, 0)
}

/// The point in time so many seconds before another. A leap second counts as
/// the start of the minute that follows it.
pub open spec fn moved_back(t: Instant, secs: int) -> Instant {
    if secs > 0 && t.1 >= NANOS_PER_SEC {
        (t.0 + 1 - secs, t.1 - NANOS_PER_SEC)
    } else {
        (t.0 - secs, t.1)
    }
}

/// A point in time in UTC.
#[derive(Clone, Copy, Debug, PartialEq, Eq, Structural)]
pub struct NaiveDateTime {
    secs: i64,
    nanos: u32,
}

impl View for NaiveDateTime {
    type V = Instant;

    closed spec fn view(&self) -> Instant {
        (self.secs as int, self.nanos as int)
    }
}

/// What `NaiveDateTime`'s `FromStr` of `chrono` reads: the seconds since the
/// epoch and the nanoseconds in the second.
pub uninterp spec fn datetime_reading(s: Seq<char>) -> Option<(i64, u32)>;

/// `chrono::DateTime::from_timestamp_millis`: the second since the epoch and
/// the nanoseconds in it, or `None` outside the years that `chrono` holds.
#[verifier::external_body]
fn parts_of_millis(millis: i64) -> (r: Option<(i64, u32)>)
    ensures
        match r {
            Some((secs, nanos)) => is_held_in_millis(millis as int) && (secs as int, nanos as int)
                == instant_of_millis(millis as int),
            None => !is_held_in_millis(millis as int),
        },
{
    match chrono::DateTime::from_timestamp_millis(millis) {
        Some(time) => Some((time.timestamp(), time.timestamp_subsec_nanos())),
        None => None,
    }
}

/// `chrono::DateTime::from_timestamp_nanos`: the second since the epoch and
/// the nanoseconds in it. All numbers of nanoseconds are in range.
#[verifier::external_body]
fn parts_of_nanos(nanos: i64) -> (r: (i64, u32))
    ensures
        (r.0 as int, r.1 as int) == instant_of_nanos(nanos as int),
{
    let time = chrono::DateTime::from_timestamp_nanos(nanos);
    (time.timestamp(), time.timestamp_subsec_nanos())
}

/// `chrono`'s `FromStr` of `NaiveDateTime`, whose result is a function of the
/// text alone and lies in the years that `chrono` holds. It reads a date, a
/// `T` and a time of day; which texts it takes is not stated further.
#[verifier::external_body]
fn parts_of_text(s: &str) -> (r: Option<(i64, u32)>)
    ensures
        r == datetime_reading(s@),
        r matches Some((secs, nanos)) ==> is_instant((secs as int, nanos as int)),
{
    match s.parse::<chrono::NaiveDateTime>() {
        Ok(time) => Some((time.and_utc().timestamp(), time.and_utc().timestamp_subsec_nanos())),
        Err(_) => None,
    }
}

/// `chrono::Utc::now`: the second since the epoch and the nanoseconds in it.
/// It depends on the machine's clock, and does not return where the clock is
/// before the epoch. All that is stated is that a point in time since the epoch
/// comes back, with the nanoseconds of one second.
#[verifier::external_body]
fn parts_of_now() -> (r: (i64, u32))
    ensures
        0 <= r.0 <= MAX_SECS,
        r.1 < NANOS_PER_SEC,
{
    let now = chrono::Utc::now();
    (now.timestamp(), now.timestamp_subsec_nanos())
}

impl NaiveDateTime {
    #[verifier::type_invariant]
    spec fn is_valid(self) -> bool {
        is_instant((self.secs as int, self.nanos as int))
    }

    /// The point in time so many seconds after the epoch, and nanoseconds
    /// after the start of that second.
    pub fn from_parts(secs: i64, nanos: u32) -> (r: Option<NaiveDateTime>)
        ensures
            match r {
                Some(time) => time@ == (secs as int, nanos as int) && is_instant(time@),
                None => !is_instant((secs as int, nanos as int)),
            },
    {
        if MIN_SECS <= secs && secs <= MAX_SECS && nanos < 2 * NANOS_PER_SEC {
            Some(NaiveDateTime { secs, nanos })
        } else {
            None
        }
    }

    /// The point in time so many milliseconds after the epoch, where it can be
    /// held.
    pub fn from_timestamp_millis(millis: i64) -> (r: Option<NaiveDateTime>)
        ensures
            match r {
                Some(time) => is_held_in_millis(millis as int) && time@ == instant_of_millis(millis as int),
                None => !is_held_in_millis(millis as int),
            },
    {
        match parts_of_millis(millis) {
            Some((secs, nanos)) => Some(NaiveDateTime { secs, nanos }),
            None => None,
        }
    }

    /// The point in time so many nanoseconds after the epoch.
    pub fn from_timestamp_nanos(nanos: i64) -> (r: NaiveDateTime)
        ensures
            r@ == instant_of_nanos(nanos as int),
    {
        let (secs, nanos) = parts_of_nanos(nanos);
        NaiveDateTime { secs, nanos }
    }

    /// The point in time that a text names.
    pub fn parse(s: &str) -> (r: Option<NaiveDateTime>)
        ensures
            match (r, datetime_reading(s@)) {
                (Some(time), Some((secs, nanos))) => time@ == (secs as int, nanos as int),
                (None, None) => true,
                _ => false,
            },
    {
        match parts_of_text(s) {
            Some((secs, nanos)) => Some(NaiveDateTime { secs, nanos }),
            None => None,
        }
    }

    /// The point in time at which this is called.
    pub fn now() -> (r: NaiveDateTime)
        ensures
            0 <= r@.0 <= MAX_SECS,
            0 <= r@.1 < NANOS_PER_SEC,
    {
        let (secs, nanos) = parts_of_now();
        NaiveDateTime { secs, nanos }
    }

    /// The second since the epoch that this lies in.
    pub fn timestamp(&self) -> (r: i64)
        ensures
            r == self@.0,
            is_instant(self@),
    {
        proof {
            use_type_invariant(self);
        }
        self.secs
    }

    /// The nanoseconds since the start of the second.
    pub fn nanosecond(&self) -> (r: u32)
        ensures
            r == self@.1,
            is_instant(self@),
    {
        proof {
            use_type_invariant(self);
        }
        self.nanos
    }

    /// The second of the minute.
    pub fn second(&self) -> (r: u32)
        ensures
            r == self@.0 % 60,
    {
        proof {
            use_type_invariant(self);
        }
        ((self.secs - MIN_SECS) as u64 % 60) as u32
    }

    /// The whole milliseconds since the epoch.
    pub fn timestamp_millis(&self) -> (r: i64)
        ensures
            r == millis_of(self@),
    {
        proof {
            use_type_invariant(self);
        }
        self.secs * 1000 + (self.nanos / NANOS_PER_MILLI) as i64
    }

    /// Whether this comes before the other.
    pub fn is_before(&self, other: &NaiveDateTime) -> (r: bool)
        ensures
            r == earlier(self@, other@),
    {
        self.secs < other.secs || self.secs == other.secs && self.nanos < other.nanos
    }

    /// The start of the minute that lies so many seconds before this, where
    /// it can be held.
    pub fn minute_before(&self, secs: u32) -> (r: Option<NaiveDateTime>)
        ensures
            match r {
                Some(time) => time@ == start_of_minute(moved_back(self@, secs as int)) && is_instant(time@),
                None => moved_back(self@, secs as int).0 < MIN_SECS,
            },
    {
        proof {
            use_type_invariant(self);
        }
        let leap: i64 = if secs > 0 && self.nanos >= NANOS_PER_SEC {
            1
        } else {
            0
        };
        let at: i64 = self.secs + leap - secs as i64;
        if at < MIN_SECS {
            return None;
        }
        let into_minute: i64 = ((at - MIN_SECS) as u64 % 60) as i64;
        Some(NaiveDateTime { secs: at - into_minute, nanos: 0 })
    }
}

/// The milliseconds of the point in time of a number of milliseconds are that
/// number.
pub proof fn millis_read_back(millis: int)
    ensures
        millis_of(instant_of_millis(millis)) == millis,
{
}

/// Points in time come in the order of their milliseconds, and of their
/// nanoseconds, since the epoch.
pub proof fn earlier_is_the_order_of_time(a: int, b: int)
    ensures
        earlier(instant_of_millis(a), instant_of_millis(b)) <==> a < b,
        earlier(instant_of_nanos(a), instant_of_nanos(b)) <==> a < b,
        instant_of_millis(a) == instant_of_millis(b) <==> a == b,
        instant_of_nanos(a) == instant_of_nanos(b) <==> a == b,
{
}

/// Of two points in time that differ, exactly one comes before the other; a
/// leap second comes behind the second that it follows and before the next.
pub proof fn earlier_is_total(a: Instant, b: Instant)
    ensures
        !earlier(a, a),
        a != b ==> (earlier(a, b) <==> !earlier(b, a)),
        not_later(a, b) <==> earlier(a, b) || a == b,
        a.0 == b.0 ==> (earlier(a, b) <==> a.1 < b.1),
        a.0 != b.0 ==> (earlier(a, b) <==> a.0 < b.0),
{
}

/// The start of a minute is the last point in time, with whole minutes since the
/// epoch, that is not behind a point in time.
pub proof fn start_of_minute_is_the_last_whole_minute(t: Instant, minutes: int)
    requires
        0 <= t.1,
    ensures
        start_of_minute(t).0 % 60 == 0,
        start_of_minute(t).1 == 0,
        !earlier(t, start_of_minute(t)),
        earlier(t, (minutes * 60, 0)) <==> earlier(start_of_minute(t), (minutes * 60, 0)),
{
}

} // verus!
