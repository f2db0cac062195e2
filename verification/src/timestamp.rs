//! Points in time, and what is computed of them by `chrono`.
use vstd::prelude::*;

verus! {

/// The first second of the year -262143, the earliest that a date can lie in.
pub const MIN_SECS: i64 = -8_334_601_228_800;

/// The last second of the year 262142, the latest that a date can lie in.
pub const MAX_SECS: i64 = 8_210_266_876_799;

/// The number of nanoseconds in a second.
pub const NANOS_PER_SEC: u32 = 1_000_000_000;

/// The number of seconds in a week.
pub const SECS_PER_WEEK: i64 = 604_800;

/// A point in time as two numbers: whole seconds since 1970-01-01T00:00:00Z, and
/// nanoseconds since the last of these. During a leap second the nanoseconds go
/// on counting past a second.
pub struct Moment {
    pub secs: int,
    pub nanos: int,
}

/// Whether two numbers are a point in time: the seconds lie in the range of
/// years, and only the last second of a minute is prolonged by a leap second.
pub open spec fn is_moment(secs: int, nanos: int) -> bool {
    &&& MIN_SECS <= secs <= MAX_SECS
    &&& 0 <= nanos
    &&& nanos < NANOS_PER_SEC || (nanos < 2 * NANOS_PER_SEC && secs % 60 == 59)
}

/// Whether one point in time lies before another.
pub open spec fn is_before(m: Moment, other: Moment) -> bool {
    m.secs < other.secs || (m.secs == other.secs && m.nanos < other.nanos)
}

/// A point in time, in UTC.
#[derive(Clone, Copy, Debug, PartialEq, Eq, Structural)]
pub struct Timestamp {
    secs: i64,
    nanos: u32,
}

impl View for Timestamp {
    type V = Moment;

    closed spec fn view(&self) -> Moment {
        Moment { secs: self.secs as int, nanos: self.nanos as int }
    }
}

impl Timestamp {
    /// A timestamp is always a point in time.
    #[verifier::type_invariant]
    pub open spec fn wf(self) -> bool {
        is_moment(self@.secs, self@.nanos)
    }

    /// Makes a timestamp of seconds and nanoseconds, where they are a point in time.
    pub fn new(secs: i64, nanos: u32) -> (r: Option<Timestamp>)
        ensures
            r is Some <==> is_moment(secs as int, nanos as int),
            r matches Some(t) ==> t@ == (Moment { secs: secs as int, nanos: nanos as int }),
    {
        if secs < MIN_SECS || secs > MAX_SECS || nanos >= 2_000_000_000 {
            return None;
        }
        if nanos >= NANOS_PER_SEC && (secs - MIN_SECS) % 60 != 59 {
            return None;
        }
        Some(Timestamp { secs, nanos })
    }

    /// The whole seconds since 1970-01-01T00:00:00Z.
    pub fn secs(&self) -> (secs: i64)
        ensures
            secs == self@.secs,
    {
        self.secs
    }

    /// The nanoseconds since the last whole second.
    pub fn nanos(&self) -> (nanos: u32)
        ensures
            nanos == self@.nanos,
    {
        self.nanos
    }

    /// Whether this point in time lies before another.
    pub fn before(&self, other: &Timestamp) -> (r: bool)
        ensures
            r == is_before(self@, other@),
    {
        self.secs < other.secs || (self.secs == other.secs && self.nanos < other.nanos)
    }
}

/// Whether a format is one that points in time are written in: a date and a time of
/// day, with or without "UTC" behind them.
pub open spec fn is_known_format(format: Seq<char>) -> bool {
    format == "%Y-%m-%d %H:%M:%S UTC"@ || format == "%Y-%m-%d %H:%M:%S"@
}

/// What `chrono::DateTime::parse_from_rfc3339` reads from a text: the seconds and
/// nanoseconds of the point in time, where the text is an RFC 3339 date and time.
pub uninterp spec fn rfc3339_instant(text: Seq<char>) -> Option<(i64, u32)>;

/// What `chrono::NaiveDateTime::parse_from_str` reads from a text in a format:
/// the seconds and nanoseconds of the point in time that the date and time are in
/// UTC, where the text has the format.
pub uninterp spec fn formatted_instant(text: Seq<char>, format: Seq<char>) -> Option<(i64, u32)>;

/// The text that `chrono::DateTime::to_rfc3339` writes for the point in time with
/// these seconds and nanoseconds, in UTC.
pub uninterp spec fn rfc3339_text(secs: i64, nanos: u32) -> Seq<char>;

/// Calls `chrono::DateTime::parse_from_rfc3339`. Whether the text is accepted, and
/// what point in time it is, is a function of the text; what is read is a point
/// in time.
#[verifier::external_body]
fn parse_from_rfc3339(text: &str) -> (r: Option<(i64, u32)>)
    ensures
        r == rfc3339_instant(text@),
        r matches Some((secs, nanos)) ==> is_moment(secs as int, nanos as int),
{
    match chrono::DateTime::parse_from_rfc3339(text) {
        Ok(t) => Some((t.timestamp(), t.timestamp_subsec_nanos())),
        Err(_) => None,
    }
}

/// Calls `chrono::NaiveDateTime::parse_from_str`, and takes the date and time that
/// it reads to be in UTC. Whether the text is accepted, and what point in time it
/// is, is a function of the text and the format; what is read is a point in time.
/// Only the formats in use are let through: with one that reads a count of seconds
/// (`%s`) besides a leap second, the call panics at the earliest date.
#[verifier::external_body]
fn parse_from_str(text: &str, format: &str) -> (r: Option<(i64, u32)>)
    requires
        is_known_format(format@),
    ensures
        r == formatted_instant(text@, format@),
        r matches Some((secs, nanos)) ==> is_moment(secs as int, nanos as int),
{
    match chrono::NaiveDateTime::parse_from_str(text, format) {
        Ok(t) => Some((t.and_utc().timestamp(), t.and_utc().timestamp_subsec_nanos())),
        Err(_) => None,
    }
}

/// Calls `chrono::DateTime::to_rfc3339`. The text is a function of the point in time.
#[verifier::external_body]
fn to_rfc3339(secs: i64, nanos: u32) -> (text: String)
    requires
        is_moment(secs as int, nanos as int),
    ensures
        text@ == rfc3339_text(secs, nanos),
{
    chrono::DateTime::from_timestamp(secs, nanos).unwrap().to_rfc3339()
}

/// The nanoseconds from one point in time to another. The leap second that either
/// of them lies in is counted where it lies between the two times of day.
pub open spec fn nanos_since(m: Moment, earlier: Moment) -> int {
    let day_secs = m.secs % 86_400;
    let earlier_day_secs = earlier.secs % 86_400;
    let counted = if day_secs > earlier_day_secs && earlier.nanos >= NANOS_PER_SEC {
        1int
    } else if day_secs < earlier_day_secs && m.nanos >= NANOS_PER_SEC {
        -1int
    } else {
        0int
    };
    (m.secs - earlier.secs + counted) * NANOS_PER_SEC + m.nanos - earlier.nanos
}

/// The whole milliseconds in a number of nanoseconds, cut off towards zero.
pub open spec fn whole_millis(nanos: int) -> int {
    if nanos >= 0 {
        nanos / 1_000_000
    } else {
        -((-nanos) / 1_000_000)
    }
}

/// Calls `chrono::DateTime::signed_duration_since`, and reads the duration with
/// `num_milliseconds`. The result is the whole milliseconds from the second point
/// in time to the first, cut off towards zero.
#[verifier::external_body]
fn millis_since(secs: i64, nanos: u32, earlier_secs: i64, earlier_nanos: u32) -> (millis: i64)
    requires
        is_moment(secs as int, nanos as int),
        is_moment(earlier_secs as int, earlier_nanos as int),
    ensures
        millis == whole_millis(
            nanos_since(
                Moment { secs: secs as int, nanos: nanos as int },
                Moment { secs: earlier_secs as int, nanos: earlier_nanos as int },
            ),
        ),
{
    let earlier = chrono::DateTime::from_timestamp(earlier_secs, earlier_nanos).unwrap();
    let t = chrono::DateTime::from_timestamp(secs, nanos).unwrap();
    t.signed_duration_since(earlier).num_milliseconds()
}

/// The point in time that lies a number of milliseconds after another, which lies
/// in no leap second.
pub open spec fn millis_after(m: Moment, millis: int) -> Moment {
    let nanos = m.secs * NANOS_PER_SEC + m.nanos + millis * 1_000_000;
    Moment { secs: nanos / NANOS_PER_SEC as int, nanos: nanos % NANOS_PER_SEC as int }
}

/// Adds `chrono::Duration::milliseconds` to a `chrono::DateTime`. The result is
/// the point in time that many milliseconds later. Both calls have a range, which
/// is asked for.
#[verifier::external_body]
fn add_millis(secs: i64, nanos: u32, millis: i64) -> (r: (i64, u32))
    requires
        is_moment(secs as int, nanos as int),
        nanos < NANOS_PER_SEC,
        millis != i64::MIN,
        ({
            let later = millis_after(
                Moment { secs: secs as int, nanos: nanos as int },
                millis as int,
            );
            MIN_SECS <= later.secs <= MAX_SECS
        }),
    ensures
        (Moment { secs: r.0 as int, nanos: r.1 as int }) == millis_after(
            Moment { secs: secs as int, nanos: nanos as int },
            millis as int,
        ),
{
    let t = chrono::DateTime::from_timestamp(secs, nanos).unwrap()
        + chrono::Duration::milliseconds(millis);
    (t.timestamp(), t.timestamp_subsec_nanos())
}

/// The point in time that lies a number of weeks before another. The end of a
/// leap second is the start of the next second.
pub open spec fn weeks_before(m: Moment, weeks: int) -> Moment {
    if m.nanos >= NANOS_PER_SEC {
        Moment { secs: m.secs + 1 - weeks * SECS_PER_WEEK, nanos: m.nanos - NANOS_PER_SEC }
    } else {
        Moment { secs: m.secs - weeks * SECS_PER_WEEK, nanos: m.nanos }
    }
}

/// Subtracts `chrono::Duration::weeks` from a `chrono::DateTime`. The result is
/// the point in time that many weeks earlier. Both calls have a range, which is
/// asked for.
#[verifier::external_body]
fn subtract_weeks(secs: i64, nanos: u32, weeks: i64) -> (r: (i64, u32))
    requires
        is_moment(secs as int, nanos as int),
        0 < weeks <= 1_000_000,
        MIN_SECS <= weeks_before(
            Moment { secs: secs as int, nanos: nanos as int },
            weeks as int,
        ).secs,
    ensures
        (Moment { secs: r.0 as int, nanos: r.1 as int }) == weeks_before(
            Moment { secs: secs as int, nanos: nanos as int },
            weeks as int,
        ),
{
    let t = chrono::DateTime::from_timestamp(secs, nanos).unwrap() - chrono::Duration::weeks(weeks);
    (t.timestamp(), t.timestamp_subsec_nanos())
}

/// The point in time that two numbers are, where there are any.
pub open spec fn moment_of(instant: Option<(i64, u32)>) -> Option<Moment> {
    match instant {
        Some((secs, nanos)) => Some(Moment { secs: secs as int, nanos: nanos as int }),
        None => None,
    }
}

/// The point in time that a timestamp is, where there is one.
pub open spec fn moment_at(t: Option<Timestamp>) -> Option<Moment> {
    match t {
        Some(t) => Some(t@),
        None => None,
    }
}

impl Timestamp {
    /// Reads an RFC 3339 date and time.
    pub fn from_rfc3339(text: &str) -> (r: Option<Timestamp>)
        ensures
            moment_at(r) == moment_of(rfc3339_instant(text@)),
    {
        match parse_from_rfc3339(text) {
            Some((secs, nanos)) => Some(Timestamp { secs, nanos }),
            None => None,
        }
    }

    /// Reads a date and time in UTC that is written in one of the known formats.
    pub fn from_formatted(text: &str, format: &str) -> (r: Option<Timestamp>)
        requires
            is_known_format(format@),
        ensures
            moment_at(r) == moment_of(formatted_instant(text@, format@)),
    {
        match parse_from_str(text, format) {
            Some((secs, nanos)) => Some(Timestamp { secs, nanos }),
            None => None,
        }
    }

    /// Writes the timestamp as an RFC 3339 date and time.
    pub fn to_rfc3339(&self) -> (text: String)
        ensures
            text@ == rfc3339_text(self@.secs as i64, self@.nanos as u32),
    {
        proof {
            use_type_invariant(self);
        }
        to_rfc3339(self.secs, self.nanos)
    }

    /// The whole milliseconds since an earlier timestamp, negative where that is a later one.
    pub fn millis_since(&self, earlier: &Timestamp) -> (millis: i64)
        ensures
            millis == whole_millis(nanos_since(self@, earlier@)),
    {
        proof {
            use_type_invariant(self);
            use_type_invariant(earlier);
        }
        millis_since(self.secs, self.nanos, earlier.secs, earlier.nanos)
    }

    /// The timestamp a number of milliseconds later.
    pub fn plus_millis(&self, millis: i64) -> (t: Timestamp)
        requires
            self@.nanos < NANOS_PER_SEC,
            millis != i64::MIN,
            MIN_SECS <= millis_after(self@, millis as int).secs <= MAX_SECS,
        ensures
            t@ == millis_after(self@, millis as int),
    {
        proof {
            use_type_invariant(self);
        }
        let (secs, nanos): (i64, u32) = add_millis(self.secs, self.nanos, millis);
        Timestamp { secs, nanos }
    }

    /// The timestamp a number of weeks earlier.
    pub fn minus_weeks(&self, weeks: i64) -> (t: Timestamp)
        requires
            0 < weeks <= 1_000_000,
            MIN_SECS <= weeks_before(self@, weeks as int).secs,
        ensures
            t@ == weeks_before(self@, weeks as int),
    {
        proof {
            use_type_invariant(self);
        }
        let (secs, nanos): (i64, u32) = subtract_weeks(self.secs, self.nanos, weeks);
        Timestamp { secs, nanos }
    }
}

/// A point in time lies in one of the years -262143 to 262142, and has less than a
/// second of nanoseconds, but in the last second of a minute, where it has less than
/// two.
pub proof fn lemma_moment_range(secs: int, nanos: int)
    ensures
        secs < -8_334_601_228_800 || secs > 8_210_266_876_799 ==> !is_moment(secs, nanos),
        nanos < 0 || nanos >= 2_000_000_000 ==> !is_moment(secs, nanos),
        -8_334_601_228_800 <= secs <= 8_210_266_876_799 && 0 <= nanos < 1_000_000_000
            ==> is_moment(secs, nanos),
        -8_334_601_228_800 <= secs <= 8_210_266_876_799 && 1_000_000_000 <= nanos < 2_000_000_000
            ==> (is_moment(secs, nanos) <==> secs % 60 == 59),
{
}

/// Points in time are in a strict order: by their seconds, and in one second by their
/// nanoseconds. But for leap seconds this is the order of the nanoseconds since
/// 1970-01-01T00:00:00Z.
pub proof fn lemma_before_orders(m: Moment, other: Moment, later: Moment)
    ensures
        m.secs < other.secs ==> is_before(m, other),
        m.secs == other.secs ==> (is_before(m, other) <==> m.nanos < other.nanos),
        !(is_before(m, other) && is_before(other, m)),
        is_before(m, other) || is_before(other, m) || m == other,
        is_before(m, other) && is_before(other, later) ==> is_before(m, later),
        0 <= m.nanos < 1_000_000_000 && 0 <= other.nanos < 1_000_000_000 ==> (is_before(m, other)
            <==> m.secs * 1_000_000_000 + m.nanos < other.secs * 1_000_000_000 + other.nanos),
{
}

/// Without a leap second, the nanoseconds from one point in time to another are the
/// difference of those since 1970-01-01T00:00:00Z. A leap second that either lies in
/// is counted as one more where the other lies later in its day; the way back is as
/// long as the way there.
pub proof fn lemma_nanos_between(m: Moment, earlier: Moment)
    ensures
        nanos_since(m, earlier) == -nanos_since(earlier, m),
        earlier.nanos < 1_000_000_000 && (m.nanos < 1_000_000_000 || m.secs % 86_400
            >= earlier.secs % 86_400) ==> nanos_since(m, earlier) == (m.secs - earlier.secs)
            * 1_000_000_000 + (m.nanos - earlier.nanos),
        earlier.nanos >= 1_000_000_000 && m.secs % 86_400 > earlier.secs % 86_400 ==> nanos_since(
            m,
            earlier,
        ) == (m.secs - earlier.secs + 1) * 1_000_000_000 + (m.nanos - earlier.nanos),
        m.secs % 86_400 == earlier.secs % 86_400 ==> nanos_since(m, earlier) == (m.secs
            - earlier.secs) * 1_000_000_000 + (m.nanos - earlier.nanos),
{
}

/// Whole milliseconds fall short of the nanoseconds that they are cut from by less
/// than a millisecond, towards zero.
pub proof fn lemma_millis_cut_off(nanos: int)
    ensures
        nanos >= 0 ==> 0 <= nanos - whole_millis(nanos) * 1_000_000 < 1_000_000,
        nanos <= 0 ==> -1_000_000 < nanos - whole_millis(nanos) * 1_000_000 <= 0,
{
}

/// A number of milliseconds later, a million times as many nanoseconds have passed,
/// and the nanoseconds are less than a second.
pub proof fn lemma_millis_pass(m: Moment, millis: int)
    ensures
        ({
            let later = millis_after(m, millis);
            &&& later.secs * 1_000_000_000 + later.nanos == m.secs * 1_000_000_000 + m.nanos
                + millis * 1_000_000
            &&& 0 <= later.nanos < 1_000_000_000
        }),
{
}

/// From a number of weeks before to a point in time, seven days have passed for each
/// week, and the nanoseconds are less than a second.
pub proof fn lemma_weeks_pass(m: Moment, weeks: int)
    requires
        is_moment(m.secs, m.nanos),
    ensures
        ({
            let earlier = weeks_before(m, weeks);
            &&& (earlier.secs + weeks * 604_800) * 1_000_000_000 + earlier.nanos == m.secs
                * 1_000_000_000 + m.nanos
            &&& 0 <= earlier.nanos < 1_000_000_000
        }),
{
}

/// What `chrono` reads as seconds and nanoseconds is the point in time with just these.
pub proof fn lemma_instant_kept(secs: i64, nanos: u32, t: Timestamp)
    ensures
        moment_of(Some((secs, nanos))) == Some(Moment { secs: secs as int, nanos: nanos as int }),
        moment_of(None) == None::<Moment>,
        moment_at(Some(t)) == Some(t@),
        moment_at(None) == None::<Moment>,
{
}

} // verus!
