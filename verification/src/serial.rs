//! Serial numbers: how a spreadsheet holds a point in time, as a number of days.
use crate::double::laws::{gap, lemma_none_is_nearer};
use crate::double::rounding::{
    lemma_nearest_opposite, lemma_nearest_ordered, lemma_quotient_distinct, lemma_quotient_error,
    lemma_quotient_undone, lemma_quotient_undone_close, lemma_quotient_undone_half,
    lemma_rounded_whole, lemma_whole_exact, lemma_whole_quotient,
};
use crate::double::{distance, is_nearest, nearest, one, rounded, whole_product, Double};
use crate::timestamp::{
    is_before, is_moment, millis_after, nanos_since, whole_millis, Moment, Timestamp, MAX_SECS,
    MIN_SECS, NANOS_PER_SEC,
};
use vstd::prelude::*;

verus! {

/// The seconds from 1970-01-01 to 1899-12-30, the day that serial numbers count from.
pub const EPOCH_SECS: i64 = -2_209_161_600;

/// The number of milliseconds in a day.
pub const MILLIS_PER_DAY: u64 = 86_400_000;

/// The start of 1899-12-30, in UTC.
pub open spec fn epoch() -> Moment {
    Moment { secs: EPOCH_SECS as int, nanos: 0 }
}

/// The whole milliseconds from the epoch to a point in time, cut off towards zero.
pub open spec fn epoch_millis(m: Moment) -> int {
    whole_millis((m.secs - EPOCH_SECS) * NANOS_PER_SEC + m.nanos)
}

/// The serial number of a point in time: the double nearest to the days since the
/// epoch, of which fractions are counted in whole milliseconds.
pub open spec fn serial_of(m: Moment) -> Double {
    nearest(epoch_millis(m) * one(), MILLIS_PER_DAY as nat)
}

/// The milliseconds since the epoch that a serial number comes to.
pub open spec fn serial_millis(serial: int) -> i64 {
    whole_product(serial, MILLIS_PER_DAY as nat)
}

/// The point in time that a serial number stands for.
pub open spec fn serial_moment(serial: int) -> Moment {
    millis_after(epoch(), serial_millis(serial) as int)
}

/// Whether a serial number stands for a point in time at all: whether it lies in
/// the range of years.
pub open spec fn serial_in_range(serial: int) -> bool {
    &&& serial_millis(serial) != i64::MIN
    &&& MIN_SECS <= serial_moment(serial).secs <= MAX_SECS
}

/// The timestamp of the epoch.
fn epoch_timestamp() -> (t: Timestamp)
    ensures
        t@ == epoch(),
{
    Timestamp::new(EPOCH_SECS, 0).unwrap()
}

/// The serial number of a timestamp: the days since 1899-12-30.
pub fn to_serial_number(t: Timestamp) -> (serial: Double)
    ensures
        serial == serial_of(t@),
        is_nearest(serial, epoch_millis(t@) * one(), MILLIS_PER_DAY as nat),
{
    let epoch = epoch_timestamp();
    let millis: i64 = t.millis_since(&epoch);
    proof {
        use_type_invariant(&t);
        lemma_epoch_millis(t@);
        lemma_whole_exact(millis as int);
    }
    Double::quotient(millis, MILLIS_PER_DAY)
}

/// The milliseconds from the epoch to a point in time are few enough for a double.
proof fn lemma_epoch_millis(m: Moment)
    requires
        is_moment(m.secs, m.nanos),
    ensures
        whole_millis(nanos_since(m, epoch())) == epoch_millis(m),
        -0x20_0000_0000_0000 < epoch_millis(m) < 0x20_0000_0000_0000,
{
    assert(EPOCH_SECS as int % 86_400 == 0);
}

/// The milliseconds since the epoch that a serial number comes to, and whether
/// they are in range.
fn checked_millis(serial: Double) -> (r: Option<i64>)
    ensures
        r == if serial_in_range(serial@) {
            Some(serial_millis(serial@))
        } else {
            None
        },
{
    let millis: i64 = serial.whole_times(MILLIS_PER_DAY);
    let earliest: i64 = (MIN_SECS - EPOCH_SECS) * 1000;
    let latest: i64 = (MAX_SECS - EPOCH_SECS) * 1000 + 999;
    if earliest <= millis && millis <= latest {
        Some(millis)
    } else {
        None
    }
}

/// Whether a serial number stands for a point in time.
pub fn is_serial_in_range(serial: Double) -> (r: bool)
    ensures
        r == serial_in_range(serial@),
{
    checked_millis(serial).is_some()
}

/// The timestamp that a serial number stands for.
pub fn from_serial_number(serial: Double) -> (t: Timestamp)
    requires
        serial_in_range(serial@),
    ensures
        t@ == serial_moment(serial@),
{
    let millis: i64 = serial.whole_times(MILLIS_PER_DAY);
    epoch_timestamp().plus_millis(millis)
}

/// The start of the n-th day after 1899-12-30 has the serial number n; that of
/// 1899-12-30 itself has zero.
pub proof fn lemma_whole_days(days: int, m: Moment)
    requires
        is_moment(m.secs, m.nanos),
        m.secs == EPOCH_SECS + days * 86_400,
        m.nanos == 0,
    ensures
        serial_of(m)@ == days * one(),
{
    assert(epoch_millis(m) == days * MILLIS_PER_DAY);
    lemma_epoch_millis(m);
    lemma_whole_quotient(days, MILLIS_PER_DAY as nat);
}

/// The nanoseconds of a point in time, counted from 1970-01-01T00:00:00Z.
pub open spec fn total_nanos(m: Moment) -> int {
    m.secs * NANOS_PER_SEC + m.nanos
}

/// Serial numbers are in the order of time, counted in nanoseconds.
pub proof fn lemma_serial_ordered(m: Moment, later: Moment)
    requires
        is_moment(m.secs, m.nanos),
        is_moment(later.secs, later.nanos),
        total_nanos(m) <= total_nanos(later),
    ensures
        serial_of(m)@ <= serial_of(later)@,
{
    lemma_epoch_millis(m);
    lemma_epoch_millis(later);
    let (n, k, u): (int, int, int) = (epoch_millis(m), epoch_millis(later), one() as int);
    assert(n <= k);
    assert(n * u <= k * u) by (nonlinear_arith)
        requires
            n <= k,
            u >= 0,
    ;
    lemma_quotient_error(n, MILLIS_PER_DAY as nat);
    lemma_quotient_error(k, MILLIS_PER_DAY as nat);
    lemma_nearest_ordered(serial_of(m), serial_of(later), n * u, k * u, MILLIS_PER_DAY as nat);
}

/// Points in time at equal distances before and after the epoch, counted in whole
/// milliseconds, have opposite serial numbers.
pub proof fn lemma_serial_opposite(before: Moment, after: Moment)
    requires
        is_moment(after.secs, after.nanos),
        epoch_millis(before) == -epoch_millis(after),
    ensures
        serial_of(before)@ == -serial_of(after)@,
{
    let (n, u): (int, int) = (epoch_millis(after), one() as int);
    lemma_epoch_millis(after);
    lemma_quotient_error(n, MILLIS_PER_DAY as nat);
    lemma_nearest_opposite(n * u, MILLIS_PER_DAY as nat);
    assert((-n) * u == -(n * u)) by (nonlinear_arith);
}

/// Points in time at equal distances before and after the epoch, to the nanosecond,
/// are at equal distances in whole milliseconds too: parts of a millisecond are cut
/// off towards the epoch on both sides.
pub proof fn lemma_millis_opposite(before: Moment, after: Moment)
    requires
        total_nanos(epoch()) - total_nanos(before) == total_nanos(after) - total_nanos(epoch()),
    ensures
        epoch_millis(before) == -epoch_millis(after),
{
}

/// Whether a point in time lies within two to the power of 26 days of the epoch, some
/// 183 thousand years. So far, serial numbers are fine enough to tell milliseconds
/// apart.
pub open spec fn is_fine(m: Moment) -> bool {
    -(0x400_0000 * MILLIS_PER_DAY) <= epoch_millis(m) <= 0x400_0000 * MILLIS_PER_DAY
}

/// Points in time that differ by whole milliseconds have different serial numbers,
/// where serial numbers are fine enough.
pub proof fn lemma_serial_distinct(m: Moment, later: Moment)
    requires
        is_fine(m),
        is_fine(later),
        epoch_millis(m) < epoch_millis(later),
    ensures
        serial_of(m)@ < serial_of(later)@,
{
    lemma_quotient_distinct(epoch_millis(m), epoch_millis(later), MILLIS_PER_DAY as nat);
}

/// A point in time that is written as a serial number and read back is at most a
/// millisecond away. Where serial numbers are fine enough, it is the same, to the
/// millisecond, or the next millisecond towards the epoch.
pub proof fn lemma_read_back(m: Moment)
    requires
        is_moment(m.secs, m.nanos),
    ensures
        epoch_millis(m) - 1 <= serial_millis(serial_of(m)@) <= epoch_millis(m) + 1,
        is_fine(m) && epoch_millis(m) >= 0 ==> serial_millis(serial_of(m)@) <= epoch_millis(m),
        is_fine(m) && epoch_millis(m) <= 0 ==> serial_millis(serial_of(m)@) >= epoch_millis(m),
        is_fine(m) ==> serial_in_range(serial_of(m)@),
{
    lemma_epoch_millis(m);
    lemma_quotient_undone(epoch_millis(m), MILLIS_PER_DAY as nat);
    if is_fine(m) {
        lemma_quotient_undone_close(epoch_millis(m), MILLIS_PER_DAY as nat);
    }
}

/// The milliseconds that a serial number comes to, as a double.
pub open spec fn serial_product(serial: int) -> Double {
    nearest(serial * MILLIS_PER_DAY, 1)
}

/// The milliseconds that the serial number of a point in time comes to are at most
/// half a millisecond away from it, where serial numbers are fine enough. Within two
/// to the power of 25 days of the epoch, some 91 thousand years, no millisecond is
/// lost when they are rounded: a point in time of whole milliseconds is got back.
pub proof fn lemma_rounded_back(m: Moment)
    requires
        is_moment(m.secs, m.nanos),
        is_fine(m),
    ensures
        2 * distance(serial_product(serial_of(m)@)@, epoch_millis(m) * one(), 1) <= one(),
        -(0x200_0000 * MILLIS_PER_DAY) <= epoch_millis(m) <= 0x200_0000 * MILLIS_PER_DAY ==> {
            &&& rounded(serial_product(serial_of(m)@)@) == epoch_millis(m)
            &&& m.nanos < NANOS_PER_SEC && m.nanos % 1_000_000 == 0 ==> millis_after(
                epoch(),
                rounded(serial_product(serial_of(m)@)@),
            ) == m
        },
{
    let n: int = epoch_millis(m);
    lemma_quotient_undone_half(n, MILLIS_PER_DAY as nat);
    if -(0x200_0000 * MILLIS_PER_DAY) <= n <= 0x200_0000 * MILLIS_PER_DAY {
        lemma_rounded_whole(serial_product(serial_of(m)@)@, n);
    }
}

/// A point in time that lies at least a whole millisecond after a cutoff, not
/// counting the part of a millisecond that is cut off, is not before the cutoff
/// when its serial number is read back.
pub proof fn lemma_read_back_after(m: Moment, cutoff: Moment)
    requires
        is_moment(m.secs, m.nanos),
        !is_before(millis_after(epoch(), epoch_millis(m) - 1), cutoff),
    ensures
        !is_before(serial_moment(serial_of(m)@), cutoff),
{
    lemma_read_back(m);
}

/// The whole milliseconds since 1899-12-30T00:00:00Z fall short of the time since then
/// by less than a millisecond, towards that day.
pub proof fn lemma_millis_since_epoch(m: Moment)
    ensures
        ({
            let nanos = (m.secs + 2_209_161_600) * 1_000_000_000 + m.nanos;
            &&& nanos >= 0 ==> 0 <= nanos - epoch_millis(m) * 1_000_000 < 1_000_000
            &&& nanos <= 0 ==> -1_000_000 < nanos - epoch_millis(m) * 1_000_000 <= 0
        }),
        total_nanos(m) == m.secs * 1_000_000_000 + m.nanos,
        epoch() == (Moment { secs: -2_209_161_600, nanos: 0 }),
{
}

/// No double is nearer to the days since 1899-12-30, which are the milliseconds over
/// those in a day, than the serial number; where another is as near, it is even.
pub proof fn lemma_serial_nearest(m: Moment, y: Double)
    requires
        is_moment(m.secs, m.nanos),
        y.wf(),
    ensures
        ({
            let (x, millis) = (serial_of(m), epoch_millis(m) * one());
            &&& x.wf()
            &&& gap(x@ * 86_400_000, millis) <= gap(y@ * 86_400_000, millis)
            &&& gap(x@ * 86_400_000, millis) == gap(y@ * 86_400_000, millis) && x@ != y@
                ==> x.is_even()
        }),
{
    lemma_epoch_millis(m);
    lemma_quotient_error(epoch_millis(m), MILLIS_PER_DAY as nat);
    lemma_none_is_nearer(serial_of(m), y, epoch_millis(m) * one(), MILLIS_PER_DAY as nat);
}

/// A serial number stands for the point in time that lies as many milliseconds after
/// 1899-12-30T00:00:00Z as its product with those in a day comes to, cut off.
pub proof fn lemma_serial_time(serial: int)
    ensures
        ({
            let m = serial_moment(serial);
            &&& (m.secs + 2_209_161_600) * 1_000_000_000 + m.nanos == whole_product(
                serial,
                86_400_000,
            ) * 1_000_000
            &&& 0 <= m.nanos < 1_000_000_000
        }),
        serial_millis(serial) == whole_product(serial, 86_400_000),
        serial_in_range(serial) <==> -8_332_392_067_200_000 <= whole_product(serial, 86_400_000)
            <= 8_212_476_038_399_999,
{
}

/// A point in time that lies at least a whole millisecond before a cutoff, counted
/// from the next millisecond on, is before the cutoff when its serial number is read
/// back.
pub proof fn lemma_read_back_before(m: Moment, cutoff: Moment)
    requires
        is_moment(m.secs, m.nanos),
        is_before(millis_after(epoch(), epoch_millis(m) + 1), cutoff),
    ensures
        is_before(serial_moment(serial_of(m)@), cutoff),
{
    lemma_read_back(m);
}

} // verus!
