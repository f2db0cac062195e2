//! What becomes of the rows of a sheet when time entries are written to it.
use crate::cell::{cells_view, number_double, rows_view, Cell, CellView, Number, Row};
use crate::double::laws::{lemma_product_ordered, lemma_whole_nearest};
use crate::double::rounding::lemma_whole_exact;
use crate::double::{nearest, one, whole_product, Double};
use crate::serial::{
    from_serial_number, is_serial_in_range, lemma_millis_since_epoch, lemma_read_back,
    lemma_serial_nearest, lemma_serial_time, serial_in_range, serial_moment, serial_of,
    to_serial_number,
};
use crate::timestamp::{
    formatted_instant, is_before, is_moment, moment_at, moment_of, rfc3339_instant, Moment,
    Timestamp,
};
use vstd::prelude::*;

verus! {

/// The title of the first column, by which a row of titles is known.
pub open spec fn start_title() -> Seq<char> {
    "Start"@
}

/// What the first cell of a row says about when its entry starts.
#[derive(Clone, Copy, Debug)]
pub enum RowStart {
    /// A serial number.
    Serial(Double),
    /// A date and time that is written out.
    Written(Timestamp),
    /// Nothing.
    Unknown,
}

/// What the first cell of a row says about when its entry starts.
pub enum StartView {
    Serial(Double),
    Written(Moment),
    Unknown,
}

impl View for RowStart {
    type V = StartView;

    open spec fn view(&self) -> StartView {
        match self {
            RowStart::Serial(x) => StartView::Serial(*x),
            RowStart::Written(t) => StartView::Written(t@),
            RowStart::Unknown => StartView::Unknown,
        }
    }
}

/// The point in time that a text is read as: as an RFC 3339 date and time, else as
/// one with "UTC" behind it, else as one with nothing behind it.
pub open spec fn written_moment(text: Seq<char>) -> Option<Moment> {
    if rfc3339_instant(text) is Some {
        moment_of(rfc3339_instant(text))
    } else if formatted_instant(text, "%Y-%m-%d %H:%M:%S UTC"@) is Some {
        moment_of(formatted_instant(text, "%Y-%m-%d %H:%M:%S UTC"@))
    } else {
        moment_of(formatted_instant(text, "%Y-%m-%d %H:%M:%S"@))
    }
}

/// When the entry in a row starts, as its first cell says.
pub open spec fn row_start_view(row: Seq<CellView>) -> StartView {
    if row.len() == 0 {
        StartView::Unknown
    } else {
        match row[0] {
            CellView::Number(number) => StartView::Serial(number_double(number)),
            CellView::Text(text) => match written_moment(text) {
                Some(m) => StartView::Written(m),
                None => StartView::Unknown,
            },
            _ => StartView::Unknown,
        }
    }
}

/// Reads a date and time in any of the ways in which it may be written out.
pub fn read_written(text: &str) -> (r: Option<Timestamp>)
    ensures
        moment_at(r) == written_moment(text@),
{
    match Timestamp::from_rfc3339(text) {
        Some(t) => Some(t),
        None => match Timestamp::from_formatted(text, "%Y-%m-%d %H:%M:%S UTC") {
            Some(t) => Some(t),
            None => Timestamp::from_formatted(text, "%Y-%m-%d %H:%M:%S"),
        },
    }
}

/// When the entry in a row starts.
pub fn row_start(row: &[Cell]) -> (start: RowStart)
    ensures
        start@ == row_start_view(cells_view(row@)),
{
    if row.len() == 0 {
        return RowStart::Unknown;
    }
    match &row[0] {
        Cell::Number(number) => RowStart::Serial(number.as_double()),
        Cell::Text(text) => match read_written(text.as_str()) {
            Some(t) => RowStart::Written(t),
            None => RowStart::Unknown,
        },
        _ => RowStart::Unknown,
    }
}

/// The serial number that a row is sorted by: zero where the start is not known.
pub open spec fn start_serial(start: StartView) -> Double {
    match start {
        StartView::Serial(x) => x,
        StartView::Written(m) => serial_of(m),
        StartView::Unknown => nearest(0, 1),
    }
}

/// Whether a row that starts then stays: where it starts before the cutoff, or
/// where the start is not known.
pub open spec fn start_stays(start: StartView, cutoff: Moment) -> bool {
    match start {
        StartView::Serial(x) => is_before(serial_moment(x@), cutoff),
        StartView::Written(m) => is_before(m, cutoff),
        StartView::Unknown => true,
    }
}

impl RowStart {
    /// The serial number to sort by.
    pub fn serial(&self) -> (x: Double)
        ensures
            x == start_serial(self@),
    {
        match self {
            RowStart::Serial(x) => *x,
            RowStart::Written(t) => to_serial_number(*t),
            RowStart::Unknown => Double::zero(),
        }
    }

    /// Whether a row that starts then stays in the sheet.
    pub fn stays(&self, cutoff: &Timestamp) -> (r: bool)
        requires
            self@ matches StartView::Serial(x) ==> serial_in_range(x@),
        ensures
            r == start_stays(self@, cutoff@),
    {
        match self {
            RowStart::Serial(x) => from_serial_number(*x).before(cutoff),
            RowStart::Written(t) => t.before(cutoff),
            RowStart::Unknown => true,
        }
    }
}

/// The serial number that a row is sorted by.
pub open spec fn row_serial(row: Seq<CellView>) -> Double {
    start_serial(row_start_view(row))
}

/// The time of a row, as a serial number: that of its first cell, or zero where the
/// first cell holds none.
pub fn extract_time_from_row(row: &[Cell]) -> (serial: Double)
    ensures
        serial == row_serial(cells_view(row@)),
{
    row_start(row).serial()
}

/// Whether a row is the row of titles.
pub open spec fn is_title_row(row: Seq<CellView>) -> bool {
    row.len() > 0 && row[0] == CellView::Text(start_title())
}

/// Whether a row is the row of titles.
pub fn is_header(row: &[Cell]) -> (r: bool)
    ensures
        r == is_title_row(cells_view(row@)),
{
    if row.len() == 0 {
        return false;
    }
    match &row[0] {
        Cell::Text(text) => {
            let title: String = "Start".to_owned();
            *text == title
        },
        _ => false,
    }
}

/// Whether a row of the sheet stays when everything from the cutoff on is replaced.
pub open spec fn row_stays(row: Seq<CellView>, cutoff: Moment) -> bool {
    !is_title_row(row) && start_stays(row_start_view(row), cutoff)
}

/// Whether the serial number at the start of a row, where there is one, stands for
/// a point in time.
pub open spec fn row_in_range(row: Seq<CellView>) -> bool {
    row.len() > 0 ==> (row[0] matches CellView::Number(number) ==> serial_in_range(
        number_double(number)@,
    ))
}

/// Whether a row of the sheet stays when everything from the cutoff on is replaced.
pub fn stays(row: &[Cell], cutoff: &Timestamp) -> (r: bool)
    requires
        row_in_range(cells_view(row@)),
    ensures
        r == row_stays(cells_view(row@), cutoff@),
{
    if is_header(row) {
        false
    } else {
        row_start(row).stays(cutoff)
    }
}

/// Whether every row is in range.
pub open spec fn rows_in_range(rows: Seq<Seq<CellView>>) -> bool {
    forall|i: int| 0 <= i < rows.len() ==> row_in_range(#[trigger] rows[i])
}

/// Whether the serial number at the start of every row stands for a point in time.
pub fn all_in_range(rows: &Vec<Row>) -> (r: bool)
    ensures
        r == rows_in_range(rows_view(rows@)),
{
    for i in 0..rows.len()
        invariant
            forall|j: int| 0 <= j < i ==> row_in_range(#[trigger] rows_view(rows@)[j]),
    {
        let row: &Row = &rows[i];
        assert(rows_view(rows@)[i as int] == row@);
        if row.cells.len() > 0 {
            assert(row@[0] == row.cells@[0]@);
            if let Cell::Number(number) = &row.cells[0] {
                if !is_serial_in_range(number.as_double()) {
                    return false;
                }
            }
        }
    }
    true
}

/// The rows that stay when everything from the cutoff on is replaced.
pub open spec fn staying(rows: Seq<Seq<CellView>>, cutoff: Moment) -> Seq<Seq<CellView>> {
    rows.filter(|row: Seq<CellView>| row_stays(row, cutoff))
}

/// Picks the rows that stay when everything from the cutoff on is replaced.
pub fn kept_rows(rows: Vec<Row>, cutoff: &Timestamp) -> (kept: Vec<Row>)
    requires
        rows_in_range(rows_view(rows@)),
    ensures
        rows_view(kept@) == staying(rows_view(rows@), cutoff@),
{
    let mut kept: Vec<Row> = Vec::new();
    let ghost all: Seq<Seq<CellView>> = rows_view(rows@);
    let ghost input: Seq<Row> = rows@;
    proof {
        reveal(Seq::filter);
        assert(rows_view(kept@) =~= staying(all.take(0), cutoff@));
    }
    for row in it: rows
        invariant
            it.seq() == input,
            all == rows_view(input),
            rows_in_range(all),
            rows_view(kept@) == staying(all.take(it.index() as int), cutoff@),
    {
        let ghost i: int = it.index() as int;
        proof {
            assert(row == input[i]);
            assert(all[i] == row@);
            assert(all.take(i + 1).drop_last() =~= all.take(i));
            assert(all.take(i + 1).last() == row@);
            reveal(Seq::filter);
        }
        if stays(row.cells.as_slice(), cutoff) {
            let ghost before: Seq<Row> = kept@;
            kept.push(row);
            assert(rows_view(kept@) =~= rows_view(before).push(row@));
        }
        assert(rows_view(kept@) =~= staying(all.take(i + 1), cutoff@));
    }
    assert(all.take(input.len() as int) =~= all);
    kept
}

/// Of the rows of a sheet, exactly those stay that are before the cutoff or of which
/// it is not known when they start, but for the row of titles.
pub proof fn lemma_staying(rows: Seq<Seq<CellView>>, cutoff: Moment, row: Seq<CellView>)
    ensures
        staying(rows, cutoff).contains(row) <==> rows.contains(row) && row_stays(row, cutoff),
    decreases rows.len(),
{
    let p = |row: Seq<CellView>| row_stays(row, cutoff);
    reveal(Seq::filter);
    if rows.len() > 0 {
        let (rest, last) = (rows.drop_last(), rows.last());
        lemma_staying(rest, cutoff, row);
        assert(rows =~= rest.push(last));
        let kept: Seq<Seq<CellView>> = staying(rest, cutoff);
        assert(staying(rows, cutoff) == if p(last) {
            kept.push(last)
        } else {
            kept
        });
        assert(rows.contains(row) <==> rest.contains(row) || row == last) by {
            lemma_push_contains(rest, last, row);
        }
        lemma_push_contains(kept, last, row);
    } else {
        assert(staying(rows, cutoff) =~= rows);
    }
}

proof fn lemma_push_contains<T>(s: Seq<T>, x: T, y: T)
    ensures
        s.push(x).contains(y) <==> s.contains(y) || y == x,
{
    if s.contains(y) {
        let i: int = choose|i: int| 0 <= i < s.len() && s[i] == y;
        assert(s.push(x)[i] == y);
    }
    assert(s.push(x)[s.len() as int] == x);
}

/// A row of which it is not known when it starts stays whatever the cutoff is.
pub proof fn lemma_unknown_stays(row: Seq<CellView>, cutoff: Moment)
    requires
        row_start_view(row) == StartView::Unknown,
        !is_title_row(row),
    ensures
        row_stays(row, cutoff),
{
}

/// A later cutoff drops nothing that an earlier one keeps.
pub proof fn lemma_stays_longer(row: Seq<CellView>, cutoff: Moment, later: Moment)
    requires
        row_stays(row, cutoff),
        !is_before(later, cutoff),
    ensures
        row_stays(row, later),
{
}

/// A text is read as the first of three that it is: an RFC 3339 date and time, a date
/// and time with "UTC" behind it, or one with nothing behind it.
pub proof fn lemma_written_ways(text: Seq<char>, secs: i64, nanos: u32)
    ensures
        ({
            let m = Moment { secs: secs as int, nanos: nanos as int };
            let (utc, bare) = ("%Y-%m-%d %H:%M:%S UTC"@, "%Y-%m-%d %H:%M:%S"@);
            &&& rfc3339_instant(text) == Some((secs, nanos)) ==> written_moment(text) == Some(m)
            &&& rfc3339_instant(text) is None && formatted_instant(text, utc) == Some(
                (secs, nanos),
            ) ==> written_moment(text) == Some(m)
            &&& rfc3339_instant(text) is None && formatted_instant(text, utc) is None
                && formatted_instant(text, bare) == Some((secs, nanos)) ==> written_moment(text)
                == Some(m)
            &&& rfc3339_instant(text) is None && formatted_instant(text, utc) is None
                && formatted_instant(text, bare) is None ==> written_moment(text) is None
        }),
{
}

/// What a row says about its start is kept as it is.
pub proof fn lemma_start_kept(x: Double, t: Timestamp)
    ensures
        RowStart::Serial(x)@ == StartView::Serial(x),
        RowStart::Written(t)@ == StartView::Written(t@),
        RowStart::Unknown@ == StartView::Unknown,
{
}

/// A row that starts with a number stays exactly when the point in time that the
/// number stands for, as a serial number, is before the cutoff.
pub proof fn lemma_number_row_stays(row: Seq<CellView>, number: Number, cutoff: Moment)
    requires
        row.len() > 0,
        row[0] == CellView::Number(number),
    ensures
        row_stays(row, cutoff) <==> is_before(serial_moment(number_double(number)@), cutoff),
        start_stays(StartView::Serial(number_double(number)), cutoff) <==> row_stays(row, cutoff),
{
}

/// A row that starts with a text stays exactly when the point in time that it is read
/// as is before the cutoff, or when it is read as none; only the row of titles does
/// not stay.
pub proof fn lemma_text_row_stays(row: Seq<CellView>, text: Seq<char>, cutoff: Moment)
    requires
        row.len() > 0,
        row[0] == CellView::Text(text),
    ensures
        text == "Start"@ ==> !row_stays(row, cutoff),
        text != "Start"@ && written_moment(text) is None ==> row_stays(row, cutoff),
        text != "Start"@ ==> (written_moment(text) matches Some(m) ==> (row_stays(row, cutoff)
            <==> is_before(m, cutoff))),
        written_moment(text) matches Some(m) ==> (start_stays(StartView::Written(m), cutoff) <==>
            is_before(m, cutoff)),
        is_title_row(row) <==> text == "Start"@,
{
}

/// A row that starts with neither a number nor a text, or has no cells, stays, and is
/// not the row of titles.
pub proof fn lemma_other_row_stays(row: Seq<CellView>, cutoff: Moment)
    requires
        row.len() > 0 ==> !(row[0] is Number) && !(row[0] is Text),
    ensures
        row_stays(row, cutoff),
        start_stays(StartView::Unknown, cutoff),
        !is_title_row(row),
{
}

/// The key of a row is the number that it starts with, or the serial number of the
/// point in time that it starts with as a text, or else zero.
pub proof fn lemma_row_keys(row: Seq<CellView>, number: Number, text: Seq<char>)
    ensures
        row.len() > 0 && row[0] == CellView::Number(number) ==> row_serial(row) == number_double(
            number,
        ),
        row.len() > 0 && row[0] == CellView::Text(text) ==> (written_moment(text) matches Some(m)
            ==> row_serial(row) == serial_of(m)),
        row.len() > 0 && row[0] == CellView::Text(text) && written_moment(text) is None
            ==> row_serial(row)@ == 0,
        row.len() == 0 || (!(row[0] is Number) && !(row[0] is Text)) ==> row_serial(row)@ == 0,
{
    lemma_zero_serial();
}

proof fn lemma_zero_serial()
    ensures
        nearest(0, 1)@ == 0,
        nearest(0, 1).wf(),
{
    lemma_whole_exact(0);
    lemma_whole_nearest(0);
    assert(0 * one() == 0) by (nonlinear_arith);
}

/// Whether a row says that it starts at a point in time, as a number or as a text.
pub open spec fn starts_at(row: Seq<CellView>, m: Moment) -> bool {
    &&& row.len() > 0
    &&& match row[0] {
        CellView::Number(number) => {
            &&& number_double(number).wf()
            &&& m == serial_moment(number_double(number)@)
        },
        CellView::Text(text) => written_moment(text) == Some(m) && is_moment(m.secs, m.nanos),
        _ => false,
    }
}

/// The key of a row comes to the time that the row starts at, within two milliseconds.
proof fn lemma_key_near(row: Seq<CellView>, m: Moment)
    requires
        starts_at(row, m),
    ensures
        row_serial(row).wf(),
        ({
            let nanos = (m.secs + 2_209_161_600) * 1_000_000_000 + m.nanos;
            -2_000_000 < whole_product(row_serial(row)@, 86_400_000) * 1_000_000 - nanos < 2_000_000
        }),
{
    let key: Double = row_serial(row);
    if row[0] is Number {
        lemma_serial_time(key@);
    } else {
        lemma_zero_serial();
        lemma_serial_nearest(m, nearest(0, 1));
        lemma_read_back(m);
        lemma_millis_since_epoch(m);
        lemma_serial_time(key@);
    }
}

/// Of two rows that say when they start, be it as numbers or as texts, the one that
/// starts a second or more earlier has the lesser key.
pub proof fn lemma_earlier_row_first(
    row: Seq<CellView>,
    m: Moment,
    later_row: Seq<CellView>,
    later: Moment,
)
    requires
        starts_at(row, m),
        starts_at(later_row, later),
        m.secs * 1_000_000_000 + m.nanos + 1_000_000_000 <= later.secs * 1_000_000_000
            + later.nanos,
    ensures
        row_serial(row)@ < row_serial(later_row)@,
{
    lemma_key_near(row, m);
    lemma_key_near(later_row, later);
    if row_serial(row)@ >= row_serial(later_row)@ {
        lemma_product_ordered(row_serial(later_row), row_serial(row), 86_400_000);
    }
}

/// The rows that stay are picked one by one, and keep their order: those of two
/// sheets, one below the other, are those of the one and then those of the other.
pub proof fn lemma_staying_parts(
    rows: Seq<Seq<CellView>>,
    below: Seq<Seq<CellView>>,
    row: Seq<CellView>,
    cutoff: Moment,
)
    ensures
        staying(rows + below, cutoff) == staying(rows, cutoff) + staying(below, cutoff),
        row_stays(row, cutoff) ==> staying(seq![row], cutoff) == seq![row],
        !row_stays(row, cutoff) ==> staying(seq![row], cutoff) == Seq::<Seq<CellView>>::empty(),
        staying(seq![], cutoff) == Seq::<Seq<CellView>>::empty(),
{
    let p = |row: Seq<CellView>| row_stays(row, cutoff);
    Seq::filter_distributes_over_add(rows, below, p);
    reveal(Seq::filter);
    let single: Seq<Seq<CellView>> = seq![row];
    assert(single.drop_last() =~= Seq::empty());
    assert(staying(single.drop_last(), cutoff) =~= Seq::empty());
    assert(row_stays(row, cutoff) ==> staying(single, cutoff) =~= single);
    assert(!row_stays(row, cutoff) ==> staying(single, cutoff) =~= Seq::empty());
}

/// Only a number can be out of range: where its product with the milliseconds in a day,
/// cut off, leads out of the years that a point in time can lie in.
pub proof fn lemma_range_of_rows(rows: Seq<Seq<CellView>>, i: int)
    requires
        0 <= i < rows.len(),
    ensures
        rows_in_range(rows) ==> row_in_range(rows[i]),
        (forall|j: int| 0 <= j < rows.len() ==> #[trigger] row_in_range(rows[j]))
            ==> rows_in_range(rows),
        rows[i].len() == 0 || !(rows[i][0] is Number) ==> row_in_range(rows[i]),
        rows[i].len() > 0 ==> (rows[i][0] matches CellView::Number(number) ==> (row_in_range(
            rows[i],
        ) <==> -8_332_392_067_200_000 <= whole_product(number_double(number)@, 86_400_000)
            <= 8_212_476_038_399_999)),
{
    if rows[i].len() > 0 && rows[i][0] is Number {
        lemma_serial_time(number_double(rows[i][0]->Number_0)@);
    }
}

} // verus!
