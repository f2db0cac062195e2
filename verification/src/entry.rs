//! Time entries, and the rows that they become.
use crate::cell::{cells_view, Cell, CellView, Number, Row};
use crate::double::laws::{gap, lemma_none_is_nearer};
use crate::double::rounding::{lemma_quotient_error, lemma_whole_exact, lemma_whole_quotient};
use crate::double::{nearest, one, Double};
use crate::serial::{serial_of, to_serial_number};
use crate::text::{decimal, decimal_text, join, joined, texts};
use crate::timestamp::{Moment, Timestamp};
use vstd::prelude::*;

verus! {

/// A time entry from Toggl's API (v9).
#[derive(Debug, PartialEq, Eq)]
pub struct TogglTimeEntry {
    /// The unique id of the entry.
    pub id: i64,
    pub description: Option<String>,
    pub start: Timestamp,
    pub stop: Option<Timestamp>,
    /// The duration in seconds; negative while the entry is running.
    pub duration: i64,
    pub project_id: Option<i64>,
    pub project_name: Option<String>,
    pub tags: Option<Vec<String>>,
}

/// What a time entry holds.
pub struct EntryView {
    pub id: i64,
    pub description: Option<Seq<char>>,
    pub start: Moment,
    pub stop: Option<Moment>,
    pub duration: i64,
    pub project_id: Option<i64>,
    pub project_name: Option<Seq<char>>,
    pub tags: Option<Seq<Seq<char>>>,
}

/// The text in an optional string.
pub open spec fn optional_text(text: Option<String>) -> Option<Seq<char>> {
    match text {
        Some(text) => Some(text@),
        None => None,
    }
}

impl View for TogglTimeEntry {
    type V = EntryView;

    open spec fn view(&self) -> EntryView {
        EntryView {
            id: self.id,
            description: optional_text(self.description),
            start: self.start@,
            stop: match self.stop {
                Some(t) => Some(t@),
                None => None,
            },
            duration: self.duration,
            project_id: self.project_id,
            project_name: optional_text(self.project_name),
            tags: match self.tags {
                Some(tags) => Some(texts(tags@)),
                None => None,
            },
        }
    }
}

/// A text that may be missing; a missing one is empty.
pub open spec fn text_or_empty(text: Option<Seq<char>>) -> Seq<char> {
    match text {
        Some(text) => text,
        None => seq![],
    }
}

/// A number of seconds in minutes, where the seconds are first rounded to a
/// double and the minutes then again.
pub open spec fn minutes(secs: i64) -> Double {
    nearest(nearest(secs * one(), 1)@, 60)
}

/// The row that a time entry becomes: start, description, duration in minutes,
/// project id, project name, tags and stop. Start and stop are serial numbers.
pub open spec fn entry_row_view(entry: EntryView) -> Seq<CellView> {
    seq![
        CellView::Number(Number::Float(serial_of(entry.start))),
        CellView::Text(text_or_empty(entry.description)),
        CellView::Number(Number::Float(minutes(entry.duration))),
        CellView::Text(
            match entry.project_id {
                Some(id) => decimal(id as int),
                None => seq![],
            },
        ),
        CellView::Text(text_or_empty(entry.project_name)),
        CellView::Text(
            match entry.tags {
                Some(tags) => joined(tags, ", "@),
                None => seq![],
            },
        ),
        match entry.stop {
            Some(stop) => CellView::Number(Number::Float(serial_of(stop))),
            None => CellView::Text("Running"@),
        },
    ]
}

/// A text, or the empty one where it is missing.
fn or_empty(text: &Option<String>) -> (r: String)
    ensures
        r@ == text_or_empty(optional_text(*text)),
{
    match text {
        Some(text) => text.clone(),
        None => String::new(),
    }
}

/// The row for a time entry.
pub fn entry_row(entry: &TogglTimeEntry) -> (row: Row)
    ensures
        row@ == entry_row_view(entry@),
{
    let project_id: String = match entry.project_id {
        Some(id) => decimal_text(id),
        None => String::new(),
    };
    let tags: String = match &entry.tags {
        Some(tags) => join(tags, ", "),
        None => String::new(),
    };
    let stop: Cell = match entry.stop {
        Some(t) => Cell::Number(Number::Float(to_serial_number(t))),
        None => Cell::Text("Running".to_owned()),
    };
    let cells: Vec<Cell> = vec![
        Cell::Number(Number::Float(to_serial_number(entry.start))),
        Cell::Text(or_empty(&entry.description)),
        Cell::Number(Number::Float(Double::quotient(entry.duration, 60))),
        Cell::Text(project_id),
        Cell::Text(or_empty(&entry.project_name)),
        Cell::Text(tags),
        stop,
    ];
    assert(cells_view(cells@) =~= entry_row_view(entry@));
    Row { cells }
}

/// A time entry is viewed with all that it holds.
pub proof fn lemma_entry_kept_whole(entry: TogglTimeEntry)
    ensures
        entry@.id == entry.id,
        entry.description matches Some(text) ==> entry@.description == Some(text@),
        entry.description is None ==> entry@.description is None,
        entry@.start == entry.start@,
        entry.stop matches Some(t) ==> entry@.stop == Some(t@),
        entry.stop is None ==> entry@.stop is None,
        entry@.duration == entry.duration,
        entry@.project_id == entry.project_id,
        entry.project_name matches Some(text) ==> entry@.project_name == Some(text@),
        entry.project_name is None ==> entry@.project_name is None,
        entry.tags matches Some(tags) ==> entry@.tags == Some(texts(tags@)),
        entry.tags is None ==> entry@.tags is None,
{
}

/// Each field of an entry shows in a cell of its own, whatever the other fields are,
/// and a field that is missing leaves its cell empty. An entry without a stop is
/// running.
pub proof fn lemma_entry_cells(entry: EntryView)
    ensures
        entry_row_view(entry).len() == 7,
        entry_row_view(entry)[0] == CellView::Number(Number::Float(serial_of(entry.start))),
        entry.description matches Some(text) ==> entry_row_view(entry)[1] == CellView::Text(text),
        entry.description is None ==> entry_row_view(entry)[1] == CellView::Text(seq![]),
        entry_row_view(entry)[2] == CellView::Number(Number::Float(minutes(entry.duration))),
        entry.project_id matches Some(id) ==> entry_row_view(entry)[3] == CellView::Text(
            decimal(id as int),
        ),
        entry.project_id is None ==> entry_row_view(entry)[3] == CellView::Text(seq![]),
        entry.project_name matches Some(text) ==> entry_row_view(entry)[4] == CellView::Text(text),
        entry.project_name is None ==> entry_row_view(entry)[4] == CellView::Text(seq![]),
        entry.tags matches Some(tags) ==> entry_row_view(entry)[5] == CellView::Text(
            joined(tags, ", "@),
        ),
        entry.tags is None ==> entry_row_view(entry)[5] == CellView::Text(seq![]),
        entry.stop matches Some(stop) ==> entry_row_view(entry)[6] == CellView::Number(
            Number::Float(serial_of(stop)),
        ),
        entry.stop is None ==> entry_row_view(entry)[6] == CellView::Text("Running"@),
{
}

/// No double is nearer to a number of minutes than the one that it is written as, and
/// whole minutes are written as they are. This holds of seconds that a double holds;
/// more than these are rounded to a double first.
pub proof fn lemma_minutes_nearest(secs: i64, y: Double)
    requires
        y.wf(),
    ensures
        -0x20_0000_0000_0000 <= secs <= 0x20_0000_0000_0000 ==> {
            let x = minutes(secs);
            &&& x.wf()
            &&& gap(x@ * 60, secs * one()) <= gap(y@ * 60, secs * one())
            &&& gap(x@ * 60, secs * one()) == gap(y@ * 60, secs * one()) && x@ != y@
                ==> x.is_even()
            &&& secs % 60 == 0 ==> x@ == (secs as int / 60) * one()
        },
        minutes(secs) == nearest(nearest(secs * one(), 1)@, 60),
{
    if -0x20_0000_0000_0000 <= secs <= 0x20_0000_0000_0000 {
        lemma_whole_exact(secs as int);
        lemma_quotient_error(secs as int, 60);
        lemma_none_is_nearer(minutes(secs), y, secs * one(), 60);
        if secs % 60 == 0 {
            lemma_whole_quotient(secs as int / 60, 60);
        }
    }
}

} // verus!
