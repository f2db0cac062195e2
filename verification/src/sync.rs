//! The course of a sync: what is asked of Toggl and of Google Sheets, one request
//! after the other, and what follows from each reply.
use crate::cell::{rows_view, CellView, Row};
use crate::content::{
    entries_view, header_view, is_content, lemma_content_fits, rows_fit, sheet_content,
};
use crate::entry::{entry_row_view, optional_text, EntryView, TogglTimeEntry};
use crate::sheet::rows_in_range;
use crate::timestamp::{rfc3339_text, weeks_before, Moment, Timestamp, MIN_SECS};
use vstd::prelude::*;
use vstd::string::StringExecFns;

verus! {

/// The title of the sheet that time entries are written to.
pub const GOOGLE_SHEET_NAME: &'static str = "toggl_entries";

/// What a sheet is known by.
#[derive(Debug)]
pub struct SheetProperties {
    pub title: Option<String>,
}

/// A sheet of a spreadsheet.
#[derive(Debug)]
pub struct SheetInfo {
    pub properties: Option<SheetProperties>,
}

/// The title of a sheet, where it has one.
pub open spec fn sheet_title(sheet: SheetInfo) -> Option<Seq<char>> {
    match sheet.properties {
        Some(properties) => optional_text(properties.title),
        None => None,
    }
}

/// The titles of the sheets of a spreadsheet.
pub open spec fn sheet_titles(sheets: Option<Vec<SheetInfo>>) -> Seq<Option<Seq<char>>> {
    match sheets {
        Some(sheets) => sheets@.map_values(|sheet: SheetInfo| sheet_title(sheet)),
        None => seq![],
    }
}

/// Whether a sheet with our title is among the sheets of a spreadsheet.
pub fn sheet_exists(sheets: &Option<Vec<SheetInfo>>) -> (r: bool)
    ensures
        r == sheet_titles(*sheets).contains(Some(GOOGLE_SHEET_NAME@)),
{
    let name: String = GOOGLE_SHEET_NAME.to_owned();
    let ghost titles: Seq<Option<Seq<char>>> = sheet_titles(*sheets);
    if let Some(list) = sheets {
        for i in 0..list.len()
            invariant
                titles == sheet_titles(*sheets),
                titles == list@.map_values(|sheet: SheetInfo| sheet_title(sheet)),
                name@ == GOOGLE_SHEET_NAME@,
                forall|j: int| 0 <= j < i ==> #[trigger] titles[j] != Some(GOOGLE_SHEET_NAME@),
        {
            assert(titles[i as int] == sheet_title(list@[i as int]));
            if let Some(properties) = &list[i].properties {
                if let Some(title) = &properties.title {
                    if *title == name {
                        return true;
                    }
                }
            }
        }
    }
    false
}

/// A range of cells of our sheet.
pub open spec fn range_view(cells: Seq<char>) -> Seq<char> {
    "'"@ + GOOGLE_SHEET_NAME@ + "'!"@ + cells
}

/// A range of cells of our sheet, in A1 notation.
pub fn sheet_range(cells: &str) -> (range: String)
    ensures
        range@ == range_view(cells@),
{
    let mut range: String = "'".to_owned();
    range.append(GOOGLE_SHEET_NAME);
    range.append("'!");
    range.append(cells);
    range
}

/// A request to Toggl for time entries: what is to be got, with basic authentication.
#[derive(Debug)]
pub struct EntriesRequest {
    pub url: String,
    /// The API token, in place of a user name.
    pub user: String,
    /// The password that goes with an API token.
    pub password: String,
    pub query: Vec<(String, String)>,
}

/// What a request to Toggl for time entries says.
pub struct EntriesRequestView {
    pub url: Seq<char>,
    pub user: Seq<char>,
    pub password: Seq<char>,
    pub query: Seq<(Seq<char>, Seq<char>)>,
}

impl View for EntriesRequest {
    type V = EntriesRequestView;

    open spec fn view(&self) -> EntriesRequestView {
        EntriesRequestView {
            url: self.url@,
            user: self.user@,
            password: self.password@,
            query: self.query@.map_values(|pair: (String, String)| (pair.0@, pair.1@)),
        }
    }
}

/// The text of a point in time in a query.
pub open spec fn query_time(m: Moment) -> Seq<char> {
    rfc3339_text(m.secs as i64, m.nanos as u32)
}

/// The request, made with an API token, for the time entries between two points in
/// time, which are given as texts, with their project's names among them.
pub open spec fn request_between(
    api_token: Seq<char>,
    start: Seq<char>,
    end: Seq<char>,
) -> EntriesRequestView {
    EntriesRequestView {
        url: "https://api.track.toggl.com/api/v9/me/time_entries"@,
        user: api_token,
        password: "api_token"@,
        query: seq![("start_date"@, start), ("end_date"@, end), ("meta"@, "true"@)],
    }
}

/// The request, made with an API token, for the time entries between two points in time.
pub open spec fn entries_request_view(
    api_token: Seq<char>,
    start: Moment,
    end: Moment,
) -> EntriesRequestView {
    request_between(api_token, query_time(start), query_time(end))
}

/// The request for the time entries between two points in time, given as texts.
pub fn entries_request_for(api_token: &str, start: String, end: String) -> (request: EntriesRequest)
    ensures
        request@ == request_between(api_token@, start@, end@),
{
    let ghost expected: EntriesRequestView = request_between(api_token@, start@, end@);
    let request = EntriesRequest {
        url: "https://api.track.toggl.com/api/v9/me/time_entries".to_owned(),
        user: api_token.to_owned(),
        password: "api_token".to_owned(),
        query: vec![
            ("start_date".to_owned(), start),
            ("end_date".to_owned(), end),
            ("meta".to_owned(), "true".to_owned()),
        ],
    };
    assert(request@.query =~= expected.query);
    request
}

/// The request for the time entries between two timestamps.
pub fn entries_request(api_token: &str, start: &Timestamp, end: &Timestamp) -> (request:
    EntriesRequest)
    ensures
        request@ == entries_request_view(api_token@, start@, end@),
{
    entries_request_for(api_token, start.to_rfc3339(), end.to_rfc3339())
}

/// Whether the status of a response says that the request succeeded.
pub open spec fn is_success_status(status: u16) -> bool {
    200 <= status < 300
}

/// Whether the status of a response says that the request succeeded.
pub fn is_success(status: u16) -> (r: bool)
    ensures
        r == is_success_status(status),
{
    200 <= status && status < 300
}

/// What is said of a request that Toggl refused.
pub fn api_error_message(text: &str) -> (message: String)
    ensures
        message@ == "Toggl API Error: "@ + text@,
{
    let mut message: String = "Toggl API Error: ".to_owned();
    message.append(text);
    message
}

/// Why a sync ends before its end.
#[derive(Debug)]
pub enum Failure {
    /// The last request failed.
    Request,
    /// Toggl refused the request for time entries, with this message.
    Api(String),
}

/// What is to be done next.
#[derive(Debug)]
pub enum Request {
    /// Ask Toggl for time entries.
    FetchEntries(EntriesRequest),
    /// Read the response of Toggl as a text.
    ReadErrorText,
    /// Read the response of Toggl as time entries.
    ReadEntries,
    /// Ask for the sheets of the spreadsheet.
    GetSpreadsheet { spreadsheet_id: String },
    /// Add a sheet to the spreadsheet.
    AddSheet { spreadsheet_id: String, title: String },
    /// Read the values in a range, rendered in this way.
    ReadValues { spreadsheet_id: String, range: String, render: String },
    /// Clear the values in a range.
    ClearValues { spreadsheet_id: String, range: String },
    /// Write rows to a range, taken in this way.
    WriteValues { spreadsheet_id: String, range: String, input: String, rows: Vec<Row> },
    /// Nothing: the sync is done.
    Finish,
    /// Nothing: the sync has failed.
    Fail(Failure),
}

/// What came of a request.
#[derive(Debug)]
pub enum Reply {
    /// The request failed.
    Failed,
    /// Toggl responded with this status.
    Status(u16),
    /// The response of Toggl, as a text.
    ErrorText(String),
    /// The response of Toggl, as time entries.
    Entries(Vec<TogglTimeEntry>),
    /// The sheets of the spreadsheet.
    Spreadsheet(Option<Vec<SheetInfo>>),
    /// The sheet was added.
    SheetAdded,
    /// The rows that were read.
    Values(Option<Vec<Row>>),
    /// The values were cleared.
    Cleared,
    /// The rows were written.
    Written,
}

/// Which reply a sync waits for, and what it holds meanwhile.
#[derive(Debug)]
enum Stage {
    Fetching,
    ReadingErrorText,
    ReadingEntries,
    LookingUp(Vec<TogglTimeEntry>),
    Adding(Vec<TogglTimeEntry>),
    Reading(Vec<TogglTimeEntry>),
    Clearing(Vec<Row>),
    Writing,
    Ended,
}

/// A sync to a spreadsheet that is under way. Everything in the sheet from the cutoff
/// on is replaced.
#[derive(Debug)]
pub struct SyncTask {
    spreadsheet_id: String,
    cutoff: Timestamp,
    stage: Stage,
}

/// What is to be done next.
pub enum RequestView {
    FetchEntries(EntriesRequestView),
    ReadErrorText,
    ReadEntries,
    GetSpreadsheet { spreadsheet_id: Seq<char> },
    AddSheet { spreadsheet_id: Seq<char>, title: Seq<char> },
    ReadValues { spreadsheet_id: Seq<char>, range: Seq<char>, render: Seq<char> },
    ClearValues { spreadsheet_id: Seq<char>, range: Seq<char> },
    WriteValues {
        spreadsheet_id: Seq<char>,
        range: Seq<char>,
        input: Seq<char>,
        rows: Seq<Seq<CellView>>,
    },
    Finish,
    FailRequest,
    FailApi(Seq<char>),
}

/// What came of a request.
pub enum ReplyView {
    Failed,
    Status(u16),
    ErrorText(Seq<char>),
    Entries(Seq<EntryView>),
    Spreadsheet(Seq<Option<Seq<char>>>),
    SheetAdded,
    Values(Seq<Seq<CellView>>),
    Cleared,
    Written,
}

/// Which reply a sync waits for, and what it holds meanwhile.
pub enum StageView {
    /// For the status of the response of Toggl.
    Fetching,
    /// For the text of a response that says that the request was refused.
    ReadingErrorText,
    /// For the time entries in the response.
    ReadingEntries,
    /// For the sheets of the spreadsheet, with the time entries to write.
    LookingUp(Seq<EntryView>),
    /// For the sheet to be added, with the time entries to write.
    Adding(Seq<EntryView>),
    /// For the rows of the sheet, with the time entries to write.
    Reading(Seq<EntryView>),
    /// For the sheet to be cleared, with the rows to write.
    Clearing(Seq<Seq<CellView>>),
    /// For the rows to be written.
    Writing,
    /// For nothing.
    Ended,
}

/// A sync that is under way.
pub struct TaskView {
    pub spreadsheet_id: Seq<char>,
    pub cutoff: Moment,
    pub stage: StageView,
}

impl View for Request {
    type V = RequestView;

    open spec fn view(&self) -> RequestView {
        match self {
            Request::FetchEntries(request) => RequestView::FetchEntries(request@),
            Request::ReadErrorText => RequestView::ReadErrorText,
            Request::ReadEntries => RequestView::ReadEntries,
            Request::GetSpreadsheet { spreadsheet_id } => RequestView::GetSpreadsheet {
                spreadsheet_id: spreadsheet_id@,
            },
            Request::AddSheet { spreadsheet_id, title } => RequestView::AddSheet {
                spreadsheet_id: spreadsheet_id@,
                title: title@,
            },
            Request::ReadValues { spreadsheet_id, range, render } => RequestView::ReadValues {
                spreadsheet_id: spreadsheet_id@,
                range: range@,
                render: render@,
            },
            Request::ClearValues { spreadsheet_id, range } => RequestView::ClearValues {
                spreadsheet_id: spreadsheet_id@,
                range: range@,
            },
            Request::WriteValues { spreadsheet_id, range, input, rows } => {
                RequestView::WriteValues {
                    spreadsheet_id: spreadsheet_id@,
                    range: range@,
                    input: input@,
                    rows: rows_view(rows@),
                }
            },
            Request::Finish => RequestView::Finish,
            Request::Fail(Failure::Request) => RequestView::FailRequest,
            Request::Fail(Failure::Api(message)) => RequestView::FailApi(message@),
        }
    }
}

impl View for Reply {
    type V = ReplyView;

    open spec fn view(&self) -> ReplyView {
        match self {
            Reply::Failed => ReplyView::Failed,
            Reply::Status(status) => ReplyView::Status(*status),
            Reply::ErrorText(text) => ReplyView::ErrorText(text@),
            Reply::Entries(entries) => ReplyView::Entries(entries_view(entries@)),
            Reply::Spreadsheet(sheets) => ReplyView::Spreadsheet(sheet_titles(*sheets)),
            Reply::SheetAdded => ReplyView::SheetAdded,
            Reply::Values(Some(rows)) => ReplyView::Values(rows_view(rows@)),
            Reply::Values(None) => ReplyView::Values(seq![]),
            Reply::Cleared => ReplyView::Cleared,
            Reply::Written => ReplyView::Written,
        }
    }
}

impl View for SyncTask {
    type V = TaskView;

    closed spec fn view(&self) -> TaskView {
        TaskView {
            spreadsheet_id: self.spreadsheet_id@,
            cutoff: self.cutoff@,
            stage: match self.stage {
                Stage::Fetching => StageView::Fetching,
                Stage::ReadingErrorText => StageView::ReadingErrorText,
                Stage::ReadingEntries => StageView::ReadingEntries,
                Stage::LookingUp(entries) => StageView::LookingUp(entries_view(entries@)),
                Stage::Adding(entries) => StageView::Adding(entries_view(entries@)),
                Stage::Reading(entries) => StageView::Reading(entries_view(entries@)),
                Stage::Clearing(rows) => StageView::Clearing(rows_view(rows@)),
                Stage::Writing => StageView::Writing,
                Stage::Ended => StageView::Ended,
            },
        }
    }
}

/// The first columns of a sheet, in A1 notation. They have letters for names: there
/// are at least one and at most 26 of them.
pub open spec fn first_columns(columns: nat) -> Seq<char> {
    seq!['A', ':', ('A' as int + columns - 1) as char]
}

/// The request to read what the sheet holds. Serial numbers are to come as numbers.
pub open spec fn read_request(spreadsheet_id: Seq<char>) -> RequestView {
    RequestView::ReadValues {
        spreadsheet_id,
        range: range_view("A:G"@),
        render: "UNFORMATTED_VALUE"@,
    }
}

/// The request to clear the sheet, so that nothing stale remains where there are fewer
/// rows than before.
pub open spec fn clear_request(spreadsheet_id: Seq<char>) -> RequestView {
    RequestView::ClearValues { spreadsheet_id, range: range_view("A:G"@) }
}

/// The request to write rows to the sheet. Numbers are to be taken for dates where
/// the sheet shows dates.
pub open spec fn write_request(
    spreadsheet_id: Seq<char>,
    rows: Seq<Seq<CellView>>,
) -> RequestView {
    RequestView::WriteValues {
        spreadsheet_id,
        range: range_view("A1"@),
        input: "USER_ENTERED"@,
        rows,
    }
}

/// The spreadsheet that a request goes to, where it goes to one.
pub open spec fn request_spreadsheet(request: RequestView) -> Option<Seq<char>> {
    match request {
        RequestView::GetSpreadsheet { spreadsheet_id } => Some(spreadsheet_id),
        RequestView::AddSheet { spreadsheet_id, .. } => Some(spreadsheet_id),
        RequestView::ReadValues { spreadsheet_id, .. } => Some(spreadsheet_id),
        RequestView::ClearValues { spreadsheet_id, .. } => Some(spreadsheet_id),
        RequestView::WriteValues { spreadsheet_id, .. } => Some(spreadsheet_id),
        _ => None,
    }
}

/// Whether a sync waits for a reply of this kind.
pub open spec fn awaits(stage: StageView, reply: ReplyView) -> bool {
    match reply {
        ReplyView::Failed => !(stage is Ended),
        ReplyView::Status(_) => stage is Fetching,
        ReplyView::ErrorText(_) => stage is ReadingErrorText,
        ReplyView::Entries(_) => stage is ReadingEntries,
        ReplyView::Spreadsheet(_) => stage is LookingUp,
        ReplyView::SheetAdded => stage is Adding,
        ReplyView::Values(_) => stage is Reading,
        ReplyView::Cleared => stage is Clearing,
        ReplyView::Written => stage is Writing,
    }
}

/// What a reply shows the sheet to hold: where reading failed, nothing.
pub open spec fn existing_rows(reply: ReplyView) -> Seq<Seq<CellView>> {
    match reply {
        ReplyView::Values(rows) => rows,
        _ => seq![],
    }
}

/// Whether a sync goes on in this way from a stage after a reply. Every failure
/// ends it, but that to read what the sheet holds, and so does a reply that it does
/// not wait for.
pub open spec fn follows(
    spreadsheet_id: Seq<char>,
    cutoff: Moment,
    stage: StageView,
    reply: ReplyView,
    next: StageView,
    request: RequestView,
) -> bool {
    match (stage, reply) {
        (StageView::Fetching, ReplyView::Status(status)) => if is_success_status(status) {
            next == StageView::ReadingEntries && request == RequestView::ReadEntries
        } else {
            next == StageView::ReadingErrorText && request == RequestView::ReadErrorText
        },
        (StageView::ReadingErrorText, ReplyView::ErrorText(text)) => {
            next == StageView::Ended && request == RequestView::FailApi(
                "Toggl API Error: "@ + text,
            )
        },
        (StageView::ReadingEntries, ReplyView::Entries(entries)) => {
            next == StageView::LookingUp(entries) && request == (RequestView::GetSpreadsheet {
                spreadsheet_id,
            })
        },
        (StageView::LookingUp(entries), ReplyView::Spreadsheet(titles)) => {
            if titles.contains(Some(GOOGLE_SHEET_NAME@)) {
                next == StageView::Reading(entries) && request == read_request(spreadsheet_id)
            } else {
                next == StageView::Adding(entries) && request == (RequestView::AddSheet {
                    spreadsheet_id,
                    title: GOOGLE_SHEET_NAME@,
                })
            }
        },
        (StageView::Adding(entries), ReplyView::SheetAdded) => {
            next == StageView::Reading(entries) && request == read_request(spreadsheet_id)
        },
        (StageView::Reading(entries), ReplyView::Values(_) | ReplyView::Failed) => {
            &&& next matches StageView::Clearing(rows)
            &&& is_content(existing_rows(reply), entries, cutoff, rows)
            &&& request == clear_request(spreadsheet_id)
        },
        (StageView::Clearing(rows), ReplyView::Cleared) => {
            next == StageView::Writing && request == write_request(spreadsheet_id, rows)
        },
        (StageView::Writing, ReplyView::Written) => {
            next == StageView::Ended && request == RequestView::Finish
        },
        _ => next == StageView::Ended && request == RequestView::FailRequest,
    }
}

fn read_values(spreadsheet_id: String) -> (request: Request)
    ensures
        request@ == read_request(spreadsheet_id@),
{
    Request::ReadValues {
        spreadsheet_id,
        range: sheet_range("A:G"),
        render: "UNFORMATTED_VALUE".to_owned(),
    }
}

fn clear_values(spreadsheet_id: String) -> (request: Request)
    ensures
        request@ == clear_request(spreadsheet_id@),
{
    Request::ClearValues { spreadsheet_id, range: sheet_range("A:G") }
}

/// Starts to write time entries to the sheet of a spreadsheet, in place of everything
/// that it holds from the cutoff on.
pub fn sync_sheet(spreadsheet_id: &str, entries: Vec<TogglTimeEntry>, cutoff: Timestamp) -> (r: (
    SyncTask,
    Request,
))
    ensures
        r.0@ == (TaskView {
            spreadsheet_id: spreadsheet_id@,
            cutoff: cutoff@,
            stage: StageView::LookingUp(entries_view(entries@)),
        }),
        r.1@ == (RequestView::GetSpreadsheet { spreadsheet_id: spreadsheet_id@ }),
{
    (
        SyncTask {
            spreadsheet_id: spreadsheet_id.to_owned(),
            cutoff,
            stage: Stage::LookingUp(entries),
        },
        Request::GetSpreadsheet { spreadsheet_id: spreadsheet_id.to_owned() },
    )
}

/// Starts a sync of the week before a point in time: its time entries are asked for
/// with an API token, to be written to a spreadsheet in place of everything in the
/// sheet from the start of the week on.
pub fn run_sync_task(toggl_token: &str, spreadsheet_id: &str, now: Timestamp) -> (r: (
    SyncTask,
    Request,
))
    requires
        MIN_SECS <= weeks_before(now@, 1).secs,
    ensures
        r.0@ == (TaskView {
            spreadsheet_id: spreadsheet_id@,
            cutoff: weeks_before(now@, 1),
            stage: StageView::Fetching,
        }),
        r.1@ == RequestView::FetchEntries(
            entries_request_view(toggl_token@, weeks_before(now@, 1), now@),
        ),
{
    let start: Timestamp = now.minus_weeks(1);
    let request: EntriesRequest = entries_request(toggl_token, &start, &now);
    (
        SyncTask {
            spreadsheet_id: spreadsheet_id.to_owned(),
            cutoff: start,
            stage: Stage::Fetching,
        },
        Request::FetchEntries(request),
    )
}

impl SyncTask {
    /// Goes on after a reply to the last request.
    pub fn step(self, reply: Reply) -> (r: (SyncTask, Request))
        requires
            reply@ matches ReplyView::Values(rows) ==> rows_in_range(rows),
        ensures
            r.0@.spreadsheet_id == self@.spreadsheet_id,
            r.0@.cutoff == self@.cutoff,
            follows(
                self@.spreadsheet_id,
                self@.cutoff,
                self@.stage,
                reply@,
                r.0@.stage,
                r.1@,
            ),
    {
        let cutoff: Timestamp = self.cutoff;
        let spreadsheet_id: String = self.spreadsheet_id;
        let target: String = spreadsheet_id.clone();
        let (stage, request): (Stage, Request) = match (self.stage, reply) {
            (Stage::Fetching, Reply::Status(status)) => if is_success(status) {
                (Stage::ReadingEntries, Request::ReadEntries)
            } else {
                (Stage::ReadingErrorText, Request::ReadErrorText)
            },
            (Stage::ReadingErrorText, Reply::ErrorText(text)) => (
                Stage::Ended,
                Request::Fail(Failure::Api(api_error_message(text.as_str()))),
            ),
            (Stage::ReadingEntries, Reply::Entries(entries)) => {
                return sync_sheet(spreadsheet_id.as_str(), entries, cutoff);
            },
            (Stage::LookingUp(entries), Reply::Spreadsheet(sheets)) => if sheet_exists(&sheets) {
                (Stage::Reading(entries), read_values(target))
            } else {
                (
                    Stage::Adding(entries),
                    Request::AddSheet {
                        spreadsheet_id: target,
                        title: GOOGLE_SHEET_NAME.to_owned(),
                    },
                )
            },
            (Stage::Adding(entries), Reply::SheetAdded) => (
                Stage::Reading(entries),
                read_values(target),
            ),
            (Stage::Reading(entries), Reply::Values(values)) => {
                let existing: Vec<Row> = match values {
                    Some(rows) => rows,
                    None => Vec::new(),
                };
                assert(rows_view(existing@) =~= existing_rows(reply@));
                let rows: Vec<Row> = sheet_content(existing, &entries, &cutoff);
                (Stage::Clearing(rows), clear_values(target))
            },
            (Stage::Reading(entries), Reply::Failed) => {
                let existing: Vec<Row> = Vec::new();
                assert(rows_view(existing@) =~= existing_rows(reply@));
                let rows: Vec<Row> = sheet_content(existing, &entries, &cutoff);
                (Stage::Clearing(rows), clear_values(target))
            },
            (Stage::Clearing(rows), Reply::Cleared) => (
                Stage::Writing,
                Request::WriteValues {
                    spreadsheet_id: target,
                    range: sheet_range("A1"),
                    input: "USER_ENTERED".to_owned(),
                    rows,
                },
            ),
            (Stage::Writing, Reply::Written) => (Stage::Ended, Request::Finish),
            _ => (Stage::Ended, Request::Fail(Failure::Request)),
        };
        (SyncTask { spreadsheet_id, cutoff, stage }, request)
    }
}

/// How many replies a sync can still wait for.
pub open spec fn replies_left(stage: StageView) -> nat {
    match stage {
        StageView::Fetching => 7,
        StageView::ReadingErrorText => 1,
        StageView::ReadingEntries => 6,
        StageView::LookingUp(_) => 5,
        StageView::Adding(_) => 4,
        StageView::Reading(_) => 3,
        StageView::Clearing(_) => 2,
        StageView::Writing => 1,
        StageView::Ended => 0,
    }
}

/// Every reply brings a sync nearer to its end, and it ends exactly where there is
/// nothing more to be done.
pub proof fn lemma_comes_to_an_end(
    spreadsheet_id: Seq<char>,
    cutoff: Moment,
    stage: StageView,
    reply: ReplyView,
    next: StageView,
    request: RequestView,
)
    requires
        !(stage is Ended),
        follows(spreadsheet_id, cutoff, stage, reply, next, request),
    ensures
        replies_left(next) < replies_left(stage),
        replies_left(next) == 0 <==> request is Finish || request is FailRequest
            || request is FailApi,
{
}

/// A failure ends a sync, unless it was to read what the sheet holds.
pub proof fn lemma_failure_ends(
    spreadsheet_id: Seq<char>,
    cutoff: Moment,
    stage: StageView,
    next: StageView,
    request: RequestView,
)
    requires
        follows(spreadsheet_id, cutoff, stage, ReplyView::Failed, next, request),
        !(stage is Reading),
    ensures
        next == StageView::Ended,
        request == RequestView::FailRequest,
{
}

/// A reply that a sync does not wait for ends it: nothing is read into the reply.
pub proof fn lemma_stray_reply_ends(
    spreadsheet_id: Seq<char>,
    cutoff: Moment,
    stage: StageView,
    reply: ReplyView,
    next: StageView,
    request: RequestView,
)
    requires
        !awaits(stage, reply),
        follows(spreadsheet_id, cutoff, stage, reply, next, request),
    ensures
        next == StageView::Ended,
        request == RequestView::FailRequest,
{
}

/// Every request to Google Sheets goes to the spreadsheet that the sync is for.
pub proof fn lemma_one_spreadsheet(
    spreadsheet_id: Seq<char>,
    cutoff: Moment,
    stage: StageView,
    reply: ReplyView,
    next: StageView,
    request: RequestView,
)
    requires
        follows(spreadsheet_id, cutoff, stage, reply, next, request),
    ensures
        request_spreadsheet(request) matches Some(id) ==> id == spreadsheet_id,
{
}

/// One step of a sync: from a stage, by a reply, to the next stage and request.
pub struct StepView {
    pub stage: StageView,
    pub reply: ReplyView,
    pub next: StageView,
    pub request: RequestView,
}

/// Whether these are the steps of a sync to this spreadsheet with this cutoff, from its
/// start on.
pub open spec fn is_run(
    spreadsheet_id: Seq<char>,
    cutoff: Moment,
    steps: Seq<StepView>,
) -> bool {
    &&& steps.len() > 0 ==> steps[0].stage == StageView::Fetching
    &&& forall|i: int|
        0 <= i < steps.len() ==> {
            let step = #[trigger] steps[i];
            &&& !(step.stage is Ended)
            &&& follows(
                spreadsheet_id,
                cutoff,
                step.stage,
                step.reply,
                step.next,
                step.request,
            )
        }
    &&& forall|i: int, j: int|
        0 <= i < steps.len() && j == i + 1 && j < steps.len() ==> #[trigger] steps[j].stage
            == #[trigger] steps[i].next
}

/// The time entries that a sync holds are those that Toggl sent.
proof fn lemma_holds_sent_entries(
    spreadsheet_id: Seq<char>,
    cutoff: Moment,
    steps: Seq<StepView>,
    i: int,
)
    requires
        is_run(spreadsheet_id, cutoff, steps),
        0 <= i < steps.len(),
    ensures
        ({
            let held = match steps[i].stage {
                StageView::LookingUp(entries) => Some(entries),
                StageView::Adding(entries) => Some(entries),
                StageView::Reading(entries) => Some(entries),
                _ => None,
            };
            held matches Some(entries) ==> exists|j: int|
                0 <= j < i && #[trigger] steps[j].reply == ReplyView::Entries(entries)
        }),
    decreases i,
{
    if i > 0 {
        lemma_holds_sent_entries(spreadsheet_id, cutoff, steps, i - 1);
        let before: StepView = steps[i - 1];
        assert(steps[i].stage == before.next);
    }
}

/// Whatever a sync writes to the sheet is the content that follows from the time
/// entries that Toggl sent and from what the sheet was read to hold; the sheet was
/// cleared just before.
pub proof fn lemma_writes_content(
    spreadsheet_id: Seq<char>,
    cutoff: Moment,
    steps: Seq<StepView>,
    i: int,
)
    requires
        is_run(spreadsheet_id, cutoff, steps),
        0 <= i < steps.len(),
        steps[i].request is WriteValues,
    ensures
        steps[i].reply == ReplyView::Cleared,
        i >= 2,
        steps[i - 1].request == clear_request(spreadsheet_id),
        exists|entries: Seq<EntryView>, rows: Seq<Seq<CellView>>, j: int|
            {
                &&& 0 <= j < i
                &&& #[trigger] steps[j].reply == ReplyView::Entries(entries)
                &&& steps[i].request == write_request(spreadsheet_id, rows)
                &&& #[trigger] is_content(
                    existing_rows(steps[i - 1].reply),
                    entries,
                    cutoff,
                    rows,
                )
            },
{
    let step: StepView = steps[i];
    assert(follows(
        spreadsheet_id,
        cutoff,
        step.stage,
        step.reply,
        step.next,
        step.request,
    ));
    assert(step.stage is Clearing);
    let rows: Seq<Seq<CellView>> = step.stage->Clearing_0;
    let before: StepView = steps[i - 1];
    assert(steps[i].stage == before.next);
    assert(follows(
        spreadsheet_id,
        cutoff,
        before.stage,
        before.reply,
        before.next,
        before.request,
    ));
    assert(before.stage is Reading);
    let entries: Seq<EntryView> = before.stage->Reading_0;
    lemma_holds_sent_entries(spreadsheet_id, cutoff, steps, i - 1);
    let j: int = choose|j: int|
        0 <= j < i - 1 && #[trigger] steps[j].reply == ReplyView::Entries(entries);
    assert(is_content(existing_rows(before.reply), entries, cutoff, rows));
    assert(steps[j].reply == ReplyView::Entries(entries));
}

/// The columns that are read and cleared are those of the titles. Every entry fills
/// just these, and nothing is written beyond them where nothing was read beyond them:
/// no cell that a sync writes is left over when the sheet is cleared, and none is
/// lost when the sheet is read.
pub proof fn lemma_columns_covered(
    spreadsheet_id: Seq<char>,
    existing: Seq<Seq<CellView>>,
    entries: Seq<EntryView>,
    cutoff: Moment,
    content: Seq<Seq<CellView>>,
)
    requires
        is_content(existing, entries, cutoff, content),
        rows_fit(existing, header_view().len()),
    ensures
        clear_request(spreadsheet_id) == (RequestView::ClearValues {
            spreadsheet_id,
            range: range_view(first_columns(header_view().len())),
        }),
        read_request(spreadsheet_id) == (RequestView::ReadValues {
            spreadsheet_id,
            range: range_view(first_columns(header_view().len())),
            render: "UNFORMATTED_VALUE"@,
        }),
        forall|entry: EntryView| #[trigger] entry_row_view(entry).len() == header_view().len(),
        rows_fit(content, header_view().len()),
{
    reveal_strlit("A:G");
    assert("A:G"@ =~= first_columns(header_view().len()));
    lemma_content_fits(existing, entries, cutoff, content);
}

/// Nothing is asked of Google Sheets before Toggl sent time entries: where fetching
/// them fails, the spreadsheet is left as it is.
pub proof fn lemma_fetches_first(
    spreadsheet_id: Seq<char>,
    cutoff: Moment,
    steps: Seq<StepView>,
    i: int,
)
    requires
        is_run(spreadsheet_id, cutoff, steps),
        0 <= i < steps.len(),
        steps[i].request is GetSpreadsheet || steps[i].request is AddSheet
            || steps[i].request is ReadValues || steps[i].request is ClearValues
            || steps[i].request is WriteValues,
    ensures
        exists|j: int| 0 <= j <= i && #[trigger] steps[j].reply is Entries,
{
    let step: StepView = steps[i];
    assert(follows(
        spreadsheet_id,
        cutoff,
        step.stage,
        step.reply,
        step.next,
        step.request,
    ));
    if step.request is WriteValues {
        lemma_writes_content(spreadsheet_id, cutoff, steps, i);
    } else if !(step.request is GetSpreadsheet) {
        lemma_holds_sent_entries(spreadsheet_id, cutoff, steps, i);
    }
}

/// A sync comes nearer to its end with every step.
proof fn lemma_comes_nearer(
    spreadsheet_id: Seq<char>,
    cutoff: Moment,
    steps: Seq<StepView>,
    i: int,
    j: int,
)
    requires
        is_run(spreadsheet_id, cutoff, steps),
        0 <= i < j < steps.len(),
    ensures
        replies_left(steps[j].next) < replies_left(steps[i].next),
    decreases j - i,
{
    let step: StepView = steps[j];
    assert(steps[j].stage == steps[j - 1].next);
    lemma_comes_to_an_end(
        spreadsheet_id,
        cutoff,
        step.stage,
        step.reply,
        step.next,
        step.request,
    );
    if i < j - 1 {
        lemma_comes_nearer(spreadsheet_id, cutoff, steps, i, j - 1);
    }
}

/// A sync asks Toggl for time entries only at its start, and makes each request to
/// Google Sheets at most once.
pub proof fn lemma_asks_once(
    spreadsheet_id: Seq<char>,
    cutoff: Moment,
    steps: Seq<StepView>,
    i: int,
    j: int,
)
    requires
        is_run(spreadsheet_id, cutoff, steps),
        0 <= i < j < steps.len(),
    ensures
        !(steps[i].request is FetchEntries) && !(steps[j].request is FetchEntries),
        !(steps[i].request is GetSpreadsheet && steps[j].request is GetSpreadsheet),
        !(steps[i].request is AddSheet && steps[j].request is AddSheet),
        !(steps[i].request is ReadValues && steps[j].request is ReadValues),
        !(steps[i].request is ClearValues && steps[j].request is ClearValues),
        !(steps[i].request is WriteValues && steps[j].request is WriteValues),
{
    lemma_comes_nearer(spreadsheet_id, cutoff, steps, i, j);
}

/// A request for time entries asks with the token for those from the start on and up
/// to the end: the texts of these two points in time stand at `start_date` and at
/// `end_date`, whatever they are.
pub proof fn lemma_asks_from_start_to_end(api_token: Seq<char>, start: Moment, end: Moment)
    ensures
        ({
            let request = entries_request_view(api_token, start, end);
            &&& request.url == "https://api.track.toggl.com/api/v9/me/time_entries"@
            &&& request.user == api_token
            &&& request.password == "api_token"@
            &&& request.query.len() == 3
            &&& request.query[0] == (
                "start_date"@,
                rfc3339_text(start.secs as i64, start.nanos as u32),
            )
            &&& request.query[1] == ("end_date"@, rfc3339_text(end.secs as i64, end.nanos as u32))
            &&& request.query[2] == ("meta"@, "true"@)
        }),
{
}

/// A request for time entries holds the texts that it is made of, whatever they are.
pub proof fn lemma_request_holds_texts(api_token: Seq<char>, start: Seq<char>, end: Seq<char>)
    ensures
        ({
            let request = request_between(api_token, start, end);
            &&& request.url == "https://api.track.toggl.com/api/v9/me/time_entries"@
            &&& request.user == api_token
            &&& request.password == "api_token"@
            &&& request.query.len() == 3
            &&& request.query[0] == ("start_date"@, start)
            &&& request.query[1] == ("end_date"@, end)
            &&& request.query[2] == ("meta"@, "true"@)
        }),
{
}

/// A request for time entries is viewed with all that it says.
pub proof fn lemma_request_kept(request: EntriesRequest, i: int)
    ensures
        request@.url == request.url@,
        request@.user == request.user@,
        request@.password == request.password@,
        request@.query.len() == request.query@.len(),
        0 <= i < request.query@.len() ==> request@.query[i] == (
            request.query@[i].0@,
            request.query@[i].1@,
        ),
{
}

/// A request to Google Sheets is viewed with all that it says, and so is the end.
pub proof fn lemma_sheet_request_kept(request: Request)
    ensures
        request matches Request::FetchEntries(wanted) ==> request@ == RequestView::FetchEntries(
            wanted@,
        ),
        request is ReadErrorText <==> request@ is ReadErrorText,
        request is ReadEntries <==> request@ is ReadEntries,
        request matches Request::GetSpreadsheet { spreadsheet_id } ==> request@ == (
        RequestView::GetSpreadsheet { spreadsheet_id: spreadsheet_id@ }),
        request matches Request::AddSheet { spreadsheet_id, title } ==> request@ == (
        RequestView::AddSheet { spreadsheet_id: spreadsheet_id@, title: title@ }),
        request matches Request::ReadValues { spreadsheet_id, range, render } ==> request@ == (
        RequestView::ReadValues {
            spreadsheet_id: spreadsheet_id@,
            range: range@,
            render: render@,
        }),
        request matches Request::ClearValues { spreadsheet_id, range } ==> request@ == (
        RequestView::ClearValues { spreadsheet_id: spreadsheet_id@, range: range@ }),
        request matches Request::WriteValues { spreadsheet_id, range, input, rows } ==> request@
            == (RequestView::WriteValues {
            spreadsheet_id: spreadsheet_id@,
            range: range@,
            input: input@,
            rows: rows_view(rows@),
        }),
        request is Finish <==> request@ is Finish,
        request matches Request::Fail(Failure::Api(message)) ==> request@ == RequestView::FailApi(
            message@,
        ),
        request matches Request::Fail(Failure::Request) ==> request@ is FailRequest,
{
}

/// A reply is viewed with all that it says. Where no values came, there are no rows.
pub proof fn lemma_reply_kept(reply: Reply)
    ensures
        reply is Failed <==> reply@ is Failed,
        reply matches Reply::Status(status) ==> reply@ == ReplyView::Status(status),
        reply matches Reply::ErrorText(text) ==> reply@ == ReplyView::ErrorText(text@),
        reply matches Reply::Entries(entries) ==> reply@ == ReplyView::Entries(
            entries_view(entries@),
        ),
        reply matches Reply::Spreadsheet(sheets) ==> reply@ == ReplyView::Spreadsheet(
            sheet_titles(sheets),
        ),
        reply is SheetAdded <==> reply@ is SheetAdded,
        reply matches Reply::Values(Some(rows)) ==> reply@ == ReplyView::Values(rows_view(rows@)),
        reply matches Reply::Values(None) ==> reply@ == ReplyView::Values(seq![]),
        reply is Cleared <==> reply@ is Cleared,
        reply is Written <==> reply@ is Written,
{
}

/// The title of every sheet is looked at, where it has one.
pub proof fn lemma_every_title(sheets: Vec<SheetInfo>, i: int)
    ensures
        sheet_titles(None).len() == 0,
        sheet_titles(Some(sheets)).len() == sheets@.len(),
        0 <= i < sheets@.len() ==> match sheets@[i].properties {
            Some(properties) => match properties.title {
                Some(title) => sheet_titles(Some(sheets))[i] == Some(title@),
                None => sheet_titles(Some(sheets))[i] is None,
            },
            None => sheet_titles(Some(sheets))[i] is None,
        },
{
}

/// A range lies in the sheet that is named `toggl_entries`.
pub proof fn lemma_range_of_sheet(cells: Seq<char>)
    ensures
        range_view(cells) == "'toggl_entries'!"@ + cells,
        GOOGLE_SHEET_NAME@ == "toggl_entries"@,
{
    reveal_strlit("'");
    reveal_strlit("toggl_entries");
    reveal_strlit("'!");
    reveal_strlit("'toggl_entries'!");
    assert(range_view(cells) =~= "'toggl_entries'!"@ + cells);
}

/// What comes of a sync before it has time entries: from a status of 200 to 299 on they
/// are read and then the spreadsheet is looked up for them, all of them; any other
/// status leads to an error with the text of the response.
pub proof fn lemma_entries_handed_on(
    spreadsheet_id: Seq<char>,
    cutoff: Moment,
    stage: StageView,
    reply: ReplyView,
    next: StageView,
    request: RequestView,
)
    requires
        follows(spreadsheet_id, cutoff, stage, reply, next, request),
    ensures
        stage is Fetching ==> (reply matches ReplyView::Status(status) ==> if 200 <= status <= 299 {
            next is ReadingEntries && request is ReadEntries
        } else {
            next is ReadingErrorText && request is ReadErrorText
        }),
        stage is ReadingErrorText ==> (reply matches ReplyView::ErrorText(text) ==> next is Ended
            && request == RequestView::FailApi("Toggl API Error: "@ + text)),
        stage is ReadingEntries ==> (reply matches ReplyView::Entries(entries) ==> next
            == StageView::LookingUp(entries) && request == (RequestView::GetSpreadsheet {
            spreadsheet_id,
        })),
{
}

/// What comes of the sheets of a spreadsheet: where ours is among them, or once it is
/// added, what it holds is read, for the same time entries.
pub proof fn lemma_sheet_made_sure_of(
    spreadsheet_id: Seq<char>,
    cutoff: Moment,
    entries: Seq<EntryView>,
    titles: Seq<Option<Seq<char>>>,
    next: StageView,
    request: RequestView,
)
    ensures
        follows(
            spreadsheet_id,
            cutoff,
            StageView::LookingUp(entries),
            ReplyView::Spreadsheet(titles),
            next,
            request,
        ) ==> if titles.contains(Some("toggl_entries"@)) {
            next == StageView::Reading(entries) && request == (RequestView::ReadValues {
                spreadsheet_id,
                range: "'toggl_entries'!"@ + "A:G"@,
                render: "UNFORMATTED_VALUE"@,
            })
        } else {
            next == StageView::Adding(entries) && request == (RequestView::AddSheet {
                spreadsheet_id,
                title: "toggl_entries"@,
            })
        },
        follows(
            spreadsheet_id,
            cutoff,
            StageView::Adding(entries),
            ReplyView::SheetAdded,
            next,
            request,
        ) ==> next == StageView::Reading(entries) && request == (RequestView::ReadValues {
            spreadsheet_id,
            range: "'toggl_entries'!"@ + "A:G"@,
            render: "UNFORMATTED_VALUE"@,
        }),
{
    lemma_range_of_sheet("A:G"@);
}

/// What comes of the rows that were read, or of none where reading failed: the sheet is
/// cleared, and the content that follows from them is held, whatever they are.
pub proof fn lemma_rows_taken_in(
    spreadsheet_id: Seq<char>,
    cutoff: Moment,
    entries: Seq<EntryView>,
    reply: ReplyView,
    next: StageView,
    request: RequestView,
)
    requires
        follows(spreadsheet_id, cutoff, StageView::Reading(entries), reply, next, request),
    ensures
        reply matches ReplyView::Values(existing) ==> {
            &&& next matches StageView::Clearing(rows)
            &&& is_content(existing, entries, cutoff, rows)
        },
        reply is Failed ==> {
            &&& next matches StageView::Clearing(rows)
            &&& is_content(seq![], entries, cutoff, rows)
        },
        reply is Values || reply is Failed ==> request == (RequestView::ClearValues {
            spreadsheet_id,
            range: "'toggl_entries'!"@ + "A:G"@,
        }),
{
    lemma_range_of_sheet("A:G"@);
}

/// Once the sheet is cleared, all rows that are held are written to it, from its first
/// cell on, whatever they are; and only once they are written, the sync is done.
pub proof fn lemma_held_rows_written(
    spreadsheet_id: Seq<char>,
    cutoff: Moment,
    rows: Seq<Seq<CellView>>,
    next: StageView,
    request: RequestView,
)
    ensures
        follows(
            spreadsheet_id,
            cutoff,
            StageView::Clearing(rows),
            ReplyView::Cleared,
            next,
            request,
        ) ==> next == StageView::Writing && request == (RequestView::WriteValues {
            spreadsheet_id,
            range: "'toggl_entries'!"@ + "A1"@,
            input: "USER_ENTERED"@,
            rows,
        }),
        follows(spreadsheet_id, cutoff, StageView::Writing, ReplyView::Written, next, request)
            ==> next is Ended && request is Finish,
{
    lemma_range_of_sheet("A1"@);
}

/// A sync goes on only after the reply that its stage waits for, and it is done only
/// after what was to be written is written; after anything else it fails.
pub proof fn lemma_goes_on_in_turn(
    spreadsheet_id: Seq<char>,
    cutoff: Moment,
    stage: StageView,
    reply: ReplyView,
    next: StageView,
    request: RequestView,
)
    requires
        follows(spreadsheet_id, cutoff, stage, reply, next, request),
    ensures
        ({
            ||| stage is Fetching && reply is Status
            ||| stage is ReadingErrorText && reply is ErrorText
            ||| stage is ReadingEntries && reply is Entries
            ||| stage is LookingUp && reply is Spreadsheet
            ||| stage is Adding && reply is SheetAdded
            ||| stage is Reading && (reply is Values || reply is Failed)
            ||| stage is Clearing && reply is Cleared
            ||| stage is Writing && reply is Written
            ||| next is Ended && request is FailRequest
        }),
        request is Finish ==> stage is Writing && reply is Written,
        request is FailRequest || request is FailApi || request is Finish <==> next is Ended,
{
}

/// A sync that is done has gone its whole course: with a status of success it has got
/// the time entries, it has made sure of the sheet, read it and cleared it, and all of
/// the content that follows from what was got and read was written and was reported
/// as written.
pub proof fn lemma_done_means_written(
    spreadsheet_id: Seq<char>,
    cutoff: Moment,
    steps: Seq<StepView>,
    i: int,
)
    requires
        is_run(spreadsheet_id, cutoff, steps),
        0 <= i < steps.len(),
        steps[i].request is Finish,
    ensures
        i == 5 || i == 6,
        steps[0].reply matches ReplyView::Status(status) && 200 <= status <= 299,
        steps[1].reply is Entries,
        steps[2].reply matches ReplyView::Spreadsheet(titles) && (i == 5 <==> titles.contains(
            Some("toggl_entries"@),
        )),
        i == 6 ==> steps[2].request == (RequestView::AddSheet {
            spreadsheet_id,
            title: "toggl_entries"@,
        }) && steps[3].reply is SheetAdded,
        steps[i - 3].request == (RequestView::ReadValues {
            spreadsheet_id,
            range: "'toggl_entries'!"@ + "A:G"@,
            render: "UNFORMATTED_VALUE"@,
        }),
        steps[i - 2].request == (RequestView::ClearValues {
            spreadsheet_id,
            range: "'toggl_entries'!"@ + "A:G"@,
        }),
        steps[i - 1].reply is Cleared,
        steps[i - 1].request matches RequestView::WriteValues {
            spreadsheet_id: id,
            range,
            input,
            rows,
        } && {
            &&& id == spreadsheet_id
            &&& range == "'toggl_entries'!"@ + "A1"@
            &&& input == "USER_ENTERED"@
            &&& steps[i - 2].reply matches ReplyView::Values(existing) ==> is_content(
                existing,
                steps[1].reply->Entries_0,
                cutoff,
                rows,
            )
            &&& !(steps[i - 2].reply is Values) ==> steps[i - 2].reply is Failed && is_content(
                seq![],
                steps[1].reply->Entries_0,
                cutoff,
                rows,
            )
        },
        steps[i].reply is Written,
        i + 1 == steps.len(),
{
    lemma_range_of_sheet("A:G"@);
    lemma_range_of_sheet("A1"@);
    let last: StepView = steps[i];
    assert(last.stage is Writing && last.next is Ended);
    if i + 1 < steps.len() {
        assert(steps[i + 1].stage == steps[i].next);
    }
    let written: StepView = steps[i - 1];
    assert(steps[i].stage == written.next);
    let cleared: StepView = steps[i - 2];
    assert(steps[i - 1].stage == cleared.next);
    let read: StepView = steps[i - 3];
    assert(steps[i - 2].stage == read.next);
    let first: StepView = steps[0];
    assert(first.next is ReadingEntries || first.next is ReadingErrorText || first.next is Ended);
    let second: StepView = steps[1];
    assert(second.stage == first.next);
    let third: StepView = steps[2];
    assert(third.stage == second.next);
    let fourth: StepView = steps[3];
    assert(fourth.stage == third.next);
    let fifth: StepView = steps[4];
    assert(i >= 4 ==> fifth.stage == fourth.next);
    let sixth: StepView = steps[5];
    assert(i >= 5 ==> sixth.stage == fifth.next);
    let seventh: StepView = steps[6];
    assert(i >= 6 ==> seventh.stage == sixth.next);
    assert(i >= 7 ==> steps[7].stage == seventh.next);
    assert(third.stage is LookingUp);
    assert(fourth.stage is Reading ==> i == 5);
    assert(fourth.stage is Adding ==> i == 6);
}

} // verus!
