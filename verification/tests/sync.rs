use toggl2sheets::cell::{Cell, Row};
use toggl2sheets::content::{header_row, sheet_content};
use toggl2sheets::entry::{entry_row, TogglTimeEntry};
use toggl2sheets::settings::{default_schedule_string, default_svc_key_file};
use toggl2sheets::sync::{
    api_error_message, entries_request, entries_request_for, is_success, run_sync_task,
    sheet_exists, sheet_range, sync_sheet, Failure, Reply, Request, SheetInfo, SheetProperties,
    SyncTask, GOOGLE_SHEET_NAME,
};
use toggl2sheets::timestamp::Timestamp;

fn timestamp(secs: i64) -> Timestamp {
    Timestamp::new(secs, 0).unwrap()
}

fn now() -> Timestamp {
    timestamp(1_740_604_800)
}

fn sheet(title: Option<&str>) -> SheetInfo {
    SheetInfo { properties: Some(SheetProperties { title: title.map(|title| title.to_string()) }) }
}

fn entries() -> Vec<TogglTimeEntry> {
    vec![TogglTimeEntry {
        id: 1,
        description: None,
        start: timestamp(1_740_100_000),
        stop: None,
        duration: -1,
        project_id: None,
        project_name: None,
        tags: None,
    }]
}

fn note() -> Row {
    Row { cells: vec![Cell::Text("note".to_string())] }
}

fn fetched() -> SyncTask {
    let (task, _) = run_sync_task("token", "id", now());
    let (task, request) = task.step(Reply::Status(200));
    assert!(matches!(request, Request::ReadEntries));
    let (task, request) = task.step(Reply::Entries(entries()));
    assert!(matches!(request, Request::GetSpreadsheet { spreadsheet_id } if spreadsheet_id == "id"));
    task
}

fn looked_up() -> SyncTask {
    let (task, request) = fetched().step(Reply::Spreadsheet(Some(vec![sheet(Some("toggl_entries"))])));
    match request {
        Request::ReadValues { spreadsheet_id, range, render } => {
            assert_eq!(spreadsheet_id, "id");
            assert_eq!(range, "'toggl_entries'!A:G");
            assert_eq!(render, "UNFORMATTED_VALUE");
        }
        other => panic!("{:?}", other),
    }
    task
}

fn check_written(task: SyncTask, request: Request, expected: Vec<Row>) {
    match request {
        Request::ClearValues { spreadsheet_id, range } => {
            assert_eq!(spreadsheet_id, "id");
            assert_eq!(range, "'toggl_entries'!A:G");
        }
        other => panic!("{:?}", other),
    }
    let (task, request) = task.step(Reply::Cleared);
    match request {
        Request::WriteValues { spreadsheet_id, range, input, rows } => {
            assert_eq!(spreadsheet_id, "id");
            assert_eq!(range, "'toggl_entries'!A1");
            assert_eq!(input, "USER_ENTERED");
            assert_eq!(rows, expected);
        }
        other => panic!("{:?}", other),
    }
    let (_, request) = task.step(Reply::Written);
    assert!(matches!(request, Request::Finish));
}

#[test]
fn settings_have_defaults() {
    assert_eq!(default_svc_key_file(), "google_private_key.json");
    assert_eq!(default_schedule_string(), "0 */30 * * * *");
}

#[test]
fn a_sync_asks_for_the_last_week() {
    let (_, request) = run_sync_task("token", "id", now());
    match request {
        Request::FetchEntries(request) => {
            assert_eq!(request.url, "https://api.track.toggl.com/api/v9/me/time_entries");
            assert_eq!(request.user, "token");
            assert_eq!(request.password, "api_token");
            assert_eq!(
                request.query,
                vec![
                    ("start_date".to_string(), "2025-02-19T21:20:00+00:00".to_string()),
                    ("end_date".to_string(), "2025-02-26T21:20:00+00:00".to_string()),
                    ("meta".to_string(), "true".to_string()),
                ]
            );
        }
        other => panic!("{:?}", other),
    }
    let request = entries_request("tok", &timestamp(0), &timestamp(60));
    assert_eq!(request.user, "tok");
    assert_eq!(request.query[0].1, "1970-01-01T00:00:00+00:00");
    assert_eq!(request.query[1].1, "1970-01-01T00:01:00+00:00");
}

#[test]
fn what_toggl_refuses_is_an_error() {
    let (task, _) = run_sync_task("token", "id", now());
    let (task, request) = task.step(Reply::Status(403));
    assert!(matches!(request, Request::ReadErrorText));
    let (_, request) = task.step(Reply::ErrorText("Incorrect username".to_string()));
    assert!(matches!(
        request,
        Request::Fail(Failure::Api(message)) if message == "Toggl API Error: Incorrect username"
    ));
    assert_eq!(api_error_message(""), "Toggl API Error: ");
}

#[test]
fn success_is_a_status_of_two_hundred_and_something() {
    for status in [0, 100, 199, 300, 304, 404, 500, u16::MAX] {
        assert!(!is_success(status));
    }
    for status in [200, 204, 299] {
        assert!(is_success(status));
    }
}

#[test]
fn the_sheet_is_known_by_its_title() {
    assert_eq!(GOOGLE_SHEET_NAME, "toggl_entries");
    assert!(!sheet_exists(&None));
    assert!(!sheet_exists(&Some(vec![])));
    assert!(!sheet_exists(&Some(vec![sheet(None), SheetInfo { properties: None }, sheet(Some("Sheet1"))])));
    assert!(sheet_exists(&Some(vec![sheet(Some("Sheet1")), sheet(Some("toggl_entries"))])));
    assert_eq!(sheet_range("B2"), "'toggl_entries'!B2");
}

#[test]
fn a_sync_writes_the_content_of_the_sheet() {
    let (task, request) = looked_up().step(Reply::Values(Some(vec![header_row(), note()])));
    check_written(
        task,
        request,
        sheet_content(vec![note()], &entries(), &timestamp(1_740_000_000)),
    );
}

#[test]
fn a_sheet_that_is_missing_is_added() {
    let (task, request) = fetched().step(Reply::Spreadsheet(None));
    match request {
        Request::AddSheet { spreadsheet_id, title } => {
            assert_eq!(spreadsheet_id, "id");
            assert_eq!(title, "toggl_entries");
        }
        other => panic!("{:?}", other),
    }
    let (task, request) = task.step(Reply::SheetAdded);
    assert!(matches!(request, Request::ReadValues { .. }));
    let (task, request) = task.step(Reply::Values(None));
    check_written(task, request, sheet_content(vec![], &entries(), &timestamp(1_740_000_000)));
}

#[test]
fn a_sheet_that_cannot_be_read_counts_as_empty() {
    let (task, request) = looked_up().step(Reply::Failed);
    check_written(task, request, sheet_content(vec![], &entries(), &timestamp(1_740_000_000)));
}

#[test]
fn every_other_failure_ends_a_sync() {
    let failed = |task: SyncTask| {
        let (_, request) = task.step(Reply::Failed);
        assert!(matches!(request, Request::Fail(Failure::Request)));
    };
    failed(run_sync_task("token", "id", now()).0);
    failed(run_sync_task("token", "id", now()).0.step(Reply::Status(500)).0);
    failed(run_sync_task("token", "id", now()).0.step(Reply::Status(200)).0);
    failed(fetched());
    failed(fetched().step(Reply::Spreadsheet(None)).0);
    failed(looked_up().step(Reply::Values(None)).0);
    failed(looked_up().step(Reply::Values(None)).0.step(Reply::Cleared).0);
}

#[test]
fn entries_can_be_synced_without_fetching_them() {
    let (task, request) = sync_sheet("id", entries(), timestamp(1_740_000_000));
    assert!(matches!(request, Request::GetSpreadsheet { spreadsheet_id } if spreadsheet_id == "id"));
    let (task, _) = task.step(Reply::Spreadsheet(Some(vec![sheet(Some("toggl_entries"))])));
    let (task, request) = task.step(Reply::Values(Some(vec![note()])));
    check_written(
        task,
        request,
        sheet_content(vec![note()], &entries(), &timestamp(1_740_000_000)),
    );
}

#[test]
fn a_request_holds_the_texts_of_its_times() {
    let request = entries_request_for("tok", "from".to_string(), "to".to_string());
    assert_eq!(request.user, "tok");
    assert_eq!(request.url, "https://api.track.toggl.com/api/v9/me/time_entries");
    assert_eq!(request.password, "api_token");
    assert_eq!(
        request.query,
        vec![
            ("start_date".to_string(), "from".to_string()),
            ("end_date".to_string(), "to".to_string()),
            ("meta".to_string(), "true".to_string()),
        ]
    );
}

#[test]
fn every_column_that_is_written_is_read_and_cleared() {
    // `looked_up` and `check_written` compare both ranges: A to G, seven columns.
    assert_eq!(header_row().cells.len(), 7);
    assert_eq!(entry_row(&entries()[0]).cells.len(), 7);
    // A row that stays keeps its last cell.
    let cells = || (0..7).map(|i| Cell::Text(format!("cell {}", i))).collect();
    let (task, request) = looked_up().step(Reply::Values(Some(vec![Row { cells: cells() }])));
    check_written(
        task,
        request,
        vec![header_row(), Row { cells: cells() }, entry_row(&entries()[0])],
    );
}

#[test]
fn google_is_asked_nothing_before_the_entries_are_there() {
    let (task, request) = run_sync_task("token", "id", now());
    assert!(matches!(request, Request::FetchEntries(_)));
    let (_, request) = task.step(Reply::Failed);
    assert!(matches!(request, Request::Fail(Failure::Request)));
    let (task, request) = run_sync_task("token", "id", now()).0.step(Reply::Status(200));
    assert!(matches!(request, Request::ReadEntries));
    let (_, request) = task.step(Reply::Entries(entries()));
    assert!(matches!(request, Request::GetSpreadsheet { spreadsheet_id } if spreadsheet_id == "id"));
}

#[test]
fn a_reply_that_is_not_waited_for_ends_a_sync() {
    let failed = |task: SyncTask, reply: Reply| {
        let (task, request) = task.step(reply);
        assert!(matches!(request, Request::Fail(Failure::Request)));
        let (_, request) = task.step(Reply::Failed);
        assert!(matches!(request, Request::Fail(Failure::Request)));
    };
    failed(run_sync_task("token", "id", now()).0, Reply::Entries(entries()));
    failed(fetched(), Reply::Status(200));
    // What the sheet holds is not taken for empty.
    failed(looked_up(), Reply::SheetAdded);
    failed(looked_up(), Reply::Written);
    failed(looked_up().step(Reply::Values(None)).0, Reply::Written);
}

#[test]
fn the_week_is_fetched_with_the_token_and_synced_to_the_spreadsheet() {
    let (task, request) = run_sync_task("tok", "sid", timestamp(604_800));
    match request {
        Request::FetchEntries(request) => {
            assert_eq!(request.user, "tok");
            assert_eq!(request.query[0].1, "1970-01-01T00:00:00+00:00");
            assert_eq!(request.query[1].1, "1970-01-08T00:00:00+00:00");
        }
        other => panic!("{:?}", other),
    }
    let (task, _) = task.step(Reply::Status(200));
    let (_, request) = task.step(Reply::Entries(vec![]));
    match request {
        Request::GetSpreadsheet { spreadsheet_id } => assert_eq!(spreadsheet_id, "sid"),
        other => panic!("{:?}", other),
    }
}
