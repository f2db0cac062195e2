use toggl2sheets::cell::{Cell, Number, Row};
use toggl2sheets::content::{header_row, new_rows, sheet_content};
use toggl2sheets::double::Double;
use toggl2sheets::entry::{entry_row, TogglTimeEntry};
use toggl2sheets::sheet::{
    all_in_range, extract_time_from_row, is_header, kept_rows, read_written, row_start, stays,
    RowStart,
};
use toggl2sheets::sorting::sort_rows;
use toggl2sheets::text::{decimal_text, join};
use toggl2sheets::timestamp::Timestamp;

fn double(x: f64) -> Double {
    Double::from_bits(x.to_bits()).unwrap()
}

fn float(x: f64) -> Cell {
    Cell::Number(Number::Float(double(x)))
}

fn text(s: &str) -> Cell {
    Cell::Text(s.to_string())
}

fn row(cells: Vec<Cell>) -> Row {
    Row { cells }
}

fn time(row: &[Cell]) -> f64 {
    f64::from_bits(extract_time_from_row(row).to_bits())
}

fn timestamp(secs: i64) -> Timestamp {
    Timestamp::new(secs, 0).unwrap()
}

fn entry(id: i64, start: i64) -> TogglTimeEntry {
    TogglTimeEntry {
        id,
        description: Some(format!("entry {}", id)),
        start: timestamp(start),
        stop: Some(timestamp(start + 90)),
        duration: 90,
        project_id: None,
        project_name: None,
        tags: None,
    }
}

#[test]
fn test_extract_time_from_row() {
    // 1. Serial Number (f64)
    let row_serial = vec![float(25569.0)]; // 1970-01-01
    assert!((time(&row_serial) - 25569.0).abs() < 1e-6);

    // 2. RFC3339 String
    let row_rfc3339 = vec![text("1970-01-01T00:00:00+00:00")];
    assert!((time(&row_rfc3339) - 25569.0).abs() < 1e-6);

    // 3. "YYYY-MM-DD HH:MM:SS UTC" String
    let row_utc_suffix = vec![text("1970-01-01 00:00:00 UTC")];
    assert!((time(&row_utc_suffix) - 25569.0).abs() < 1e-6);

    // 4. "YYYY-MM-DD HH:MM:SS" String
    let row_no_suffix = vec![text("1970-01-01 00:00:00")];
    assert!((time(&row_no_suffix) - 25569.0).abs() < 1e-6);

    // 5. Invalid String
    let row_invalid = vec![text("invalid-date")];
    assert_eq!(time(&row_invalid), 0.0);

    // 6. Empty Row
    let row_empty: Vec<Cell> = vec![];
    assert_eq!(time(&row_empty), 0.0);

    // 7. Non-date first column
    let row_other = vec![Cell::Bool(true)];
    assert_eq!(time(&row_other), 0.0);
}

#[test]
fn whole_numbers_are_serial_numbers_too() {
    assert_eq!(time(&[Cell::Number(Number::PosInt(25569))]), 25569.0);
    assert_eq!(time(&[Cell::Number(Number::NegInt(-3))]), -3.0);
    assert_eq!(time(&[Cell::Number(Number::PosInt(u64::MAX))]), u64::MAX as f64);
    assert_eq!(time(&[Cell::Null, float(7.0)]), 0.0);
    assert_eq!(time(&[Cell::Nested("[1]".to_string())]), 0.0);
}

#[test]
fn what_follows_from_a_start_is_known_without_a_row() {
    let cutoff = timestamp(1_000_000);
    assert!(RowStart::Unknown.stays(&cutoff));
    assert!(RowStart::Written(timestamp(999_999)).stays(&cutoff));
    assert!(!RowStart::Written(timestamp(1_000_000)).stays(&cutoff));
    assert!(RowStart::Serial(double(25569.0)).stays(&cutoff));
    assert!(!RowStart::Serial(double(25582.0)).stays(&cutoff));
    assert_eq!(RowStart::Unknown.serial(), Double::zero());
    assert_eq!(RowStart::Written(timestamp(43_200)).serial(), double(25569.5));
    assert_eq!(RowStart::Serial(double(1.5)).serial(), double(1.5));
    assert!(matches!(row_start(&[Cell::Null]), RowStart::Unknown));
    assert!(matches!(row_start(&[text("1970-01-02 00:00:00")]), RowStart::Written(t) if t == timestamp(86_400)));
}

#[test]
fn written_times_are_read_in_three_ways() {
    assert_eq!(read_written("1970-01-01T01:00:00+01:00"), Some(timestamp(0)));
    assert_eq!(read_written("1970-01-01 00:00:09 UTC"), Some(timestamp(9)));
    assert_eq!(read_written("1970-01-01 00:00:09"), Some(timestamp(9)));
    assert_eq!(read_written("1 January 1970"), None);
}

#[test]
fn rows_before_the_cutoff_stay() {
    let cutoff = timestamp(1_740_000_000);
    assert!(stays(&[float(45000.0)], &cutoff));
    assert!(!stays(&[float(46000.0)], &cutoff));
    assert!(stays(&[text("2025-02-19T21:19:59Z")], &cutoff));
    assert!(!stays(&[text("2025-02-19T21:20:00Z")], &cutoff));
    assert!(!stays(&[text("2025-02-19 21:20:00 UTC")], &cutoff));
    assert!(!stays(&[text("2025-02-19 21:20:00")], &cutoff));
    assert!(stays(&[text("2025-02-19 21:19:59")], &cutoff));
}

#[test]
fn rows_without_a_time_stay_but_not_the_titles() {
    let cutoff = timestamp(0);
    assert!(stays(&[], &cutoff));
    assert!(stays(&[Cell::Bool(false)], &cutoff));
    assert!(stays(&[Cell::Null], &cutoff));
    assert!(stays(&[text("start")], &cutoff));
    assert!(!stays(&[text("Start")], &cutoff));
    assert!(!stays(header_row().cells.as_slice(), &cutoff));
    assert!(is_header(&[text("Start")]));
    assert!(!is_header(&[text("Stop"), text("Start")]));
    assert!(!is_header(&[]));
}

#[test]
fn kept_rows_keep_their_order_and_their_cells() {
    let kept = kept_rows(
        vec![
            header_row(),
            row(vec![float(45001.0), text("b"), Cell::Number(Number::PosInt(5))]),
            row(vec![float(45800.0), text("new")]),
            row(vec![text("note")]),
            row(vec![float(45000.0), text("a")]),
            row(vec![]),
        ],
        &timestamp(1_740_000_000),
    );
    assert_eq!(
        kept,
        vec![
            row(vec![float(45001.0), text("b"), Cell::Number(Number::PosInt(5))]),
            row(vec![text("note")]),
            row(vec![float(45000.0), text("a")]),
            row(vec![]),
        ]
    );
}

#[test]
fn serial_numbers_out_of_range_are_found() {
    assert!(all_in_range(&vec![]));
    assert!(all_in_range(&vec![header_row(), row(vec![]), row(vec![float(45000.0), float(1.0e30)])]));
    assert!(!all_in_range(&vec![row(vec![float(45000.0)]), row(vec![float(1.0e30)])]));
    assert!(!all_in_range(&vec![row(vec![Cell::Number(Number::NegInt(i64::MIN))])]));
}

#[test]
fn an_entry_becomes_a_row() {
    let full = TogglTimeEntry {
        id: 1,
        description: Some("writing".to_string()),
        start: timestamp(0),
        stop: Some(timestamp(43_200)),
        duration: 43_200,
        project_id: Some(-1207),
        project_name: Some("book".to_string()),
        tags: Some(vec!["home".to_string(), "late".to_string(), "draft".to_string()]),
    };
    assert_eq!(
        entry_row(&full),
        row(vec![
            float(25569.0),
            text("writing"),
            float(720.0),
            text("-1207"),
            text("book"),
            text("home, late, draft"),
            float(25569.5),
        ])
    );
    let bare = TogglTimeEntry {
        id: 2,
        description: None,
        start: timestamp(1_740_838_402),
        stop: None,
        duration: -1_740_838_402,
        project_id: None,
        project_name: None,
        tags: None,
    };
    assert_eq!(
        entry_row(&bare),
        row(vec![
            float(3_950_000_002_000f64 / 86_400_000.0),
            text(""),
            float(-1_740_838_402f64 / 60.0),
            text(""),
            text(""),
            text(""),
            text("Running"),
        ])
    );
}

#[test]
fn texts_are_joined() {
    let parts = |words: &[&str]| words.iter().map(|word| word.to_string()).collect::<Vec<String>>();
    assert_eq!(join(&parts(&[]), ", "), "");
    assert_eq!(join(&parts(&["a"]), ", "), "a");
    assert_eq!(join(&parts(&["a", "", "c"]), ", "), "a, , c");
}

#[test]
fn numbers_are_written_in_decimal_notation() {
    for n in [0i64, 7, 10, 99, 1_234_567_890, -1, -10, i64::MAX, i64::MIN] {
        assert_eq!(decimal_text(n), n.to_string());
    }
}

#[test]
fn rows_are_sorted_and_equal_times_keep_their_order() {
    let sorted = sort_rows(vec![
        row(vec![float(3.0), text("first")]),
        row(vec![text("1900-01-01 00:00:00"), text("second")]),
        row(vec![Cell::Number(Number::PosInt(3)), text("third")]),
        row(vec![text("no time"), text("fourth")]),
        row(vec![float(2.0), text("fifth")]),
        row(vec![float(-0.0), text("sixth")]),
        row(vec![float(-1.0), text("seventh")]),
    ]);
    let names: Vec<&Cell> = sorted.iter().map(|row| &row.cells[1]).collect();
    assert_eq!(
        names,
        vec![
            &text("seventh"),
            &text("fourth"),
            &text("sixth"),
            &text("second"),
            &text("fifth"),
            &text("first"),
            &text("third"),
        ]
    );
}

#[test]
fn sorting_agrees_with_the_standard_library() {
    let mut state = 12345u64;
    let mut keys: Vec<(f64, usize)> = vec![];
    for i in 0..500 {
        state = state.wrapping_mul(6364136223846793005).wrapping_add(1442695040888963407);
        keys.push((((state >> 33) % 50) as f64 / 4.0, i));
    }
    let rows = keys.iter().map(|(x, i)| row(vec![float(*x), Cell::Number(Number::PosInt(*i as u64))])).collect();
    let sorted = sort_rows(rows);
    keys.sort_by(|a, b| a.0.partial_cmp(&b.0).unwrap());
    let expected: Vec<Row> =
        keys.iter().map(|(x, i)| row(vec![float(*x), Cell::Number(Number::PosInt(*i as u64))])).collect();
    assert_eq!(sorted, expected);
}

#[test]
fn the_content_is_titles_then_rows_by_time() {
    let cutoff = timestamp(1_740_000_000);
    let entries = vec![entry(1, 1_740_100_000), entry(2, 1_740_050_000)];
    let existing = vec![
        header_row(),
        row(vec![float(45700.0), text("older")]),
        row(vec![float(45708.5), text("to be replaced")]),
        row(vec![text("note")]),
    ];
    let content = sheet_content(existing, &entries, &cutoff);
    assert_eq!(content.len(), 5);
    assert_eq!(content[0], header_row());
    assert_eq!(content[1], row(vec![text("note")]));
    assert_eq!(content[2], row(vec![float(45700.0), text("older")]));
    assert_eq!(content[3], entry_row(&entries[1]));
    assert_eq!(content[4], entry_row(&entries[0]));
    assert_eq!(new_rows(&entries), vec![entry_row(&entries[0]), entry_row(&entries[1])]);
}

#[test]
fn the_titles_are_the_seven_columns() {
    let titles = ["Start", "Description", "Duration (m)", "Project ID", "Project Name", "Tags", "Stop"];
    assert_eq!(header_row(), row(titles.iter().map(|title| text(title)).collect()));
    assert_eq!(sheet_content(vec![], &vec![], &timestamp(0)), vec![header_row()]);
}

#[test]
fn syncing_again_changes_nothing() {
    let cutoff = timestamp(1_740_000_000);
    let entries = vec![entry(1, 1_740_838_402), entry(2, 1_740_050_000), entry(3, 1_740_050_000)];
    let existing = || vec![row(vec![float(45700.0), text("older")]), row(vec![text("note")])];
    let once = sheet_content(existing(), &entries, &cutoff);
    let again = sheet_content(sheet_content(existing(), &entries, &cutoff), &entries, &cutoff);
    assert_eq!(once, again);
}

#[test]
fn syncing_again_changes_nothing_whatever_columns_are_read_back() {
    let cutoff = timestamp(1_740_000_000);
    let entries = vec![entry(1, 1_740_838_402), entry(2, 1_740_050_000)];
    let existing = || vec![row(vec![float(45700.0), text("older")]), row(vec![text("note")])];
    let content = || sheet_content(existing(), &entries, &cutoff);
    for columns in 2..8 {
        let mut read = content();
        for row in read.iter_mut() {
            row.cells.truncate(columns);
        }
        assert_eq!(sheet_content(read, &entries, &cutoff), content());
    }
}

#[test]
fn an_entry_right_at_the_cutoff_can_stay() {
    // Its serial number reads back as a millisecond before.
    let cutoff = timestamp(1_740_838_402);
    let entries = vec![entry(1, 1_740_838_402)];
    assert!(stays(&entry_row(&entries[0]).cells, &cutoff));
    let once = sheet_content(vec![], &entries, &cutoff);
    assert_eq!(sheet_content(once, &entries, &cutoff).len(), 3);
    // A millisecond later it is replaced.
    let earlier = Timestamp::new(1_740_838_401, 999_000_000).unwrap();
    assert!(!stays(&entry_row(&entries[0]).cells, &earlier));
}

#[test]
fn a_later_cutoff_keeps_what_an_earlier_one_keeps() {
    for cells in [vec![float(45000.0)], vec![text("2020-01-01 00:00:00")], vec![], vec![Cell::Null]] {
        assert!(stays(&cells, &timestamp(1_740_000_000)));
        assert!(stays(&cells, &timestamp(1_750_000_000)));
    }
}
