# Toggl Track to Google Sheets synchronisation

Synchronises the time entries of [Toggl Track](https://engineering.toggl.com/docs/api/time_entries)
to a sheet of [Google Sheets](https://developers.google.com/workspace/sheets/api/guides/concepts):
the entries of the last week replace what the sheet holds from the start of that week on,
and every row that is older stays as it is. What is computed on the way is verified with
[Verus](https://github.com/verus-lang/verus).

## Layout

- `src/`, the library:
  - `double`: doubles as exact integers, with rounding to the nearest one;
  - `timestamp`: points in time, and the calls into `chrono`;
  - `serial`: the serial numbers that a spreadsheet holds points in time as;
  - `cell`, `entry`, `text`: cells and rows, time entries, and the rows that they become;
  - `sheet`: which rows of a sheet stay;
  - `order`, `sorting`: stable sorting, and that of rows by their times;
  - `content`: what a sheet holds after a sync;
  - `sync`: the course of a sync, as requests and the replies to them;
  - `settings`: settings that have a default.
- `app/`, the program: it makes the requests, and runs a sync at once and then on a schedule.
- `tests/`, the tests of the library.

The library relies without proof on what it states of `chrono` in `src/timestamp.rs`.

## Sharing the Google Sheet with the Service Account

1. Open the Google Sheet you want to share.
2. Click on the "Share" button in the top right corner.
3. Enter the email address of the Service Account that was created in the GCP Console
   (e.g., `toggl-to-sheets@toggl-to-sheets-12345.iam.gserviceaccount.com`) in the
   "Enter people or groups" field.
4. Select the appropriate permissions (e.g., "Editor") for the Service Account.
5. Click "Send" to share the sheet with the Service Account.

The GCP project containing the service account must have the Google Sheets API enabled.
