//! Keeps a Google Sheet in step with the time entries of Toggl Track.

pub mod cell;
pub mod content;
pub mod double;
pub mod entry;
pub mod order;
pub mod serial;
pub mod settings;
pub mod sheet;
pub mod sorting;
pub mod sync;
pub mod text;
pub mod timestamp;
