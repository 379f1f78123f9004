//! A verified Japanese national-holiday calendar.
//!
//! The library decodes the Cabinet Office's Shift-JIS holiday CSV, parses it
//! into dated records, folds them into an immutable sorted calendar, and
//! answers holiday, day-off and range queries over civil dates.

pub mod client;
pub mod date;
pub mod date_format;
pub mod error;
pub mod holiday;
pub mod repository;
pub mod response;
pub mod response_list;
pub mod text;
pub mod util;
