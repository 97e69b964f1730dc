//! Timesheet parsing and reporting.
//!
//! A timesheet is free text: a date line opens each day, followed by entry
//! lines (`1h30m task`, `9:00-12:00 work`) and notes. The library splits the
//! text into day records, classifies each entry, groups records by calendar
//! ranges and sums their durations.

pub mod text;
pub mod error;
pub mod date;
pub mod time_range;
pub mod time_entry;
pub mod record;
pub mod report;
