//! Per-station minimum, mean and maximum of temperature records.
//!
//! Records are lines of bytes of the form `station;measurement`. The library
//! reads the records, keeps the table of stations, orders it, and lays out
//! the report. It hands each measurement on as the text of a decimal number
//! and takes each figure of the report as text: what a number is worth is
//! the caller's business.

pub mod lexical;
pub mod parse;
pub mod table;
pub mod report;
pub mod pipeline;
