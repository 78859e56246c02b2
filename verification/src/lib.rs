//! Extraction of structured fields from Apache/NCSA access-log lines.
//!
//! A log format is an ordered list of named fields, each read by one of a
//! small set of token kinds (word, bracket-delimited, quote-delimited, or
//! computed from an already-read field). Four predefined formats are
//! provided; a `LineParser` bound to one of them, and optionally to a
//! projection of field names, turns one line into the fields' values or a
//! positioned error.

pub mod laws;
pub mod log_parser;
pub mod model;
