//! Streaming encoders that turn database result rows into CSV records and
//! newline-delimited JSON objects.
//!
//! A [`row::Row`] holds the columns of one record of a query result as plain
//! values. [`csv::CsvWriter`] and [`json::JsonWriter`] take one row at a
//! time and append its encoding to a byte sink held in memory, which the
//! caller drains to wherever the bytes are to go. Both encoders choose the
//! rendering of a value by the type tag of its column, through the one
//! table in [`access`].
//!
//! Every function states what it writes as a function of its arguments.
//! Beside the encoders stand readers for the two formats, and the proofs
//! that they get back from the bytes what was written: cells and records in
//! [`csv_reader`] and [`csv_stream`], strings in [`json_reader`], and whole
//! lines in [`json_object`] and [`json_stream`].

pub mod access;
pub mod csv;
pub mod csv_reader;
pub mod csv_stream;
pub mod json;
pub mod json_object;
pub mod json_reader;
pub mod json_stream;
pub mod number;
pub mod query;
pub mod row;
pub mod text;
pub mod timestamp;
