//! Core of a personal study tracker: per-date persistence of free-text notes
//! and structured task records, plus an activity aggregation over a directory
//! listing. All file and directory I/O lives outside this crate; the library
//! supplies the file names, the record file format (encode, parse, with a
//! proved round trip) and the aggregation, each with a full contract.

pub mod activity;
pub mod codec;
pub mod records;
pub mod store;
