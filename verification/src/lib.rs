//! Aggregation of per-event security log records.
//!
//! The library covers the two phases of a batch job that turns many CSV
//! inputs of the form `ip,date,count,kind` into one summary line per IP
//! address:
//!
//! * a partitioning phase that routes every record, by a short key derived
//!   from the leading characters of its IP field, to the unique sink for
//!   that key (`split`), and
//! * a streaming aggregation phase that walks an IP-sorted record stream,
//!   merges the counts of consecutive records sharing an IP, and emits one
//!   `ip<TAB>json` line per run of equal IPs (`aggregate`).
//!
//! All I/O (decompression, sorting, compression, the output stream) lives
//! outside the library; the functions here work on plain strings and lines.

use vstd::prelude::*;

pub mod strutil;
pub mod record;
pub mod ip;
pub mod split;
pub mod summary;
pub mod aggregate;
pub mod multibuf;

verus! {

/// The ways a run can fail on malformed input. Every one of them is fatal
/// to the whole batch job: the caller is expected to abort on any of them.
#[derive(Clone, Copy, Debug, PartialEq, Eq, Structural)]
pub enum RunError {
    /// A CSV line does not have exactly four fields, or its count field is
    /// not an unsigned integer that fits the count type.
    UnparsableRecord,
    /// An IP field is empty (or starts with a line break), so no partition
    /// key can be derived from it.
    UnmatchedPartitionKey,
    /// The aggregation phase cannot parse the IP field of a record.
    UnparsableIp,
}

} // verus!
