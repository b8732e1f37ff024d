//! The flush statistics that a writer leaves for readers.

use vstd::prelude::*;

verus! {

/// How far a session's writes lag behind, as its writer last said.
#[derive(Clone, Copy, Debug, PartialEq, Eq, Structural)]
pub struct SessionFlushStats {
    pub flush_lag_ms: u64,
    pub log_depth: u64,
}

/// The number that a column holds: the same, or, past what a column can hold, the number a whole
/// turn of sixty-four bits below it.
pub open spec fn column_of(n: u64) -> int {
    if n <= i64::MAX {
        n as int
    } else {
        n - 0x1_0000_0000_0000_0000
    }
}

/// The number that is read of a column. One below zero reads as the largest.
pub open spec fn read_of(n: i64) -> u64 {
    if n < 0 {
        u64::MAX
    } else {
        n as u64
    }
}

/// The number that a column holds.
pub fn stat_to_column(n: u64) -> (c: i64)
    ensures
        c == column_of(n),
{
    if n <= i64::MAX as u64 {
        n as i64
    } else {
        (n as i128 - 0x1_0000_0000_0000_0000) as i64
    }
}

/// Reads a column.
pub fn stat_from_column(c: i64) -> (n: u64)
    ensures
        n == read_of(c),
{
    if c < 0 {
        u64::MAX
    } else {
        c as u64
    }
}

/// Reads the two columns of a session's statistics.
pub fn read_flush_stats(flush_lag_ms: i64, log_depth: i64) -> (s: SessionFlushStats)
    ensures
        s == (SessionFlushStats {
            flush_lag_ms: read_of(flush_lag_ms),
            log_depth: read_of(log_depth),
        }),
{
    SessionFlushStats {
        flush_lag_ms: stat_from_column(flush_lag_ms),
        log_depth: stat_from_column(log_depth),
    }
}

/// A number that fits a column reads back as itself, and a larger one as the largest: what is read
/// is never less than what was written.
pub proof fn a_statistic_reads_back(n: u64)
    ensures
        n <= i64::MAX ==> read_of(column_of(n) as i64) == n,
        n > i64::MAX ==> read_of(column_of(n) as i64) == u64::MAX,
{
}

} // verus!
