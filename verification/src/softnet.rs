//! The per-CPU record type and the parser's error type.

use vstd::prelude::*;

verus! {

/// Network receive-path statistics for one reporting CPU, in the order the
/// kernel prints the columns. The first nine columns are present in every
/// kernel version; the four trailing columns were appended one by one by
/// later kernels, so within one snapshot either a column is present on
/// every line or on none.
#[derive(Debug, Clone, Copy, PartialEq, Eq)]
pub struct SoftnetStat {
    /// Number of network frames processed (first column).
    pub processed: u32,
    /// Number of frames dropped for want of queue room (second column).
    pub dropped: u32,
    /// Number of times the receive softirq stopped early although work
    /// remained (third column).
    pub time_squeeze: u32,
    /// Number of collisions when taking the device lock on transmit
    /// (ninth column; columns four to eight are legacy fields that no
    /// renderer displays).
    pub cpu_collision: u32,
    /// Times this CPU was woken by an inter-processor interrupt to process
    /// packets (tenth column, kernels from v2.6.36).
    pub received_rps: Option<u32>,
    /// Times the flow limit was reached (eleventh column, kernels from v3.11).
    pub flow_limit_count: Option<u32>,
    /// Length of the backlog queue (twelfth column, kernels from v5.10).
    pub backlog_len: Option<u32>,
    /// The CPU that owns this line (thirteenth column, kernels from v5.10).
    /// Offline CPUs are not dumped, so without this field a record's CPU is
    /// only its position in the sequence.
    pub cpu_id: Option<u32>,
}

/// What went wrong, as the grammar sees it.
#[derive(Debug, Clone, Copy, PartialEq, Eq, Structural)]
pub enum ParseErrorKind {
    /// The input held no bytes at all; a snapshot always has at least one CPU.
    EmptyInput,
    /// A hexadecimal field (or the single space in front of it) was expected
    /// and something else, or the end of the input, stood there.
    MalformedToken,
    /// The fields of a line were complete but no line terminator followed.
    MissingLineEnding,
}

/// A structural mismatch between the input and the softnet grammar.
#[derive(Debug, Clone, Copy, PartialEq, Eq, Structural)]
pub struct ParseError {
    /// Byte offset of the first offending byte.
    pub offset: usize,
    /// The kind of mismatch found there.
    pub kind: ParseErrorKind,
}

} // verus!
