use vstd::prelude::*;

verus! {

/// The failure kinds the storage core distinguishes.
///
/// `IoFailure` is reserved for callers that wrap the library around real
/// files or sockets; the in-memory core itself never produces it.
#[derive(Clone, Copy, Debug, PartialEq, Eq)]
pub enum KvError {
    IoFailure,
    CorruptLog,
    CorruptSSTable,
    ParseError,
    Unsupported,
}

} // verus!
