use vstd::prelude::*;

verus! {

/// Failures surfaced by the resolution and wake logic.
///
/// Transport-level failures (HTTP fetch errors, UDP send errors) never reach
/// this type: the caching layer absorbs fetch failures, and sending is done
/// outside the core.
#[derive(Debug, PartialEq, Eq)]
pub enum Error {
    /// Address text is not six lowercase hex byte pairs joined by `:`.
    InvalidMacAddress,
    /// A wake request carried neither an address nor a machine name.
    InvalidRequest,
    /// No resolver knows the requested machine name.
    UnknownMachine,
    /// A `name=address` configuration entry is malformed; carries the entry.
    FailedToParseMachineMapping(String),
}

} // verus!
