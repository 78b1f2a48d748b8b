//! The failures that processing a single payload can end in.

use vstd::prelude::*;

verus! {

/// Why a payload was refused. A failure is local to the payload that caused
/// it and never by itself ends the connection.
#[derive(Clone, Copy, Debug, PartialEq, Eq, Structural)]
pub enum ErrorKind {
    /// The received datagram was empty or ended before its header did.
    ReceivedDataTooShort,
    /// The payload needs more fragments than the count field can express.
    PayloadTooLarge,
    /// A fragment disagrees with its group: its index is not below its
    /// declared count, or the count differs from the one seen before.
    FragmentGroupMismatch,
    /// A header field holds a value that names no packet type, guarantee or
    /// flag.
    MalformedHeader,
}

} // verus!
