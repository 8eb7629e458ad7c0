//! The ways in which decoding, encoding or resolution can fail.

use vstd::prelude::*;

verus! {

/// Why a packet, a name or an upstream exchange was rejected.
#[derive(Debug, Clone, Copy, PartialEq, Eq, Structural)]
pub enum DnsError {
    /// The buffer ends before a field or record is complete.
    TruncatedInput,
    /// A name follows a pointer to an offset it has already followed, follows
    /// too many pointers, or is longer than a name may be.
    MalformedName,
    /// The declared data length of a record disagrees with the bytes copied.
    InconsistentLength,
    /// A label is longer than 63 bytes and cannot be encoded.
    InvalidLabel,
    /// The upstream server could not be reached.
    UpstreamUnreachable,
    /// The upstream reply is not a response.
    UpstreamProtocolError,
}

} // verus!
