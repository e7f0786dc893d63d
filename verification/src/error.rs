//! The ways in which encoding or decoding a message can fail.

use vstd::prelude::*;

verus! {

/// Why a message could not be encoded or decoded.
#[derive(Clone, Copy, Debug, PartialEq, Eq, Structural)]
pub enum DnsError {
    /// The buffer ended before a field, a label or a record was complete.
    TruncatedMessage,
    /// A name holds a label longer than a length octet can express.
    Encoding,
    /// A response carries another transaction id than the request.
    TransactionMismatch,
    /// A length octet has its two top bits set, which marks a compression
    /// pointer, and the caller asked for such names to be refused.
    CompressedName,
    /// The octets of a decoded name are not valid UTF-8 text.
    MalformedName,
}

} // verus!
