use vstd::prelude::*;

verus! {

/// Why a datagram could not be decoded or a message could not be encoded.
#[derive(Debug, Clone, Copy, PartialEq, Eq, Structural)]
pub enum DnsError {
    /// The response code in the header is not one of the six known codes.
    MalformedHeader,
    /// A name runs past the buffer, loops through compression pointers,
    /// or holds bytes that are not UTF-8; or the fixed-size fields of the
    /// record it opens run past the buffer.
    MalformedName,
    /// An answer is not an address record of the Internet class.
    UnsupportedRecord,
    /// A label is longer than 127 bytes, or the message exceeds 512 bytes.
    EncodingOverflow,
}

} // verus!
