use vstd::prelude::*;

verus! {

/// The ways in which encoding a query or decoding a reply can fail.
#[derive(Debug, Clone, Copy, PartialEq, Eq, Structural)]
pub enum DnsError {
    /// A label of a domain name is empty or longer than 63 bytes.
    InvalidLabel,
    /// The encoded name does not fit the 128-byte name buffer.
    NameTooLong,
    /// An offset or a length points past the end of the message.
    TruncatedMessage,
    /// A record of fixed size declares another length for its body.
    MalformedRecord,
    /// Following compression pointers took more steps than the message has bytes.
    CompressionLoop,
}

} // verus!
