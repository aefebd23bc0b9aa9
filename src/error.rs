use vstd::prelude::*;

verus! {

/// Everything that can go wrong while handling one datagram.
#[derive(Debug, Clone, Copy, PartialEq, Eq, Structural)]
pub enum DnsError {
    /// A read or write touched a byte at or past the valid length.
    EndOfBuffer,
    /// A name followed more compression pointers than allowed.
    JumpsExceeded,
    /// A label of a name to be written is longer than 63 bytes.
    LabelTooLong,
    /// Text that had to be an IPv4 address was not.
    BadAddress,
    /// A request carried no question.
    NoQuestion,
    /// A chain of pending queries refers to a record that is gone.
    ParentChainMissing,
    /// A name server was resolved to something other than an IPv4 address.
    NonIPv4Glue,
    /// A dynamic-update packet failed its digest check.
    DyndnsChecksum,
    /// A dynamic-update packet lies outside the accepted time window.
    DyndnsTimeWindow,
    /// A dynamic-update packet could not be understood.
    DyndnsMalformed,
}

} // verus!
