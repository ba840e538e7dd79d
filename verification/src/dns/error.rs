//! Errors returned while parsing DNS messages from the wire.

use crate::text::{decimal, decimal_text};
use vstd::prelude::*;

verus! {

/// An error encountered while parsing a DNS message off the wire.
///
/// Parsing runs once per inbound datagram, malformed ones among them, so every
/// variant is `Copy` and carries only static data: constructing one allocates
/// nothing.
#[derive(Debug, Clone, Copy, PartialEq, Eq)]
pub enum DnsError {
    /// A length/bounds check failed while reading the named field.
    Truncated {
        /// Which field was being read.
        what: &'static str,
    },
    /// A resource record's rdata was invalid for its type.
    InvalidRdata {
        /// The numeric record type whose rdata was malformed.
        rtype: u16,
    },
    /// Too many compression pointers were followed (a likely pointer loop).
    PointerLoop,
}

impl DnsError {
    /// The message that describes an error.
    pub open spec fn message_spec(self) -> Seq<char> {
        match self {
            DnsError::Truncated { what } => "message truncated while reading "@ + what@,
            DnsError::InvalidRdata { rtype } => "invalid rdata length for record type "@ + decimal(
                rtype as nat,
            ),
            DnsError::PointerLoop => "too many compression pointers (possible pointer loop)"@,
        }
    }

    /// Describes the error in words.
    pub fn message(&self) -> (r: String)
        ensures
            r@ == self.message_spec(),
    {
        match *self {
            DnsError::Truncated { what } => {
                let mut s = "message truncated while reading ".to_owned();
                s.append(what);
                s
            },
            DnsError::InvalidRdata { rtype } => {
                let mut s = "invalid rdata length for record type ".to_owned();
                s.append(decimal_text(rtype as u64).as_str());
                s
            },
            DnsError::PointerLoop =>
                "too many compression pointers (possible pointer loop)".to_owned(),
        }
    }
}

} // verus!
