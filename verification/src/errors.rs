use vstd::prelude::*;

verus! {

/// Why a public-address lookup failed.
///
/// `ConnectionError`: the transport to the endpoint could not be
/// established. `IOError`: reading or decoding an established stream
/// failed. `ParseError`: the extractor found fewer than four candidate
/// octets in the text, or the assembled candidate was not a valid IPv4
/// literal. All three are terminal for the call that raised them.
#[derive(Clone, Copy, Debug, PartialEq, Eq, Structural)]
pub enum IpError {
    ConnectionError,
    IOError,
    ParseError,
}

} // verus!
