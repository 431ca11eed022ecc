//! Errors reported when a CIDR block is built or parsed.

use vstd::prelude::*;

verus! {

/// Why a CIDR block could not be built from its parts or from text.
#[derive(PartialEq, Eq, Structural, Debug, Clone, Copy)]
pub enum NetworkParseError {
    /// The part before the `/` is not a dotted-quad IPv4 address.
    AddrParseError,
    /// The part after the `/` is not a decimal number: one digit or more, which may
    /// follow one `+`.
    ParseIntError,
    /// The text does not consist of exactly two parts separated by one `/`.
    CidrParseError,
    /// The prefix length exceeds 32, or the address has bits set outside its prefix.
    NetworkLengthError,
}

} // verus!
