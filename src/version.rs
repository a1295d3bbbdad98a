//! Versions of the `eth` sub-protocol that this crate understands.
use vstd::prelude::*;

verus! {

/// A version of the `eth` sub-protocol.
#[derive(Clone, Copy, Debug, PartialEq, Eq, Hash, Structural)]
pub enum EthVersion {
    /// The `eth/66` protocol.
    Eth66,
    /// The `eth/67` protocol.
    Eth67,
}

/// The version number carried on the wire for each supported version.
pub open spec fn eth_version_number(v: EthVersion) -> u8 {
    match v {
        EthVersion::Eth66 => 66,
        EthVersion::Eth67 => 67,
    }
}

/// The number of message ids that each supported version reserves.
pub open spec fn eth_version_messages(v: EthVersion) -> u8 {
    match v {
        EthVersion::Eth66 => 15,
        EthVersion::Eth67 => 13,
    }
}

/// The supported version whose wire number is `n`, if any.
pub open spec fn eth_version_of(n: u8) -> Option<EthVersion> {
    if n == 66 {
        Some(EthVersion::Eth66)
    } else if n == 67 {
        Some(EthVersion::Eth67)
    } else {
        None
    }
}

/// The error of reading a version number that names no supported version; it
/// holds the number that was read.
#[derive(Clone, Copy, Debug, PartialEq, Eq, Structural)]
pub struct ParseVersionError(pub u8);

impl EthVersion {
    /// Reads a supported version from its wire number.
    pub fn from_u8(n: u8) -> (r: Result<EthVersion, ParseVersionError>)
        ensures
            match eth_version_of(n) {
                Some(v) => r == Ok::<EthVersion, ParseVersionError>(v),
                None => r == Err::<EthVersion, ParseVersionError>(ParseVersionError(n)),
            },
    {
        if n == 66 {
            Ok(EthVersion::Eth66)
        } else if n == 67 {
            Ok(EthVersion::Eth67)
        } else {
            Err(ParseVersionError(n))
        }
    }

    /// The wire number of this version.
    pub fn as_u8(&self) -> (r: u8)
        ensures
            r == eth_version_number(*self),
            eth_version_of(r) == Some(*self),
    {
        match self {
            EthVersion::Eth66 => 66,
            EthVersion::Eth67 => 67,
        }
    }

    /// The number of message ids that this version reserves.
    pub fn total_messages(&self) -> (r: u8)
        ensures
            r == eth_version_messages(*self),
    {
        match self {
            EthVersion::Eth66 => 15,
            EthVersion::Eth67 => 13,
        }
    }
}

} // verus!
