//! The protocol-version guard every registry call passes.

use vstd::prelude::*;
use vstd::string::StringExecFns;

verus! {

broadcast use vstd::string::group_string_axioms;

/// Why a call was refused before it reached the registry.
#[derive(Debug, Clone, Copy, PartialEq, Eq, Structural)]
pub enum VersionError {
    /// The call carried no protocol version.
    NoVersionSupplied,
    /// The call carried another protocol version than the server's.
    WrongProtocolVersions,
}

impl VersionError {
    /// The status message sent back with the refusal.
    pub fn message(&self) -> (r: String)
        ensures
            *self == VersionError::NoVersionSupplied ==> r@ == "No version supplied"@,
            *self == VersionError::WrongProtocolVersions ==> r@ == "Wrong protocol versions"@,
    {
        match self {
            VersionError::NoVersionSupplied => String::from_str("No version supplied"),
            VersionError::WrongProtocolVersions => String::from_str("Wrong protocol versions"),
        }
    }
}

/// Admits a call whose supplied version equals the server's `expected` one.
pub fn check_version(expected: &str, supplied: Option<&str>) -> (r: Result<(), VersionError>)
    ensures
        match supplied {
            None => r == Err::<(), VersionError>(VersionError::NoVersionSupplied),
            Some(v) => if v@ == expected@ {
                r == Ok::<(), VersionError>(())
            } else {
                r == Err::<(), VersionError>(VersionError::WrongProtocolVersions)
            },
        },
{
    match supplied {
        None => Err(VersionError::NoVersionSupplied),
        Some(v) => {
            if v.to_owned() == expected.to_owned() {
                Ok(())
            } else {
                Err(VersionError::WrongProtocolVersions)
            }
        },
    }
}

} // verus!
