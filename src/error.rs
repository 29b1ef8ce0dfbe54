//! Errors of configuration validation.

use vstd::prelude::*;

use crate::config::Version;
use crate::utils::UtilsError;

verus! {

/// Why a configuration was rejected.
#[derive(Debug, PartialEq, Eq)]
pub enum PasswordGenError {
    /// A structural violation, with its reason.
    InvalidConfig(String),
    /// The declared version lies outside the supported range (given second).
    IncompatibleVersion(Version, String),
    /// The ordering pattern does not follow the pattern grammar.
    InvalidPattern(String),
    /// A token of a character set could not be resolved.
    InvalidToken(UtilsError),
}

} // verus!
