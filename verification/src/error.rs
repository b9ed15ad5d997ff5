//! What can go wrong in the library.

use crate::text::{join2, join3};
use vstd::prelude::*;
use vstd::string::*;

verus! {

/// The failures that the library reports.
#[derive(Debug, PartialEq, Eq)]
pub enum Error {
    /// A configuration names an upstream environment that it does not define.
    PreviousNotDefined { name: String },
    /// The upstream environment has no recorded state yet.
    PreviousNotDeployed { name: String },
    /// The gates file has no entry for the environment.
    MissingGate,
    /// A gates branch was given without a gates file.
    MissingGatesFile,
    /// The gates file could not be read from the gates branch.
    UnreadableGatesFile,
    /// The configuration has no environment of this name.
    EnvironmentNotFound { name: String },
    /// Nothing was ever recorded for the environment.
    NoStateRecorded { name: String },
    /// A file pattern is not a valid glob.
    InvalidPattern { pattern: String },
    /// An environment was recorded so often that its version no longer fits.
    VersionOverflow,
    /// Neither the parameters nor the source of a resource name an environment.
    EnvironmentNotSpecified,
}

/// The text that [`Error::message`] gives for each failure.
pub open spec fn error_text(error: Error) -> Seq<char> {
    match error {
        Error::PreviousNotDefined { name } => "Previous environment '"@ + name@ + "' not defined"@,
        Error::PreviousNotDeployed { name } => "Previous environment '"@ + name@
            + "' not deployed yet"@,
        Error::MissingGate => "Environment is missing in gates file"@,
        Error::MissingGatesFile => "Missing gates_file in source"@,
        Error::UnreadableGatesFile => "Couldn't read gates file"@,
        Error::EnvironmentNotFound { name } => "Environment '"@ + name@ + "' not found in config"@,
        Error::NoStateRecorded { name } => "No state recorded for "@ + name@,
        Error::InvalidPattern { pattern } => "Couldn't compile glob pattern '"@ + pattern@ + "'"@,
        Error::VersionOverflow => "Version counter exhausted"@,
        Error::EnvironmentNotSpecified => "Environment not specified in source"@,
    }
}

impl Error {
    /// The failure in words, for people.
    pub fn message(&self) -> (text: String)
        ensures
            text@ == error_text(*self),
    {
        match self {
            Error::PreviousNotDefined { name } => join3(
                "Previous environment '",
                name.as_str(),
                "' not defined",
            ),
            Error::PreviousNotDeployed { name } => join3(
                "Previous environment '",
                name.as_str(),
                "' not deployed yet",
            ),
            Error::MissingGate => String::from_str("Environment is missing in gates file"),
            Error::MissingGatesFile => String::from_str("Missing gates_file in source"),
            Error::UnreadableGatesFile => String::from_str("Couldn't read gates file"),
            Error::EnvironmentNotFound { name } => join3(
                "Environment '",
                name.as_str(),
                "' not found in config",
            ),
            Error::NoStateRecorded { name } => join2("No state recorded for ", name.as_str()),
            Error::InvalidPattern { pattern } => join3(
                "Couldn't compile glob pattern '",
                pattern.as_str(),
                "'",
            ),
            Error::VersionOverflow => String::from_str("Version counter exhausted"),
            Error::EnvironmentNotSpecified => String::from_str(
                "Environment not specified in source",
            ),
        }
    }
}

} // verus!
