//! The ways in which a cycle can fail.

use vstd::prelude::*;

verus! {

/// The direction of a transfer between the staging copy and the remote.
#[derive(Debug, Clone, Copy, PartialEq, Eq, Structural)]
pub enum Direction {
    /// From the remote address to the staging copy.
    Pull,
    /// From the staging copy to the remote address.
    Push,
}

/// A setting that a replica cannot run without.
#[derive(Debug, Clone, Copy, PartialEq, Eq, Structural)]
pub enum Setting {
    /// The application's name.
    AppName,
    /// The release channel, which selects the profile.
    Channel,
    /// The remote address.
    Url,
    /// The base directories under which the state is kept.
    BaseDirectories,
    /// The working directory that holds the files.
    WorkingDirectory,
}

/// Why a cycle was given up. The texts are those that the reporting side
/// supplied; they are carried along unchanged.
#[derive(Debug, PartialEq, Eq)]
pub enum SyncError {
    /// A setting is missing or unusable.
    Configuration(Setting),
    /// The durable state was expected and is not there.
    NotFound,
    /// Stored state could not be decoded.
    Decode(String),
    /// The state could not be encoded.
    Encode(String),
    /// A file's name is not valid text; the text shows the name as far as it
    /// can be shown.
    Encoding(String),
    /// Reading or writing the file system failed.
    Io(String),
    /// A transfer failed; the text says how it ended.
    Transfer(Direction, String),
    /// A reply arrived that does not answer the request that was made.
    Unexpected,
}

} // verus!
