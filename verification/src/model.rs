//! Records shared by the whole-recording model: where the member files of a recording
//! are, which kind of channel an edit addresses, a status change, and the free-text
//! header file.

use vstd::prelude::*;

use crate::error::{Error, FileRole};
use crate::time::Timestamp;

verus! {

/// A file-system path, carried through without being looked into.
#[verifier::external_type_specification]
#[verifier::external_body]
pub struct ExPathBuf(std::path::PathBuf);

/// A borrowed file-system path, carried through without being looked into.
#[verifier::external_type_specification]
#[verifier::external_body]
pub struct ExPath(std::path::Path);

/// Copies a path (`PathBuf::clone`, used by the derived `Clone` of `ComtradePaths`);
/// nothing is claimed of the copy.
pub assume_specification[ <std::path::PathBuf as core::clone::Clone>::clone ](
    p: &std::path::PathBuf,
) -> std::path::PathBuf;

/// The member files of a recording (each `Some` only when the file exists).
#[derive(Debug, Clone, Default)]
pub struct ComtradePaths {
    /// Directory of the files.
    pub dir: std::path::PathBuf,
    /// File name without extension.
    pub stem: String,
    /// Configuration file.
    pub cfg: Option<std::path::PathBuf>,
    /// Sample data file.
    pub dat: Option<std::path::PathBuf>,
    /// Free-text header file.
    pub hdr: Option<std::path::PathBuf>,
    /// Information file.
    pub inf: Option<std::path::PathBuf>,
    /// Device model file.
    pub dmf: Option<std::path::PathBuf>,
}

/// The kind of channel that an edit addresses.
#[derive(Debug, Clone, Copy, PartialEq, Eq, Structural)]
pub enum ChannelKind {
    /// Analog channel.
    Analog,
    /// Status channel.
    Status,
}

/// A change of a status channel's state.
#[derive(Debug, Clone, Copy)]
pub struct StatusChange {
    /// Sample number (1-based).
    pub sample_point: usize,
    /// Absolute time of the sample, when the recording's start time is known.
    pub timestamp: Option<Timestamp>,
    /// The new state (0 or 1).
    pub state: u8,
}

/// The free-text header file (`.hdr`). Its layout is not fixed, so it is neither read
/// nor written; the type reserves its place in a recording.
#[derive(Debug, Clone, Default)]
pub struct HdrFile {
    /// Text of the file.
    pub content: String,
}

impl HdrFile {
    /// Reading a header file is not supported.
    pub fn from_file(path: &std::path::Path) -> (r: Result<HdrFile, Error>)
        ensures
            r == Err::<HdrFile, Error>(Error::UnsupportedFormat(FileRole::Hdr)),
    {
        Err(Error::UnsupportedFormat(FileRole::Hdr))
    }

    /// Writing a header file is not supported.
    pub fn write_file(&self, path: &std::path::Path) -> (r: Result<(), Error>)
        ensures
            r == Err::<(), Error>(Error::UnsupportedFormat(FileRole::Hdr)),
    {
        Err(Error::UnsupportedFormat(FileRole::Hdr))
    }
}

} // verus!
