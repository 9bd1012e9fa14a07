//! Failure kinds of the engine, each carried with a human-readable detail.

use vstd::prelude::*;

verus! {

/// What went wrong.
#[derive(Clone, Copy, Debug, PartialEq, Eq, Structural)]
pub enum APMErrorType {
    /// The traversal of the source tree failed.
    WalkdirError,
    /// A symbolic link stood in the tree that was to be packed.
    SymlinkFoundError,
    /// A source file could not be opened or read.
    FileOpenError,
    /// The bytes are not a readable zip container.
    ZIPArchiveOpenError,
    /// No entry of the requested name is in the archive.
    ZIPArchiveFileFindError,
    /// An entry is present but its content cannot be read.
    ZIPFileReadError,
    /// A directory entry could not be written.
    ZIPAddDirectoryError,
    /// A file entry could not be started.
    ZIPStartFileError,
    /// The content of a file entry could not be written.
    ZIPFileCopyError,
    /// The archive could not be completed.
    ZIPFinishError,
    /// A checksum marker is present and replacing it was not asked for.
    ChecksumMarkerExistsError,
    /// No checksum marker is present.
    ChecksumMarkerNotFoundError,
    /// The archive has no entry for the requested object.
    ObjectEntryNotFoundError,
    /// The entry of an object does not hold a record collection.
    DeserializationError,
    /// A record collection cannot be written in the storage format.
    SerializationError,
    /// The number of keys differs from the number of value templates.
    KeyValueCountMismatchError,
    /// The filter expression is malformed.
    FilterParseError,
    /// A value template names a field that a matched record lacks.
    UnknownFieldReferenceError,
}

/// A failure: its kind and a detail for the reader.
#[derive(Clone, Debug)]
pub struct APMError {
    pub err_type: APMErrorType,
    pub msg: String,
}

impl APMErrorType {
    /// Attaches a detail to the kind.
    pub fn into_apm_error(self, msg: String) -> (e: APMError)
        ensures
            e.err_type == self,
            e.msg == msg,
    {
        APMError { err_type: self, msg }
    }
}

impl APMError {
    /// The kind of the failure.
    pub fn kind(&self) -> (k: APMErrorType)
        ensures
            k == self.err_type,
    {
        self.err_type
    }
}

} // verus!
