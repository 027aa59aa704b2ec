use vstd::prelude::*;
use vstd::string::*;

verus! {

/// The ways in which an operation of the engine can fail.
#[derive(Debug, Clone, Copy, PartialEq, Eq, Structural)]
pub enum FsError {
    /// No entry is stored under the resolved path.
    NotFound,
    /// An entry is already stored under the resolved path.
    AlreadyExists,
    /// The acting user is neither the administrator nor the owner.
    PermissionDenied,
    /// The entry exists but is not a directory.
    WrongEntryKind,
    /// The backing container could not be read or written.
    IoFailure,
}

impl FsError {
    /// The text for this kind of failure.
    pub open spec fn spec_message(self) -> Seq<char> {
        match self {
            FsError::NotFound => "File or directory not found"@,
            FsError::AlreadyExists => "File or Directory already exists"@,
            FsError::PermissionDenied => "Permission denied"@,
            FsError::WrongEntryKind => "Not a directory"@,
            FsError::IoFailure => "Input/output error"@,
        }
    }

    /// Renders the failure as text.
    pub fn message(&self) -> (text: String)
        ensures
            text@ == self.spec_message(),
    {
        match self {
            FsError::NotFound => String::from_str("File or directory not found"),
            FsError::AlreadyExists => String::from_str("File or Directory already exists"),
            FsError::PermissionDenied => String::from_str("Permission denied"),
            FsError::WrongEntryKind => String::from_str("Not a directory"),
            FsError::IoFailure => String::from_str("Input/output error"),
        }
    }
}

} // verus!
