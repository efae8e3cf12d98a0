use vstd::prelude::*;
use crate::fm::FileId;

verus! {

/// A source location: a file and a 1-based line number.
#[derive(Copy, Clone, Debug, PartialEq, Eq, Structural)]
pub struct Loc(pub FileId, pub u32);

/// A file path as shown to the user.
pub struct FilePathDisplay(pub String);

/// A location as shown to the user: `path:line`.
pub struct DisplayLoc {
    pub file_path: FilePathDisplay,
    pub line_number: u32,
}

impl Loc {
    pub fn file_id(&self) -> (r: FileId)
        ensures
            r == self.0,
    {
        self.0
    }

    pub fn line_number(&self) -> (r: u32)
        ensures
            r == self.1,
    {
        self.1
    }

    /// The location shown with the given path, for files that are not
    /// registered yet.
    pub fn display_from_str(&self, file_path: &str) -> (r: DisplayLoc)
        ensures
            r.file_path.0@ == file_path@,
            r.line_number == self.1,
    {
        DisplayLoc { file_path: FilePathDisplay(file_path.to_owned()), line_number: self.1 }
    }
}

} // verus!
