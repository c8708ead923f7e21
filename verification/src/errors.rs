//! Structured errors for filesystem and clipboard operations.
//!
//! Every fallible operation reports which rule it hit and the path it hit it
//! on; `message` renders the human-readable string that callers surface.

use crate::fs_model::FsPath;
use vstd::prelude::*;
use vstd::string::*;

verus! {

/// The rule an operation failed on.
#[derive(Clone, Copy, Debug, PartialEq, Eq, Structural)]
pub enum FsErrorKind {
    /// A path that had to exist does not.
    NotFound,
    /// The path exists but does not hold a regular file.
    NotAFile,
    /// The path exists but does not hold a directory.
    NotADirectory,
    /// A destination that had to be free is already taken.
    AlreadyExists,
    /// The path is empty, has an empty component, or lies inside the
    /// subtree being moved.
    InvalidPath,
    /// A paste was asked for while nothing was staged.
    EmptyClipboard,
    /// The file's bytes are not the valid UTF-8 a text read demands.
    InvalidData,
}

/// A failure, with the path it concerns.
#[derive(Debug)]
pub struct FsError {
    pub kind: FsErrorKind,
    pub path: FsPath,
}

/// The fixed phrase that introduces each kind of failure.
pub open spec fn phrase(k: FsErrorKind) -> Seq<char> {
    match k {
        FsErrorKind::NotFound => "Path does not exist: "@,
        FsErrorKind::NotAFile => "Path is not a file: "@,
        FsErrorKind::NotADirectory => "Path is not a directory: "@,
        FsErrorKind::AlreadyExists => "Path already exists: "@,
        FsErrorKind::InvalidPath => "Invalid path: "@,
        FsErrorKind::EmptyClipboard => "Clipboard is empty"@,
        FsErrorKind::InvalidData => "File is not valid UTF-8: "@,
    }
}

/// A path rendered as text: each component preceded by a slash.
pub open spec fn path_text(p: Seq<Seq<char>>) -> Seq<char>
    decreases p.len(),
{
    if p.len() == 0 {
        Seq::<char>::empty()
    } else {
        path_text(p.drop_last()) + "/"@ + p.last()
    }
}

impl FsPath {
    /// The textual form of this path.
    pub fn to_text(&self) -> (r: String)
        ensures
            r@ == path_text(self@),
    {
        let n = self.components.len();
        let mut out = String::new();
        let mut i: usize = 0;
        proof {
            assert(self@.take(0) =~= Seq::<Seq<char>>::empty());
        }
        while i < n
            invariant
                i <= n,
                n == self.components.len(),
                out@ == path_text(self@.take(i as int)),
            decreases n - i,
        {
            out = out.concat("/");
            out = out.concat(self.components[i].as_str());
            proof {
                assert(self@.take(i as int + 1).drop_last() =~= self@.take(i as int));
                assert(self@.take(i as int + 1).last() == self@[i as int]);
            }
            i = i + 1;
        }
        proof {
            assert(self@.take(n as int) =~= self@);
        }
        out
    }
}

impl FsError {
    /// The error as the human-readable string callers surface.
    pub fn message(&self) -> (r: String)
        ensures
            self.kind is EmptyClipboard ==> r@ == phrase(self.kind),
            !(self.kind is EmptyClipboard) ==> r@ == phrase(self.kind) + path_text(self.path@),
    {
        let base = match self.kind {
            FsErrorKind::NotFound => "Path does not exist: ",
            FsErrorKind::NotAFile => "Path is not a file: ",
            FsErrorKind::NotADirectory => "Path is not a directory: ",
            FsErrorKind::AlreadyExists => "Path already exists: ",
            FsErrorKind::InvalidPath => "Invalid path: ",
            FsErrorKind::EmptyClipboard => "Clipboard is empty",
            FsErrorKind::InvalidData => "File is not valid UTF-8: ",
        };
        match self.kind {
            FsErrorKind::EmptyClipboard => base.to_owned(),
            _ => {
                let text = self.path.to_text();
                base.to_owned().concat(text.as_str())
            },
        }
    }
}

} // verus!
