use vstd::prelude::*;

verus! {

/// The failures that bucket and store operations surface to callers.
#[derive(Clone, Copy, Debug, PartialEq, Eq, Structural)]
pub enum BucketError {
    /// A quota (bucket or store) would be exceeded.
    StorageFull,
    /// No entry with the given hash key exists.
    NotFound,
    /// An entry with the same path or hash key already exists.
    AlreadyExists,
    /// File data was requested for a directory.
    IsADirectory,
    /// A directory operation was requested on a file.
    NotADirectory,
    /// The arguments are malformed (self-targets, destination inside source).
    InvalidInput,
    /// A pass-through input/output failure.
    Io,
}

impl BucketError {
    /// A short diagnostic text for the error.
    pub fn message(&self) -> (r: &'static str)
        ensures
            r@.len() > 0,
    {
        proof {
            reveal_strlit("there is no free space left");
            reveal_strlit("no entry with this key");
            reveal_strlit("an entry with this path already exists");
            reveal_strlit("this entry is a directory");
            reveal_strlit("this entry is not a directory");
            reveal_strlit("invalid argument");
            reveal_strlit("input/output failure");
        }
        match self {
            BucketError::StorageFull => "there is no free space left",
            BucketError::NotFound => "no entry with this key",
            BucketError::AlreadyExists => "an entry with this path already exists",
            BucketError::IsADirectory => "this entry is a directory",
            BucketError::NotADirectory => "this entry is not a directory",
            BucketError::InvalidInput => "invalid argument",
            BucketError::Io => "input/output failure",
        }
    }
}

} // verus!
