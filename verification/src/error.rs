//! Error type shared by the library.

use vstd::prelude::*;

verus! {

/// Library operational errors. Paths are carried as their UTF-8 text.
#[derive(Debug)]
pub enum Error {
    NotImplemented(String),
    /// An I/O failure, carried as its rendered message.
    Io(String),
    Message(String),
    Cli(String),
    Selection(String),
    Archive(String),
    OutputExists(String),
    EmptyArchive,
    PathTraversal(String),
    Collision(String),
    InvalidMemberName(String),
    FilterFileTooLarge { path: String, detail: String },
    NotRegularFile(String),
    InvalidUtf8Path(String),
    FileTooLarge { path: String, size: u64, limit: u64 },
    Compress(String),
    /// Source vanished or became inaccessible between selection and open.
    Vanished(String),
}

/// Convenient result alias.
pub type Result<T> = core::result::Result<T, Error>;

impl Error {
    /// Build a message error from a string.
    pub fn msg(s: String) -> (e: Error)
        ensures
            e matches Error::Message(m) && m@ == s@,
    {
        Error::Message(s)
    }
}

} // verus!
