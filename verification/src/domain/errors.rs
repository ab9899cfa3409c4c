//! What a command can be refused for.

use vstd::prelude::*;

verus! {

/// The reasons for which a command on a bookmark fails.
#[derive(Clone, Copy, Debug, PartialEq, Eq, Structural)]
pub enum DomainError {
    /// The bookmark was never created, or has been deleted.
    NoSuchBookmark,
    /// A bookmark with this identity exists already.
    BookmarkAlreadyExists,
    /// The event store or the read model failed.
    PortError,
}

impl DomainError {
    /// The text that describes this error.
    pub fn message(&self) -> (text: String)
        ensures
            text@ == match *self {
                DomainError::NoSuchBookmark => "No such bookmark"@,
                DomainError::BookmarkAlreadyExists => "Bookmark already exists"@,
                DomainError::PortError => "Error interfacing with external system"@,
            },
    {
        match self {
            DomainError::NoSuchBookmark => "No such bookmark".to_owned(),
            DomainError::BookmarkAlreadyExists => "Bookmark already exists".to_owned(),
            DomainError::PortError => "Error interfacing with external system".to_owned(),
        }
    }
}

} // verus!
