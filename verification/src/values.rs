//! What a caller hands over to make or to find a bookmark.

use vstd::prelude::*;

verus! {

/// The address and the title of a bookmark to be made.
#[derive(Debug)]
pub struct BookmarkInput {
    pub url: String,
    pub title: String,
}

/// A question for one bookmark, by its identity.
#[derive(Debug)]
pub struct BookmarkQuery {
    pub id: String,
}

} // verus!
