//! The bookmark as the repository keeps it.

use vstd::prelude::*;
use crate::domain::data::BookmarkModel;

verus! {

/// A bookmark: a page, by its address, under a title.
#[derive(Debug, PartialEq)]
pub struct Bookmark {
    pub id: String,
    pub url: String,
    pub title: String,
}

impl View for Bookmark {
    type V = BookmarkModel;

    open spec fn view(&self) -> BookmarkModel {
        BookmarkModel { id: self.id@, url: self.url@, title: self.title@ }
    }
}

impl Clone for Bookmark {
    fn clone(&self) -> (copy: Self)
        ensures
            copy@ == self@,
    {
        Bookmark { id: self.id.clone(), url: self.url.clone(), title: self.title.clone() }
    }
}

} // verus!
