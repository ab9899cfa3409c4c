//! A repository of bookmarks that lives in memory.

use vstd::prelude::*;
use crate::domain::data::BookmarkModel;
use crate::entities::Bookmark;
use crate::repositories::{first_with_id, is_first, kept, Repository};
use crate::values::BookmarkQuery;

verus! {

/// A repository in memory.
#[derive(Debug)]
pub struct MemoryRepository {
    pub bookmarks: Vec<Bookmark>,
}

impl MemoryRepository {
    /// A repository without bookmarks.
    pub fn new() -> (repository: Self)
        ensures
            repository.bookmarks() == Seq::<BookmarkModel>::empty(),
    {
        let repository = Self { bookmarks: Vec::new() };
        assert(kept(repository.bookmarks@) =~= Seq::<BookmarkModel>::empty());
        repository
    }
}

impl Repository for MemoryRepository {
    open spec fn bookmarks(&self) -> Seq<BookmarkModel> {
        kept(self.bookmarks@)
    }

    fn insert(&mut self, bookmark: Bookmark) -> (outcome: Result<Bookmark, ()>)
        ensures
            outcome is Ok,
    {
        let ghost before = kept(self.bookmarks@);
        self.bookmarks.push(bookmark.clone());
        assert(kept(self.bookmarks@) =~= before.push(bookmark@));
        Ok(bookmark)
    }

    fn fetch_first(&self, query: BookmarkQuery) -> (outcome: Result<Bookmark, ()>) {
        match first_with_id(&self.bookmarks, query.id.as_str()) {
            Some(bookmark) => {
                proof {
                    let at = choose|at: int| #[trigger]
                        is_first(kept(self.bookmarks@), query.id@, at) && bookmark@ == kept(
                            self.bookmarks@,
                        )[at];
                    assert(is_first(self.bookmarks(), query.id@, at));
                }
                Ok(bookmark)
            },
            None => Err(()),
        }
    }
}

} // verus!
