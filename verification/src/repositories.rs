//! A repository of bookmarks: they are put in one after the other, and found
//! again by their identity.

use vstd::prelude::*;
use crate::domain::data::BookmarkModel;
use crate::entities::Bookmark;
use crate::text::text_eq;
use crate::values::BookmarkQuery;

verus! {

/// The bookmarks of a sequence, each as its mathematical value.
pub open spec fn kept(bookmarks: Seq<Bookmark>) -> Seq<BookmarkModel> {
    bookmarks.map_values(|b: Bookmark| b@)
}

/// `at` is the index of the first bookmark of the identity `id`.
pub open spec fn is_first(bookmarks: Seq<BookmarkModel>, id: Seq<char>, at: int) -> bool {
    &&& 0 <= at < bookmarks.len()
    &&& bookmarks[at].id == id
    &&& forall|i: int| 0 <= i < at ==> (#[trigger] bookmarks[i]).id != id
}

/// No bookmark has the identity `id`.
pub open spec fn is_absent(bookmarks: Seq<BookmarkModel>, id: Seq<char>) -> bool {
    forall|i: int| 0 <= i < bookmarks.len() ==> (#[trigger] bookmarks[i]).id != id
}

/// A store of bookmarks.
pub trait Repository {
    /// The bookmarks, in the order in which they were put in.
    spec fn bookmarks(&self) -> Seq<BookmarkModel>;

    /// Puts a bookmark in, behind those that are there, and hands it back.
    fn insert(&mut self, bookmark: Bookmark) -> (outcome: Result<Bookmark, ()>)
        ensures
            match outcome {
                Ok(stored) => stored@ == bookmark@ && final(self).bookmarks() == old(
                    self,
                ).bookmarks().push(bookmark@),
                Err(_) => final(self).bookmarks() == old(self).bookmarks(),
            },
    ;

    /// The first bookmark of the identity asked for, or an error where there
    /// is none.
    fn fetch_first(&self, query: BookmarkQuery) -> (outcome: Result<Bookmark, ()>)
        ensures
            match outcome {
                Ok(found) => exists|at: int| #[trigger]
                    is_first(self.bookmarks(), query.id@, at) && found@ == self.bookmarks()[at],
                Err(_) => is_absent(self.bookmarks(), query.id@),
            },
    ;
}

/// The first bookmark of the identity `id` among `bookmarks`, or `None` where
/// there is none.
pub fn first_with_id(bookmarks: &Vec<Bookmark>, id: &str) -> (found: Option<Bookmark>)
    ensures
        match found {
            Some(bookmark) => exists|at: int| #[trigger]
                is_first(kept(bookmarks@), id@, at) && bookmark@ == kept(bookmarks@)[at],
            None => is_absent(kept(bookmarks@), id@),
        },
{
    let mut i: usize = 0;
    while i < bookmarks.len()
        invariant
            i <= bookmarks@.len(),
            forall|j: int| 0 <= j < i ==> (#[trigger] kept(bookmarks@)[j]).id != id@,
        decreases bookmarks@.len() - i,
    {
        if text_eq(bookmarks[i].id.as_str(), id) {
            assert(is_first(kept(bookmarks@), id@, i as int));
            return Some(bookmarks[i].clone());
        }
        i += 1;
    }
    None
}

/// A repository in memory.
#[derive(Debug)]
pub struct InMemoryRepository {
    pub bookmarks: Vec<Bookmark>,
}

impl InMemoryRepository {
    /// A repository without bookmarks.
    pub fn new() -> (repository: Self)
        ensures
            repository.bookmarks() == Seq::<BookmarkModel>::empty(),
    {
        let repository = Self { bookmarks: Vec::new() };
        assert(kept(repository.bookmarks@) =~= Seq::<BookmarkModel>::empty());
        repository
    }
}

impl Repository for InMemoryRepository {
    open spec fn bookmarks(&self) -> Seq<BookmarkModel> {
        kept(self.bookmarks@)
    }

    fn insert(&mut self, bookmark: Bookmark) -> (outcome: Result<Bookmark, ()>)
        ensures
            outcome is Ok,
    {
        let ghost before = kept(self.bookmarks@);
        self.bookmarks.push(bookmark.clone());
        assert(kept(self.bookmarks@) =~= before.push(bookmark@));
        Ok(bookmark)
    }

    fn fetch_first(&self, query: BookmarkQuery) -> (outcome: Result<Bookmark, ()>) {
        match first_with_id(&self.bookmarks, query.id.as_str()) {
            Some(bookmark) => {
                proof {
                    let at = choose|at: int| #[trigger]
                        is_first(kept(self.bookmarks@), query.id@, at) && bookmark@ == kept(
                            self.bookmarks@,
                        )[at];
                    assert(is_first(self.bookmarks(), query.id@, at));
                }
                Ok(bookmark)
            },
            None => Err(()),
        }
    }
}

} // verus!
