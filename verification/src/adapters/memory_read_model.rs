//! A read model that lives in memory: the records of the live bookmarks, kept
//! in the ascending order of their identities.

use vstd::prelude::*;
use crate::domain::data::{bookmarks_model, BookmarkData, BookmarkModel, DomainEvent};
use crate::domain::events::{BookmarkEventPayload, DomainEventPayload};
use crate::ports::{ReadModel, ReadModelError};
use crate::projection::{
    ascending,
    holds_at,
    lemma_records_of,
    lemma_records_of_insert,
    lemma_records_of_remove,
    lemma_records_of_update,
    records_of,
    Records,
};
use crate::text::{
    lemma_text_before_irreflexive,
    lemma_text_before_total,
    lemma_text_before_transitive,
    text_before,
    text_eq,
    text_lt,
};

verus! {

/// `at` is the place of the identity `id` in the list: every record before it
/// has an identity that comes before `id`, and no record from it on has.
pub open spec fn is_place(list: Seq<BookmarkModel>, id: Seq<char>, at: int) -> bool {
    &&& 0 <= at <= list.len()
    &&& forall|i: int| 0 <= i < at ==> text_before((#[trigger] list[i]).id, id)
    &&& forall|i: int| at <= i < list.len() ==> !text_before((#[trigger] list[i]).id, id)
}

/// In an ascending list the record of an identity stands at its place, if it
/// stands anywhere.
pub proof fn lemma_place(list: Seq<BookmarkModel>, id: Seq<char>, at: int)
    requires
        ascending(list),
        is_place(list, id, at),
    ensures
        records_of(list).contains_key(id) <==> holds_at(list, id, at),
        forall|i: int| at <= i < list.len() && list[i].id != id ==> text_before(id, list[i].id),
{
    lemma_records_of(list);
    lemma_text_before_irreflexive(id);
    if records_of(list).contains_key(id) {
        let i = choose|i: int| holds_at(list, id, i);
        if i < at {
            assert(text_before(list[i].id, id));
        } else if i > at {
            assert(text_before(list[at].id, list[i].id));
        }
    }
    assert forall|i: int| at <= i < list.len() && list[i].id != id implies text_before(
        id,
        list[i].id,
    ) by {
        lemma_text_before_total(id, list[i].id);
    }
}

/// The place of the identity `id` among the records, and whether a record
/// of that identity stands there. The records ascend, so half of those left
/// are set aside at each step.
pub fn locate(bookmarks: &Vec<BookmarkData>, id: &str) -> (found: (usize, bool))
    requires
        ascending(bookmarks_model(bookmarks@)),
    ensures
        is_place(bookmarks_model(bookmarks@), id@, found.0 as int),
        found.1 == holds_at(bookmarks_model(bookmarks@), id@, found.0 as int),
        found.1 == records_of(bookmarks_model(bookmarks@)).contains_key(id@),
{
    let ghost list = bookmarks_model(bookmarks@);
    let mut low: usize = 0;
    let mut high: usize = bookmarks.len();
    while low < high
        invariant
            low <= high <= bookmarks@.len(),
            list == bookmarks_model(bookmarks@),
            ascending(list),
            forall|i: int| 0 <= i < low ==> text_before((#[trigger] list[i]).id, id@),
            forall|i: int| high <= i < list.len() ==> !text_before((#[trigger] list[i]).id, id@),
        decreases high - low,
    {
        let middle: usize = low + (high - low) / 2;
        if text_lt(bookmarks[middle].id.as_str(), id) {
            assert forall|i: int| 0 <= i < middle + 1 implies text_before(
                (#[trigger] list[i]).id,
                id@,
            ) by {
                if i < middle {
                    assert(text_before(list[i].id, list[middle as int].id));
                    lemma_text_before_transitive(list[i].id, list[middle as int].id, id@);
                }
            }
            low = middle + 1;
        } else {
            assert forall|i: int| middle <= i < list.len() implies !text_before(
                (#[trigger] list[i]).id,
                id@,
            ) by {
                if i > middle && text_before(list[i].id, id@) {
                    assert(text_before(list[middle as int].id, list[i].id));
                    lemma_text_before_transitive(list[middle as int].id, list[i].id, id@);
                }
            }
            high = middle;
        }
    }
    let present = low < bookmarks.len() && text_eq(bookmarks[low].id.as_str(), id);
    proof {
        lemma_place(list, id@, low as int);
    }
    (low, present)
}

/// A read model in memory. Nothing but a lack of memory can make it fail.
#[derive(Debug)]
pub struct MemoryReadModel {
    bookmarks_by_id: Vec<BookmarkData>,
}

impl MemoryReadModel {
    /// A read model without records.
    pub fn new() -> (model: Self)
        ensures
            model.inv(),
            model.records() == Records::empty(),
    {
        let model = Self { bookmarks_by_id: Vec::new() };
        assert(model.records() =~= Records::empty());
        model
    }
}

impl ReadModel for MemoryReadModel {
    closed spec fn records(&self) -> Records {
        records_of(bookmarks_model(self.bookmarks_by_id@))
    }

    /// The records are kept in the ascending order of their identities.
    closed spec fn inv(&self) -> bool {
        ascending(bookmarks_model(self.bookmarks_by_id@))
    }

    open spec fn reliable(&self) -> bool {
        true
    }

    fn update(&mut self, event: &DomainEvent) -> (outcome: Result<(), ReadModelError>) {
        let ghost list = bookmarks_model(self.bookmarks_by_id@);
        let ghost id = event.meta.aggregate_id@;
        let (at, present) = locate(&self.bookmarks_by_id, event.meta.aggregate_id.as_str());
        proof {
            lemma_place(list, id, at as int);
            lemma_records_of(list);
        }
        match &event.payload {
            DomainEventPayload::Bookmark(BookmarkEventPayload::Created { url, title }) => {
                if present {
                    Err(ReadModelError::Generic)
                } else {
                    let record = BookmarkData {
                        id: event.meta.aggregate_id.clone(),
                        url: url.clone(),
                        title: title.clone(),
                    };
                    self.bookmarks_by_id.insert(at, record);
                    proof {
                        let after = bookmarks_model(self.bookmarks_by_id@);
                        assert(after =~= list.insert(at as int, record@));
                        assert forall|i: int, j: int| 0 <= i < j < after.len() implies text_before(
                            (#[trigger] after[i]).id,
                            (#[trigger] after[j]).id,
                        ) by {
                            let i0 = if i < at { i } else { i - 1 };
                            let j0 = if j < at { j } else { j - 1 };
                            if i != at {
                                assert(after[i] == list[i0]);
                            }
                            if j != at {
                                assert(after[j] == list[j0]);
                            }
                        }
                        lemma_records_of_insert(list, at as int, record@);
                    }
                    Ok(())
                }
            },
            DomainEventPayload::Bookmark(BookmarkEventPayload::Deleted) => {
                if present {
                    self.bookmarks_by_id.remove(at);
                    proof {
                        assert(bookmarks_model(self.bookmarks_by_id@) =~= list.remove(at as int));
                        lemma_records_of_remove(list, at as int);
                    }
                } else {
                    assert(records_of(list).remove(id) =~= records_of(list));
                }
                Ok(())
            },
            DomainEventPayload::Bookmark(BookmarkEventPayload::TitleUpdated { title }) => {
                if present {
                    let record = BookmarkData {
                        id: self.bookmarks_by_id[at].id.clone(),
                        url: self.bookmarks_by_id[at].url.clone(),
                        title: title.clone(),
                    };
                    self.bookmarks_by_id.set(at, record);
                    proof {
                        assert(bookmarks_model(self.bookmarks_by_id@) =~= list.update(
                            at as int,
                            record@,
                        ));
                        lemma_records_of_update(list, at as int, record@);
                    }
                }
                Ok(())
            },
        }
    }

    fn read_bookmarks(&self) -> (found: Option<Vec<BookmarkData>>) {
        let mut items: Vec<BookmarkData> = Vec::new();
        let mut i: usize = 0;
        while i < self.bookmarks_by_id.len()
            invariant
                i <= self.bookmarks_by_id@.len(),
                bookmarks_model(items@) == bookmarks_model(self.bookmarks_by_id@).take(i as int),
            decreases self.bookmarks_by_id@.len() - i,
        {
            let ghost before = bookmarks_model(items@);
            items.push(self.bookmarks_by_id[i].clone());
            assert(bookmarks_model(items@) =~= before.push(self.bookmarks_by_id@[i as int]@));
            i += 1;
        }
        proof {
            let list = bookmarks_model(self.bookmarks_by_id@);
            assert(list.take(i as int) =~= list);
            lemma_records_of(list);
        }
        Some(items)
    }

    fn read_bookmark(&self, id: &str) -> (found: Option<BookmarkData>) {
        let (at, present) = locate(&self.bookmarks_by_id, id);
        if present {
            proof {
                lemma_records_of(bookmarks_model(self.bookmarks_by_id@));
            }
            Some(self.bookmarks_by_id[at].clone())
        } else {
            None
        }
    }
}

} // verus!
