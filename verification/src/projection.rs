//! The read model as a mathematical value: a map from the identity of each
//! live bookmark to its record. This file says what an event does to the map,
//! what a replay of a whole log gives, and what a listing of the map is.

use vstd::prelude::*;
use crate::domain::data::{BookmarkModel, EventModel};
use crate::domain::events::{BookmarkPayloadModel, PayloadModel};
use crate::text::{
    lemma_text_before_asymmetric,
    lemma_text_before_irreflexive,
    text_before,
};

verus! {

/// The records of the live bookmarks, each under its identity.
pub type Records = Map<Seq<char>, BookmarkModel>;

/// Every record is kept under its own identity.
pub open spec fn keyed(records: Records) -> bool {
    forall|id: Seq<char>| records.contains_key(id) ==> (#[trigger] records[id]).id == id
}

/// The records after one event, or `None` where the event is refused. A
/// creation adds a record and is refused where one exists under the identity;
/// a deletion removes the record, if there is one; a new title changes the
/// record, if there is one.
pub open spec fn project(records: Records, event: EventModel) -> Option<Records> {
    let id = event.meta.aggregate_id;
    match event.payload {
        PayloadModel::Bookmark(BookmarkPayloadModel::Created { url, title }) => {
            if records.contains_key(id) {
                None
            } else {
                Some(records.insert(id, BookmarkModel { id, url, title }))
            }
        },
        PayloadModel::Bookmark(BookmarkPayloadModel::Deleted) => Some(records.remove(id)),
        PayloadModel::Bookmark(BookmarkPayloadModel::TitleUpdated { title }) => {
            if records.contains_key(id) {
                Some(records.insert(id, BookmarkModel { title, ..records[id] }))
            } else {
                Some(records)
            }
        },
    }
}

/// The records after the events of a log, applied first to last, or `None`
/// where one of them is refused.
pub open spec fn project_all(records: Records, events: Seq<EventModel>) -> Option<Records>
    decreases events.len(),
{
    if events.len() == 0 {
        Some(records)
    } else {
        match project_all(records, events.drop_last()) {
            Some(before) => project(before, events.last()),
            None => None,
        }
    }
}

/// The identities of the list ascend strictly, in the order of texts.
pub open spec fn ascending(list: Seq<BookmarkModel>) -> bool {
    forall|i: int, j: int|
        0 <= i < j < list.len() ==> text_before((#[trigger] list[i]).id, (#[trigger] list[j]).id)
}

/// The list holds each record of the map once, and nothing else, in the
/// ascending order of the identities.
pub open spec fn is_listing(list: Seq<BookmarkModel>, records: Records) -> bool {
    &&& ascending(list)
    &&& forall|i: int|
        0 <= i < list.len() ==> records.contains_key((#[trigger] list[i]).id) && records[list[i].id]
            == list[i]
    &&& forall|id: Seq<char>|
        records.contains_key(id) ==> exists|i: int|
            0 <= i < list.len() && (#[trigger] list[i]).id == id
}

/// Whether the list holds a record of the identity `id` at the index `i`.
pub open spec fn holds_at(list: Seq<BookmarkModel>, id: Seq<char>, i: int) -> bool {
    0 <= i < list.len() && list[i].id == id
}

/// The map of the records of a list, each under its identity.
pub open spec fn records_of(list: Seq<BookmarkModel>) -> Records {
    Map::new(
        |id: Seq<char>| exists|i: int| holds_at(list, id, i),
        |id: Seq<char>| list[choose|i: int| holds_at(list, id, i)],
    )
}

/// In an ascending list one identity stands at one index only.
pub proof fn lemma_ascending_distinct(list: Seq<BookmarkModel>, i: int, j: int)
    requires
        ascending(list),
        0 <= i < list.len(),
        0 <= j < list.len(),
        list[i].id == list[j].id,
    ensures
        i == j,
{
    lemma_text_before_irreflexive(list[i].id);
    if i < j {
        assert(text_before(list[i].id, list[j].id));
    } else if j < i {
        assert(text_before(list[j].id, list[i].id));
    }
}

/// What the map of an ascending list holds: under the identity of each
/// entry, that entry.
pub proof fn lemma_records_of(list: Seq<BookmarkModel>)
    requires
        ascending(list),
    ensures
        forall|i: int|
            0 <= i < list.len() ==> records_of(list).contains_key((#[trigger] list[i]).id)
                && records_of(list)[list[i].id] == list[i],
        forall|id: Seq<char>| #[trigger]
            records_of(list).contains_key(id) <==> exists|i: int| holds_at(list, id, i),
        is_listing(list, records_of(list)),
        keyed(records_of(list)),
{
    let records = records_of(list);
    assert forall|i: int| 0 <= i < list.len() implies records.contains_key(
        (#[trigger] list[i]).id,
    ) && records[list[i].id] == list[i] by {
        let id = list[i].id;
        assert(holds_at(list, id, i));
        let j = choose|j: int| holds_at(list, id, j);
        lemma_ascending_distinct(list, i, j);
    }
    assert forall|id: Seq<char>| records.contains_key(id) implies exists|i: int|
        0 <= i < list.len() && (#[trigger] list[i]).id == id by {
        let i = choose|i: int| holds_at(list, id, i);
        assert(list[i].id == id);
    }
    assert forall|id: Seq<char>| records.contains_key(id) implies (#[trigger] records[id]).id
        == id by {
        let i = choose|i: int| holds_at(list, id, i);
        assert(records[list[i].id] == list[i]);
    }
}

/// A record put into an ascending list, at a place that keeps the list
/// ascending, is put into the map of the list under its identity.
pub proof fn lemma_records_of_insert(list: Seq<BookmarkModel>, at: int, record: BookmarkModel)
    requires
        0 <= at <= list.len(),
        ascending(list),
        ascending(list.insert(at, record)),
    ensures
        records_of(list.insert(at, record)) == records_of(list).insert(record.id, record),
{
    let after = list.insert(at, record);
    lemma_records_of(list);
    lemma_records_of(after);
    let left = records_of(after);
    let right = records_of(list).insert(record.id, record);
    assert forall|id: Seq<char>| left.contains_key(id) <==> right.contains_key(id) by {
        if left.contains_key(id) {
            let i = choose|i: int| holds_at(after, id, i);
            if i < at {
                assert(holds_at(list, id, i));
            } else if i > at {
                assert(holds_at(list, id, i - 1));
            }
        }
        if right.contains_key(id) {
            if id == record.id {
                assert(holds_at(after, id, at));
            } else {
                let i = choose|i: int| holds_at(list, id, i);
                if i < at {
                    assert(holds_at(after, id, i));
                } else {
                    assert(holds_at(after, id, i + 1));
                }
            }
        }
    }
    assert forall|id: Seq<char>| left.contains_key(id) implies left[id] == right[id] by {
        let i = choose|i: int| holds_at(after, id, i);
        assert(left[after[i].id] == after[i]);
        if i == at {
        } else if i < at {
            assert(after[i] == list[i]);
            assert(records_of(list)[list[i].id] == list[i]);
            if id == record.id {
                lemma_ascending_distinct(after, i, at);
            }
        } else {
            assert(after[i] == list[i - 1]);
            assert(records_of(list)[list[i - 1].id] == list[i - 1]);
            if id == record.id {
                lemma_ascending_distinct(after, i, at);
            }
        }
    }
    assert(left =~= right);
}

/// A record taken out of an ascending list is taken out of the map of the
/// list, and the list stays ascending.
pub proof fn lemma_records_of_remove(list: Seq<BookmarkModel>, at: int)
    requires
        0 <= at < list.len(),
        ascending(list),
    ensures
        ascending(list.remove(at)),
        records_of(list.remove(at)) == records_of(list).remove(list[at].id),
{
    let after = list.remove(at);
    assert forall|i: int, j: int| 0 <= i < j < after.len() implies text_before(
        (#[trigger] after[i]).id,
        (#[trigger] after[j]).id,
    ) by {
        let i0 = if i < at { i } else { i + 1 };
        let j0 = if j < at { j } else { j + 1 };
        assert(after[i] == list[i0] && after[j] == list[j0]);
    }
    lemma_records_of(list);
    lemma_records_of(after);
    let left = records_of(after);
    let right = records_of(list).remove(list[at].id);
    assert forall|id: Seq<char>| left.contains_key(id) <==> right.contains_key(id) by {
        if left.contains_key(id) {
            let i = choose|i: int| holds_at(after, id, i);
            let i0 = if i < at { i } else { i + 1 };
            assert(holds_at(list, id, i0));
            if id == list[at].id {
                lemma_ascending_distinct(list, i0, at);
            }
        }
        if right.contains_key(id) {
            let i = choose|i: int| holds_at(list, id, i);
            if i < at {
                assert(holds_at(after, id, i));
            } else {
                assert(holds_at(after, id, i - 1));
            }
        }
    }
    assert forall|id: Seq<char>| left.contains_key(id) implies left[id] == right[id] by {
        let i = choose|i: int| holds_at(after, id, i);
        let i0 = if i < at { i } else { i + 1 };
        assert(left[after[i].id] == after[i]);
        assert(after[i] == list[i0]);
        assert(records_of(list)[list[i0].id] == list[i0]);
    }
    assert(left =~= right);
}

/// A record of an ascending list replaced by one of the same identity is
/// replaced in the map of the list, and the list stays ascending.
pub proof fn lemma_records_of_update(list: Seq<BookmarkModel>, at: int, record: BookmarkModel)
    requires
        0 <= at < list.len(),
        ascending(list),
        record.id == list[at].id,
    ensures
        ascending(list.update(at, record)),
        records_of(list.update(at, record)) == records_of(list).insert(record.id, record),
{
    let after = list.update(at, record);
    assert forall|i: int, j: int| 0 <= i < j < after.len() implies text_before(
        (#[trigger] after[i]).id,
        (#[trigger] after[j]).id,
    ) by {
        assert(after[i].id == list[i].id && after[j].id == list[j].id);
    }
    lemma_records_of(list);
    lemma_records_of(after);
    let left = records_of(after);
    let right = records_of(list).insert(record.id, record);
    assert forall|id: Seq<char>| left.contains_key(id) <==> right.contains_key(id) by {
        if left.contains_key(id) {
            let i = choose|i: int| holds_at(after, id, i);
            assert(holds_at(list, id, i));
        }
        if right.contains_key(id) {
            if id == record.id {
                assert(holds_at(after, id, at));
            } else {
                let i = choose|i: int| holds_at(list, id, i);
                assert(holds_at(after, id, i));
            }
        }
    }
    assert forall|id: Seq<char>| left.contains_key(id) implies left[id] == right[id] by {
        let i = choose|i: int| holds_at(after, id, i);
        assert(left[after[i].id] == after[i]);
        if i != at {
            assert(after[i] == list[i]);
            assert(records_of(list)[list[i].id] == list[i]);
            if id == record.id {
                lemma_ascending_distinct(list, i, at);
            }
        }
    }
    assert(left =~= right);
}

/// A new title for a bookmark that the read model does not show is taken and
/// changes nothing: no record is made for it.
pub proof fn lemma_title_of_absent(records: Records, event: EventModel)
    requires
        event.payload matches PayloadModel::Bookmark(BookmarkPayloadModel::TitleUpdated { .. }),
        !records.contains_key(event.meta.aggregate_id),
    ensures
        project(records, event) == Some(records),
{
}

/// A deletion is always taken, and afterwards the read model does not show
/// the bookmark, whether it did before or not.
pub proof fn lemma_deletion(records: Records, event: EventModel)
    requires
        event.payload == PayloadModel::Bookmark(BookmarkPayloadModel::Deleted),
    ensures
        project(records, event) matches Some(after) && !after.contains_key(
            event.meta.aggregate_id,
        ),
        !records.contains_key(event.meta.aggregate_id) ==> project(records, event) == Some(records),
{
    if !records.contains_key(event.meta.aggregate_id) {
        assert(records.remove(event.meta.aggregate_id) =~= records);
    }
}

/// An event keeps every record under its own identity.
pub proof fn lemma_project_keyed(records: Records, event: EventModel)
    requires
        keyed(records),
    ensures
        project(records, event) matches Some(after) ==> keyed(after),
{
}

/// Replaying a log to which an event was appended gives what the event makes
/// of the replay of the log: a read model that is kept up event by event
/// equals one that is rebuilt from the whole log.
pub proof fn lemma_project_all_push(records: Records, log: Seq<EventModel>, event: EventModel)
    ensures
        project_all(records, log.push(event)) == match project_all(records, log) {
            Some(before) => project(before, event),
            None => None,
        },
{
    assert(log.push(event).drop_last() =~= log);
}

/// Once an event of a log is refused, the replay of the log is refused: no
/// later event makes up for it.
pub proof fn lemma_project_all_refused(records: Records, log: Seq<EventModel>, count: int)
    requires
        0 <= count <= log.len(),
        project_all(records, log.take(count)) is None,
    ensures
        project_all(records, log) is None,
    decreases log.len() - count,
{
    if count < log.len() {
        assert(log.take(count + 1).drop_last() =~= log.take(count));
        lemma_project_all_refused(records, log, count + 1);
    } else {
        assert(log.take(count) =~= log);
    }
}

/// A listing without its last record lists the map without that record.
pub proof fn lemma_listing_drop_last(list: Seq<BookmarkModel>, records: Records)
    requires
        is_listing(list, records),
        list.len() > 0,
    ensures
        is_listing(list.drop_last(), records.remove(list.last().id)),
{
    let last = list.last();
    let head = list.drop_last();
    let rest = records.remove(last.id);
    lemma_text_before_irreflexive(last.id);
    assert forall|k: int| 0 <= k < head.len() implies rest.contains_key((#[trigger] head[k]).id)
        && rest[head[k].id] == head[k] by {
        assert(head[k] == list[k]);
        assert(text_before(list[k].id, list[list.len() - 1].id));
    }
    assert forall|id: Seq<char>| rest.contains_key(id) implies exists|k: int|
        0 <= k < head.len() && (#[trigger] head[k]).id == id by {
        let k = choose|k: int| 0 <= k < list.len() && (#[trigger] list[k]).id == id;
        assert(head[k] == list[k]);
    }
    assert forall|k: int, l: int| 0 <= k < l < head.len() implies text_before(
        (#[trigger] head[k]).id,
        (#[trigger] head[l]).id,
    ) by {
        assert(head[k] == list[k] && head[l] == list[l]);
    }
}

/// A map has one listing only.
pub proof fn lemma_listing_unique(
    first: Seq<BookmarkModel>,
    second: Seq<BookmarkModel>,
    records: Records,
)
    requires
        is_listing(first, records),
        is_listing(second, records),
    ensures
        first == second,
    decreases first.len(),
{
    if first.len() == 0 {
        if second.len() > 0 {
            assert(records.contains_key(second[0].id));
        }
        assert(first =~= second);
    } else {
        // The greatest identity closes both lists.
        let a = first.last();
        assert(records.contains_key(a.id));
        let j = choose|j: int| 0 <= j < second.len() && (#[trigger] second[j]).id == a.id;
        let b = second.last();
        assert(records.contains_key(b.id));
        let i = choose|i: int| 0 <= i < first.len() && (#[trigger] first[i]).id == b.id;
        if j < second.len() - 1 {
            assert(text_before(second[j].id, b.id));
            if i < first.len() - 1 {
                assert(text_before(first[i].id, a.id));
                lemma_text_before_asymmetric(a.id, b.id);
            } else {
                lemma_text_before_irreflexive(a.id);
            }
        }
        assert(a == b);
        lemma_listing_drop_last(first, records);
        lemma_listing_drop_last(second, records);
        lemma_listing_unique(first.drop_last(), second.drop_last(), records.remove(a.id));
        assert(first =~= first.drop_last().push(a));
        assert(second =~= second.drop_last().push(b));
    }
}

} // verus!
