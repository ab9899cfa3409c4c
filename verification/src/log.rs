//! The event log as a mathematical value: a sequence of events, in the order
//! in which they are kept. This file says what it means for a log to be in the
//! order of time, which events of a log concern one aggregate, and where an
//! event that comes from elsewhere is placed.

use vstd::prelude::*;
use crate::domain::data::EventModel;
use crate::order::{
    in_order,
    lemma_in_order_drop_last,
    lemma_push_in_order,
    lemma_slot,
    lemma_sorted_in_order,
    lemma_sorted_of_in_order,
    lemma_sorted_permutes,
    placed,
    slot,
    sorted,
};

verus! {

/// The instant of an event, in nanoseconds since the Unix epoch.
pub open spec fn instant(event: EventModel) -> nat {
    event.meta.created_at
}

/// The function that gives each event its instant.
pub open spec fn moment() -> spec_fn(EventModel) -> nat {
    |event: EventModel| instant(event)
}

/// The log is in the order of time: no event is kept before an earlier one.
pub open spec fn ordered(log: Seq<EventModel>) -> bool {
    in_order(log, moment())
}

/// Tells the events of the aggregate `id` from the others.
pub open spec fn concerns(id: Seq<char>) -> spec_fn(EventModel) -> bool {
    |event: EventModel| event.meta.aggregate_id == id
}

/// The events of the log that concern the aggregate `id`, in the order of the
/// log.
pub open spec fn events_for(log: Seq<EventModel>, id: Seq<char>) -> Seq<EventModel> {
    log.filter(concerns(id))
}

/// The log sorted by time, events of one instant staying in the order they
/// had.
pub open spec fn by_time(log: Seq<EventModel>) -> Seq<EventModel> {
    sorted(log, moment())
}

/// A log sorted by time is in the order of time, and holds the events it held
/// before, each as often as before.
pub proof fn lemma_by_time(log: Seq<EventModel>)
    ensures
        ordered(by_time(log)),
        by_time(log).to_multiset() == log.to_multiset(),
        by_time(log).len() == log.len(),
{
    lemma_sorted_in_order(log, moment());
    lemma_sorted_permutes(log, moment());
}

/// Sorting a log that is in the order of time changes nothing.
pub proof fn lemma_by_time_of_ordered(log: Seq<EventModel>)
    requires
        ordered(log),
    ensures
        by_time(log) == log,
{
    lemma_sorted_of_in_order(log, moment());
}

/// An event that is not earlier than the last one can be appended to a log in
/// the order of time, and the log stays in that order.
pub proof fn lemma_push_ordered(log: Seq<EventModel>, event: EventModel)
    requires
        ordered(log),
        log.len() > 0 ==> instant(log.last()) <= instant(event),
    ensures
        ordered(log.push(event)),
{
    lemma_push_in_order(log, moment(), event);
}

/// An event that comes to a log in the order of time is put in its place, and
/// nothing else moves: it stands behind every event that is not later than
/// it, and before every later one.
pub proof fn lemma_import_of_ordered(log: Seq<EventModel>, event: EventModel)
    requires
        ordered(log),
    ensures
        by_time(log.push(event)) == placed(log, moment(), event),
        forall|i: int|
            0 <= i < slot(log, moment(), instant(event)) ==> instant(#[trigger] log[i]) <= instant(
                event,
            ),
        forall|i: int|
            slot(log, moment(), instant(event)) <= i < log.len() ==> instant(#[trigger] log[i])
                > instant(event),
{
    lemma_by_time_of_ordered(log);
    assert(log.push(event).drop_last() =~= log);
    lemma_slot(log, moment(), instant(event));
    let k = slot(log, moment(), instant(event));
    assert forall|i: int| 0 <= i < k implies instant(#[trigger] log[i]) <= instant(event) by {
        assert(instant(log[i]) <= instant(log[k - 1]));
    }
}

/// Sorting a log to which an event was appended keeps every event, and leaves
/// at the head an event that is not later than the one that came.
pub proof fn lemma_import_head(log: Seq<EventModel>, event: EventModel)
    ensures
        by_time(log.push(event)).len() == log.len() + 1,
        by_time(log.push(event)).contains(event),
        instant(by_time(log.push(event))[0]) <= instant(event),
{
    broadcast use vstd::seq_lib::group_to_multiset_ensures;

    let all = log.push(event);
    let sorted = by_time(all);
    lemma_by_time(all);
    assert(all.contains(event)) by {
        assert(all[log.len() as int] == event);
    }
    assert(all.to_multiset().count(event) > 0);
    assert(sorted.contains(event));
    let k = choose|k: int| 0 <= k < sorted.len() && sorted[k] == event;
    assert(instant(sorted[0]) <= instant(sorted[k]));
}

/// An event that is earlier than every event of the log stands first once it
/// is imported.
pub proof fn lemma_import_earliest(log: Seq<EventModel>, event: EventModel)
    requires
        forall|i: int| 0 <= i < log.len() ==> instant(event) < instant(#[trigger] log[i]),
    ensures
        by_time(log.push(event))[0] == event,
{
    broadcast use vstd::seq_lib::group_to_multiset_ensures;

    let all = log.push(event);
    let sorted = by_time(all);
    lemma_import_head(log, event);
    lemma_by_time(all);
    assert(sorted.contains(sorted[0]));
    assert(all.to_multiset().count(sorted[0]) > 0);
    assert(all.contains(sorted[0]));
    let j = choose|j: int| 0 <= j < all.len() && all[j] == sorted[0];
    if j < log.len() {
        assert(all[j] == log[j]);
    }
}

/// The events of one aggregate, after an event was appended to the log: the
/// event comes last among them if it concerns the aggregate, and not at all
/// if it does not.
pub proof fn lemma_events_for_push(log: Seq<EventModel>, event: EventModel, id: Seq<char>)
    ensures
        events_for(log.push(event), id) == if event.meta.aggregate_id == id {
            events_for(log, id).push(event)
        } else {
            events_for(log, id)
        },
{
    reveal(Seq::filter);
    assert(log.push(event).drop_last() =~= log);
}

/// No event concerns an aggregate in an empty log.
pub proof fn lemma_events_for_empty(id: Seq<char>)
    ensures
        events_for(Seq::<EventModel>::empty(), id) == Seq::<EventModel>::empty(),
{
    reveal(Seq::filter);
}

/// The events of one aggregate all concern it, and all come from the log, in
/// the order they have there.
pub proof fn lemma_events_for_members(log: Seq<EventModel>, id: Seq<char>)
    ensures
        forall|i: int|
            0 <= i < events_for(log, id).len() ==> (#[trigger] events_for(
                log,
                id,
            )[i]).meta.aggregate_id == id,
        forall|i: int|
            0 <= i < log.len() && log[i].meta.aggregate_id == id ==> events_for(log, id).contains(
                #[trigger] log[i],
            ),
        forall|i: int|
            0 <= i < events_for(log, id).len() ==> log.contains(#[trigger] events_for(log, id)[i]),
        events_for(log, id).len() <= log.len(),
    decreases log.len(),
{
    reveal(Seq::filter);
    if log.len() > 0 {
        let rest = log.drop_last();
        lemma_events_for_members(rest, id);
        let picked = events_for(rest, id);
        assert forall|i: int| 0 <= i < events_for(log, id).len() implies log.contains(
            #[trigger] events_for(log, id)[i],
        ) by {
            if i < picked.len() {
                let k = choose|k: int| 0 <= k < rest.len() && rest[k] == picked[i];
                assert(log[k] == picked[i]);
            } else {
                assert(log[log.len() - 1] == events_for(log, id)[i]);
            }
        }
        assert forall|i: int| 0 <= i < log.len() && log[i].meta.aggregate_id == id implies events_for(
            log,
            id,
        ).contains(#[trigger] log[i]) by {
            if i < rest.len() {
                assert(rest[i] == log[i]);
                let k = choose|k: int| 0 <= k < picked.len() && picked[k] == rest[i];
                assert(events_for(log, id)[k] == log[i]);
            } else {
                assert(events_for(log, id).last() == log[i]);
            }
        }
    }
}

/// The events of one aggregate are in the order of time where the log is.
pub proof fn lemma_events_for_ordered(log: Seq<EventModel>, id: Seq<char>)
    requires
        ordered(log),
    ensures
        ordered(events_for(log, id)),
    decreases log.len(),
{
    reveal(Seq::filter);
    if log.len() > 0 {
        let rest = log.drop_last();
        lemma_in_order_drop_last(log, moment());
        lemma_events_for_ordered(rest, id);
        let picked = events_for(rest, id);
        if log.last().meta.aggregate_id == id {
            if picked.len() > 0 {
                // The last event picked so far lies in the log before its
                // last event, so it is not later.
                lemma_events_for_members(rest, id);
                assert(rest.contains(picked[picked.len() - 1]));
                let k = choose|k: int| 0 <= k < rest.len() && rest[k] == picked.last();
                assert(rest[k] == log[k]);
                assert(instant(log[k]) <= instant(log[log.len() - 1]));
            }
            lemma_push_ordered(picked, log.last());
        }
    }
}

} // verus!
