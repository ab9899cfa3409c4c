//! An event log that lives in memory.

use vstd::prelude::*;
use crate::domain::data::{event_model, events_model, DomainEvent, EventModel};
use crate::log::{
    by_time,
    events_for,
    instant,
    lemma_by_time,
    lemma_events_for_ordered,
    lemma_push_ordered,
    moment,
    ordered,
};
use crate::order::{key_of, lemma_sorted_seen, sort_stable};
use crate::ports::{EventStore, EventStoreError};
use crate::adapters::memory_event_log::copy_events;
use crate::text::text_eq;

verus! {

/// The events of `events` that concern the aggregate `aggregate_id`, in the
/// order of `events`.
pub fn events_of_aggregate(events: &Vec<DomainEvent>, aggregate_id: &str) -> (picked: Vec<
    DomainEvent,
>)
    ensures
        events_model(picked@) == events_for(events_model(events@), aggregate_id@),
{
    let mut picked: Vec<DomainEvent> = Vec::new();
    let mut i: usize = 0;
    proof {
        reveal(Seq::filter);
        assert(events_model(events@.take(0)) =~= Seq::<EventModel>::empty());
        assert(events_model(picked@) =~= Seq::<EventModel>::empty());
    }
    while i < events.len()
        invariant
            i <= events@.len(),
            events_model(picked@) == events_for(events_model(events@.take(i as int)), aggregate_id@),
        decreases events@.len() - i,
    {
        let event = &events[i];
        let ghost before = events_model(picked@);
        proof {
            reveal(Seq::filter);
            let seen = events_model(events@.take(i + 1));
            assert(seen.drop_last() =~= events_model(events@.take(i as int)));
            assert(seen.last() == event@);
        }
        if text_eq(event.meta.aggregate_id.as_str(), aggregate_id) {
            picked.push(event.clone());
            assert(events_model(picked@) =~= before.push(event@));
        }
        i += 1;
    }
    assert(events@.take(i as int) =~= events@);
    picked
}

/// Sorts the events by time, events of one instant staying in the order they
/// had. An event is moved only where an earlier one stands behind it.
pub fn sort_by_time(events: &mut Vec<DomainEvent>)
    ensures
        events_model(final(events)@) == by_time(events_model(old(events)@)),
{
    proof {
        lemma_sorted_seen(events@, event_model(), key_of::<DomainEvent>(), moment());
    }
    sort_stable(events);
}

/// An event log in memory. Nothing but a lack of memory can make it fail.
#[derive(Debug)]
pub struct MemoryEventStore {
    events: Vec<DomainEvent>,
}

impl MemoryEventStore {
    /// An empty log.
    pub fn new() -> (store: Self)
        ensures
            store.log() == Seq::<EventModel>::empty(),
    {
        let store = Self { events: Vec::new() };
        assert(events_model(store.events@) =~= Seq::<EventModel>::empty());
        store
    }
}

impl EventStore for MemoryEventStore {
    closed spec fn log(&self) -> Seq<EventModel> {
        events_model(self.events@)
    }

    open spec fn reliable(&self) -> bool {
        true
    }

    fn store_event(&mut self, event: DomainEvent) -> (outcome: Result<(), EventStoreError>) {
        let ghost before = events_model(self.events@);
        self.events.push(event);
        proof {
            assert(events_model(self.events@) =~= before.push(event@));
            if ordered(before) && (before.len() > 0 ==> instant(before.last()) <= instant(event@)) {
                lemma_push_ordered(before, event@);
            }
        }
        Ok(())
    }

    fn import_event(&mut self, event: DomainEvent) -> (outcome: Result<(), EventStoreError>) {
        let ghost before = events_model(self.events@);
        self.events.push(event);
        assert(events_model(self.events@) =~= before.push(event@));
        sort_by_time(&mut self.events);
        proof {
            lemma_by_time(before.push(event@));
        }
        Ok(())
    }

    fn get_events_for_aggregate(&self, aggregate_id: &str) -> (events: Vec<DomainEvent>) {
        proof {
            if ordered(self.log()) {
                lemma_events_for_ordered(self.log(), aggregate_id@);
            }
        }
        events_of_aggregate(&self.events, aggregate_id)
    }

    fn events_iter(&self) -> (events: Vec<DomainEvent>) {
        copy_events(&self.events)
    }
}

} // verus!
