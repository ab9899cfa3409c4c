//! A plain log of events that lives in memory: events are pushed to its end
//! and read back all at once.

use vstd::prelude::*;
use crate::domain::data::{events_model, DomainEvent, EventModel};

verus! {

/// A log to which events are pushed.
pub trait EventLog {
    /// The events, in the order in which they were pushed.
    spec fn events(&self) -> Seq<EventModel>;

    /// Pushes an event to the end of the log.
    fn push(&mut self, event: DomainEvent) -> (outcome: Result<(), ()>)
        ensures
            outcome is Ok ==> final(self).events() == old(self).events().push(event@),
            outcome is Err ==> final(self).events() == old(self).events(),
    ;

    /// All events, in the order in which they were pushed.
    fn get_all_events(&self) -> (events: Vec<DomainEvent>)
        ensures
            events_model(events@) == self.events(),
    ;
}

/// A log in memory.
#[derive(Debug)]
pub struct MemoryEventLog {
    pub events: Vec<DomainEvent>,
}

impl MemoryEventLog {
    /// An empty log.
    pub fn new() -> (log: Self)
        ensures
            log.events() == Seq::<EventModel>::empty(),
    {
        let log = Self { events: Vec::new() };
        assert(events_model(log.events@) =~= Seq::<EventModel>::empty());
        log
    }
}

impl EventLog for MemoryEventLog {
    open spec fn events(&self) -> Seq<EventModel> {
        events_model(self.events@)
    }

    fn push(&mut self, event: DomainEvent) -> (outcome: Result<(), ()>)
        ensures
            outcome is Ok,
    {
        let ghost before = events_model(self.events@);
        self.events.push(event);
        assert(events_model(self.events@) =~= before.push(event@));
        Ok(())
    }

    fn get_all_events(&self) -> (events: Vec<DomainEvent>) {
        copy_events(&self.events)
    }
}

/// A copy of the events, in their order.
pub fn copy_events(events: &Vec<DomainEvent>) -> (copy: Vec<DomainEvent>)
    ensures
        events_model(copy@) == events_model(events@),
{
    let mut copy: Vec<DomainEvent> = Vec::new();
    let mut i: usize = 0;
    while i < events.len()
        invariant
            i <= events@.len(),
            events_model(copy@) == events_model(events@).take(i as int),
        decreases events@.len() - i,
    {
        let ghost before = events_model(copy@);
        copy.push(events[i].clone());
        assert(events_model(copy@) =~= before.push(events@[i as int]@));
        i += 1;
    }
    assert(events_model(events@).take(i as int) =~= events_model(events@));
    copy
}

} // verus!
