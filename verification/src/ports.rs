//! What the services need from the outside: a store for the event log, a read
//! model and a clock. Each has an in-memory implementation among the adapters.

use vstd::prelude::*;
use crate::domain::data::{bookmarks_model, events_model, BookmarkData, DomainEvent, EventModel};
use crate::domain::time::Timestamp;
use crate::log::{by_time, events_for, instant, ordered};
use crate::projection::{is_listing, project, Records};

verus! {

/// Why an event store could not do what it was asked.
#[derive(Clone, Copy, Debug, PartialEq, Eq, Structural)]
pub enum EventStoreError {
    /// The medium under the store failed.
    Generic,
}

impl EventStoreError {
    /// The text that describes this error.
    pub fn message(&self) -> (text: String)
        ensures
            text@ == "Generic event store error"@,
    {
        "Generic event store error".to_owned()
    }
}

/// Why a read model could not take an event or answer.
#[derive(Clone, Copy, Debug, PartialEq, Eq, Structural)]
pub enum ReadModelError {
    /// The event was refused, or the medium under the read model failed.
    Generic,
}

impl ReadModelError {
    /// The text that describes this error.
    pub fn message(&self) -> (text: String)
        ensures
            text@ == "Generic read model error"@,
    {
        "Generic read model error".to_owned()
    }
}

/// The event log: events are added to it and never changed or removed.
pub trait EventStore {
    /// The events of the log, in the order in which they are kept.
    spec fn log(&self) -> Seq<EventModel>;

    /// The medium under the store never fails.
    spec fn reliable(&self) -> bool;

    /// Appends an event that was made here. The event is added whole or not
    /// at all, and only the medium can make it fail. A log in the order of
    /// time stays in that order where the event is not earlier than the last
    /// one of the log.
    fn store_event(&mut self, event: DomainEvent) -> (outcome: Result<(), EventStoreError>)
        ensures
            outcome is Ok ==> final(self).log() == old(self).log().push(event@),
            outcome is Err ==> final(self).log() == old(self).log(),
            old(self).reliable() ==> outcome is Ok,
            final(self).reliable() == old(self).reliable(),
            ordered(old(self).log()) && (old(self).log().len() > 0 ==> instant(
                old(self).log().last(),
            ) <= instant(event@)) ==> ordered(final(self).log()),
    ;

    /// Adds an event that was made elsewhere, and sorts the whole log by time
    /// so that events of different origins interleave as they happened. The
    /// log is in the order of time afterwards, whatever it was before.
    fn import_event(&mut self, event: DomainEvent) -> (outcome: Result<(), EventStoreError>)
        ensures
            outcome is Ok ==> final(self).log() == by_time(old(self).log().push(event@)),
            outcome is Ok ==> ordered(final(self).log()),
            outcome is Err ==> final(self).log() == old(self).log(),
            old(self).reliable() ==> outcome is Ok,
            final(self).reliable() == old(self).reliable(),
    ;

    /// The events of one aggregate, in the order of the log: in the order
    /// of time, where the log is.
    fn get_events_for_aggregate(&self, aggregate_id: &str) -> (events: Vec<DomainEvent>)
        ensures
            events_model(events@) == events_for(self.log(), aggregate_id@),
            ordered(self.log()) ==> ordered(events_model(events@)),
    ;

    /// The whole log, in the order in which it is kept. Each call starts from
    /// its first event again.
    fn events_iter(&self) -> (events: Vec<DomainEvent>)
        ensures
            events_model(events@) == self.log(),
    ;
}

/// The read model: the records of the live bookmarks, kept up event by event.
pub trait ReadModel {
    /// The records, each under its identity.
    spec fn records(&self) -> Records;

    /// What holds of the read model between calls.
    spec fn inv(&self) -> bool;

    /// The medium under the read model never fails.
    spec fn reliable(&self) -> bool;

    /// Applies one event. Where the event is refused, or the medium fails,
    /// nothing changes.
    fn update(&mut self, event: &DomainEvent) -> (outcome: Result<(), ReadModelError>)
        requires
            old(self).inv(),
        ensures
            final(self).inv(),
            final(self).reliable() == old(self).reliable(),
            outcome is Ok ==> project(old(self).records(), event@) == Some(final(self).records()),
            outcome is Err ==> final(self).records() == old(self).records(),
            old(self).reliable() && project(old(self).records(), event@) is Some ==> outcome is Ok,
    ;

    /// The record of one bookmark, or `None` where it does not exist or was
    /// deleted.
    fn read_bookmark(&self, id: &str) -> (found: Option<BookmarkData>)
        requires
            self.inv(),
        ensures
            match found {
                Some(bookmark) => self.records().contains_key(id@) && bookmark@
                    == self.records()[id@],
                None => !self.records().contains_key(id@),
            },
    ;

    /// All records, in the ascending order of their identities.
    fn read_bookmarks(&self) -> (found: Option<Vec<BookmarkData>>)
        requires
            self.inv(),
        ensures
            match found {
                Some(list) => is_listing(bookmarks_model(list@), self.records()),
                None => !self.reliable(),
            },
    ;
}

/// The source of the instants that events are stamped with.
pub trait Clock {
    /// The instant this clock shows, where it is known before it is read.
    spec fn reading(&self) -> Option<Timestamp>;

    /// The current instant.
    fn now(&self) -> (instant: Timestamp)
        ensures
            self.reading() matches Some(known) ==> instant == known,
    ;
}

} // verus!
