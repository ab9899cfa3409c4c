//! Records, events and the interface of an aggregate.

use vstd::prelude::*;
use crate::domain::errors::DomainError;
use crate::domain::events::{DomainEventPayload, PayloadModel};
use crate::domain::time::Timestamp;
use crate::order::Keyed;

verus! {

/// A bookmark as the read model shows it, as a mathematical value.
pub struct BookmarkModel {
    pub id: Seq<char>,
    pub url: Seq<char>,
    pub title: Seq<char>,
}

/// A bookmark as the read model shows it.
#[derive(Debug, PartialEq, Eq)]
pub struct BookmarkData {
    pub id: String,
    pub url: String,
    pub title: String,
}

impl View for BookmarkData {
    type V = BookmarkModel;

    open spec fn view(&self) -> BookmarkModel {
        BookmarkModel { id: self.id@, url: self.url@, title: self.title@ }
    }
}

impl Clone for BookmarkData {
    fn clone(&self) -> (copy: Self)
        ensures
            copy@ == self@,
    {
        BookmarkData { id: self.id.clone(), url: self.url.clone(), title: self.title.clone() }
    }
}

/// Whom an event concerns and when it happened, as a mathematical value. The
/// instant is in nanoseconds since the Unix epoch.
pub struct MetaModel {
    pub aggregate_id: Seq<char>,
    pub created_at: nat,
}

/// Whom an event concerns and when it happened.
#[derive(Debug, PartialEq, Eq)]
pub struct DomainEventMeta {
    pub aggregate_id: String,
    pub created_at: Timestamp,
}

impl View for DomainEventMeta {
    type V = MetaModel;

    open spec fn view(&self) -> MetaModel {
        MetaModel { aggregate_id: self.aggregate_id@, created_at: self.created_at@ }
    }
}

impl Clone for DomainEventMeta {
    fn clone(&self) -> (copy: Self)
        ensures
            copy@ == self@,
    {
        DomainEventMeta { aggregate_id: self.aggregate_id.clone(), created_at: self.created_at }
    }
}

/// An event, as a mathematical value.
pub struct EventModel {
    pub meta: MetaModel,
    pub payload: PayloadModel,
}

/// A fact that has happened to one aggregate. Once in the log it never changes.
#[derive(Debug, PartialEq, Eq)]
pub struct DomainEvent {
    pub meta: DomainEventMeta,
    pub payload: DomainEventPayload,
}

impl View for DomainEvent {
    type V = EventModel;

    open spec fn view(&self) -> EventModel {
        EventModel { meta: self.meta@, payload: self.payload@ }
    }
}

impl Clone for DomainEvent {
    fn clone(&self) -> (copy: Self)
        ensures
            copy@ == self@,
    {
        DomainEvent { meta: self.meta.clone(), payload: self.payload.clone() }
    }
}

/// An event is sorted by its instant.
impl Keyed for DomainEvent {
    open spec fn key(&self) -> nat {
        self.meta.created_at@
    }

    fn key_lt(&self, other: &Self) -> (smaller: bool) {
        self.meta.created_at.is_before(&other.meta.created_at)
    }
}

/// The function that gives each event its mathematical value.
pub open spec fn event_model() -> spec_fn(DomainEvent) -> EventModel {
    |event: DomainEvent| event@
}

/// The events of a sequence, each as its mathematical value.
pub open spec fn events_model(events: Seq<DomainEvent>) -> Seq<EventModel> {
    events.map_values(event_model())
}

/// The records of a sequence, each as its mathematical value.
pub open spec fn bookmarks_model(records: Seq<BookmarkData>) -> Seq<BookmarkModel> {
    records.map_values(|b: BookmarkData| b@)
}

/// State that is rebuilt from events and that decides on commands. It never
/// touches storage: the caller records the payload that a command yields.
pub trait Aggregate: Sized {
    type Command;

    type EventPayload;

    /// The aggregate after the event.
    fn apply_event(self, event: &Self::EventPayload, meta: &DomainEventMeta) -> Self;

    /// The payload of the event that the command leads to, or why it is refused.
    fn handle_command(&self, command: &Self::Command) -> Result<Self::EventPayload, DomainError>;
}

} // verus!
