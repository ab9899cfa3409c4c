//! The bookmark aggregate: a state machine that events drive and that commands
//! are checked against.

use vstd::prelude::*;
use crate::domain::commands::{BookmarkCommand, CommandModel};
use crate::domain::data::{Aggregate, DomainEventMeta, EventModel, MetaModel};
use crate::domain::errors::DomainError;
use crate::domain::events::{BookmarkEventPayload, BookmarkPayloadModel, PayloadModel};

verus! {

/// The phase of a bookmark's life: it does not exist, then it is created, then
/// it is deleted. `Deleted` is final: no event leads out of it.
#[derive(Clone, Copy, Debug, PartialEq, Eq, Structural)]
pub enum State {
    Nonexistent,
    Created,
    Deleted,
}

/// A bookmark aggregate, as a mathematical value.
pub struct AggregateModel {
    pub id: Seq<char>,
    pub title: Seq<char>,
    pub url: Seq<char>,
    pub state: State,
}

/// The aggregate of an identity that no event has touched yet.
pub open spec fn initial(id: Seq<char>) -> AggregateModel {
    AggregateModel { id, title: Seq::empty(), url: Seq::empty(), state: State::Nonexistent }
}

/// The aggregate after one event. An event for another identity changes
/// nothing, and neither does a creation of a bookmark that was deleted: a
/// deleted bookmark stays deleted.
pub open spec fn apply(
    aggregate: AggregateModel,
    payload: BookmarkPayloadModel,
    meta: MetaModel,
) -> AggregateModel {
    if meta.aggregate_id != aggregate.id {
        aggregate
    } else {
        match payload {
            BookmarkPayloadModel::Created { url, title } => if aggregate.state == State::Deleted {
                aggregate
            } else {
                AggregateModel { state: State::Created, title, url, ..aggregate }
            },
            BookmarkPayloadModel::Deleted => AggregateModel { state: State::Deleted, ..aggregate },
            BookmarkPayloadModel::TitleUpdated { title } => AggregateModel { title, ..aggregate },
        }
    }
}

/// A bookmark that was deleted stays deleted, whatever events follow.
pub proof fn lemma_deleted_is_final(
    aggregate: AggregateModel,
    payload: BookmarkPayloadModel,
    meta: MetaModel,
)
    requires
        aggregate.state == State::Deleted,
    ensures
        apply(aggregate, payload, meta).state == State::Deleted,
{
}

/// The aggregate after one event of the log.
pub open spec fn apply_logged(aggregate: AggregateModel, event: EventModel) -> AggregateModel {
    match event.payload {
        PayloadModel::Bookmark(payload) => apply(aggregate, payload, event.meta),
    }
}

/// The aggregate after the events of a history, applied first to last.
pub open spec fn replay(aggregate: AggregateModel, events: Seq<EventModel>) -> AggregateModel
    decreases events.len(),
{
    if events.len() == 0 {
        aggregate
    } else {
        apply_logged(replay(aggregate, events.drop_last()), events.last())
    }
}

/// What the aggregate answers to a command: the payload to record, or the
/// refusal. Only a bookmark that does not exist can be created, and only one
/// that exists can be renamed or deleted.
pub open spec fn decide(aggregate: AggregateModel, command: CommandModel) -> Result<
    BookmarkPayloadModel,
    DomainError,
> {
    match command {
        CommandModel::BookmarkPage { url, title } => match aggregate.state {
            State::Nonexistent => Ok(BookmarkPayloadModel::Created { url, title }),
            State::Created => Err(DomainError::BookmarkAlreadyExists),
            State::Deleted => Err(DomainError::NoSuchBookmark),
        },
        CommandModel::UpdateTitle { title } => match aggregate.state {
            State::Created => Ok(BookmarkPayloadModel::TitleUpdated { title }),
            _ => Err(DomainError::NoSuchBookmark),
        },
        CommandModel::Delete => match aggregate.state {
            State::Created => Ok(BookmarkPayloadModel::Deleted),
            _ => Err(DomainError::NoSuchBookmark),
        },
    }
}

/// A bookmark that was deleted refuses every command with `NoSuchBookmark`.
pub proof fn lemma_deleted_refuses(aggregate: AggregateModel, command: CommandModel)
    requires
        aggregate.state == State::Deleted,
    ensures
        decide(aggregate, command) == Err::<BookmarkPayloadModel, DomainError>(
            DomainError::NoSuchBookmark,
        ),
{
}

/// One bookmark, as its events have left it.
#[derive(Debug)]
pub struct BookmarkAggregate {
    pub id: String,
    pub title: String,
    pub url: String,
    pub state: State,
}

impl View for BookmarkAggregate {
    type V = AggregateModel;

    open spec fn view(&self) -> AggregateModel {
        AggregateModel { id: self.id@, title: self.title@, url: self.url@, state: self.state }
    }
}

impl BookmarkAggregate {
    /// The aggregate of `id` before any event.
    pub fn new(id: String) -> (aggregate: Self)
        ensures
            aggregate@ == initial(id@),
    {
        Self { id, state: State::Nonexistent, title: String::new(), url: String::new() }
    }
}

impl Aggregate for BookmarkAggregate {
    type Command = BookmarkCommand;

    type EventPayload = BookmarkEventPayload;

    fn handle_command(&self, command: &BookmarkCommand) -> (outcome: Result<
        BookmarkEventPayload,
        DomainError,
    >)
        ensures
            match outcome {
                Ok(payload) => decide(self@, command@) == Ok::<BookmarkPayloadModel, DomainError>(
                    payload@,
                ),
                Err(error) => decide(self@, command@) == Err::<BookmarkPayloadModel, DomainError>(
                    error,
                ),
            },
    {
        match command {
            BookmarkCommand::BookmarkPage { url, title } => match self.state {
                State::Deleted => Err(DomainError::NoSuchBookmark),
                State::Created => Err(DomainError::BookmarkAlreadyExists),
                State::Nonexistent => Ok(
                    BookmarkEventPayload::Created { url: url.clone(), title: title.clone() },
                ),
            },
            BookmarkCommand::Delete => match self.state {
                State::Deleted => Err(DomainError::NoSuchBookmark),
                State::Nonexistent => Err(DomainError::NoSuchBookmark),
                State::Created => Ok(BookmarkEventPayload::Deleted),
            },
            BookmarkCommand::UpdateTitle { title } => match self.state {
                State::Deleted => Err(DomainError::NoSuchBookmark),
                State::Nonexistent => Err(DomainError::NoSuchBookmark),
                State::Created => Ok(BookmarkEventPayload::TitleUpdated { title: title.clone() }),
            },
        }
    }

    fn apply_event(self, payload: &BookmarkEventPayload, meta: &DomainEventMeta) -> (after: Self)
        ensures
            after@ == apply(self@, payload@, meta@),
    {
        let mut aggregate = self;
        if meta.aggregate_id == aggregate.id {
            match payload {
                BookmarkEventPayload::Created { url, title } => {
                    match aggregate.state {
                        State::Deleted => {},
                        _ => {
                            aggregate.state = State::Created;
                            aggregate.title = title.clone();
                            aggregate.url = url.clone();
                        },
                    }
                },
                BookmarkEventPayload::Deleted => {
                    aggregate.state = State::Deleted;
                },
                BookmarkEventPayload::TitleUpdated { title } => {
                    aggregate.title = title.clone();
                },
            }
        }
        aggregate
    }
}

} // verus!
