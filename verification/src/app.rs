//! The services: each command loads the events of its bookmark, rebuilds the
//! aggregate, lets it decide, stamps the event that results, appends it to the
//! log and applies it to the read model. Queries read the read model only.

use vstd::prelude::*;
use crate::domain::aggregates::{
    apply_logged,
    decide,
    initial,
    replay,
    AggregateModel,
    BookmarkAggregate,
    State,
};
use crate::domain::commands::{BookmarkCommand, CommandModel};
use crate::domain::data::{
    events_model,
    Aggregate,
    BookmarkData,
    BookmarkModel,
    DomainEvent,
    DomainEventMeta,
    EventModel,
    MetaModel,
};
use crate::domain::errors::DomainError;
use crate::domain::events::{BookmarkPayloadModel, DomainEventPayload, PayloadModel};
use crate::domain::time::Timestamp;
use crate::log::{
    events_for,
    instant,
    lemma_events_for_empty,
    lemma_events_for_push,
    lemma_push_ordered,
    ordered,
};
use crate::ports::{Clock, EventStore, ReadModel, ReadModelError};
use crate::projection::{lemma_project_all_refused, project, project_all, Records};

verus! {

/// The aggregate of `id` as the log has left it: its events replayed from a
/// bookmark that does not exist.
pub open spec fn current(log: Seq<EventModel>, id: Seq<char>) -> AggregateModel {
    replay(initial(id), events_for(log, id))
}

/// The event that records `payload` for the aggregate `id` at the instant `at`.
pub open spec fn stamped(id: Seq<char>, at: nat, payload: BookmarkPayloadModel) -> EventModel {
    EventModel {
        meta: MetaModel { aggregate_id: id, created_at: at },
        payload: PayloadModel::Bookmark(payload),
    }
}

/// The instant `at` is one that a clock with this reading can show: the
/// reading itself, where there is one.
pub open spec fn shown(reading: Option<Timestamp>, at: nat) -> bool {
    reading matches Some(known) ==> at == known@
}

/// What handling `command` for the aggregate `id` at the instant `at` comes
/// to. A command that the aggregate refuses changes nothing and fails with the
/// aggregate's reason. One that it accepts succeeds where the event was
/// appended to the log and applied to the read model. It fails with
/// `PortError` where the store failed, which only a store that is not
/// reliable does, and then nothing has changed; and where the read model did
/// not take the event, which a reliable one does only for an event that it
/// refuses, and then the log holds the event and the read model does not
/// show it.
pub open spec fn handled(
    log: Seq<EventModel>,
    records: Records,
    store_reliable: bool,
    model_reliable: bool,
    id: Seq<char>,
    command: CommandModel,
    at: nat,
    outcome: Result<(), DomainError>,
    log_after: Seq<EventModel>,
    records_after: Records,
) -> bool {
    match decide(current(log, id), command) {
        Err(reason) => outcome == Err::<(), DomainError>(reason) && log_after == log
            && records_after == records,
        Ok(payload) => {
            let event = stamped(id, at, payload);
            match outcome {
                Ok(_) => log_after == log.push(event) && project(records, event) == Some(
                    records_after,
                ),
                Err(reason) => {
                    &&& reason == DomainError::PortError
                    &&& records_after == records
                    &&& if log_after == log {
                        !store_reliable
                    } else {
                        log_after == log.push(event) && !(model_reliable && project(
                            records,
                            event,
                        ) is Some)
                    }
                },
            }
        },
    }
}

/// The log and the read model are in step: the read model shows a bookmark
/// where its aggregate is in the state `Created`, with the address and the
/// title of the aggregate, and shows none where it is not.
pub open spec fn in_step(log: Seq<EventModel>, records: Records) -> bool {
    forall|id: Seq<char>|
        {
            let aggregate = #[trigger] current(log, id);
            if aggregate.state == State::Created {
                records.contains_key(id) && records[id] == (BookmarkModel {
                    id,
                    url: aggregate.url,
                    title: aggregate.title,
                })
            } else {
                !records.contains_key(id)
            }
        }
}

/// What a service owes for one command. There is an instant that the clock
/// can show for which the command was handled as `handled` says. And where the
/// log and the read model were in step and neither port can fail, the command
/// succeeds exactly where the aggregate accepts it, and the two are in step
/// afterwards.
pub open spec fn command_handled(
    log: Seq<EventModel>,
    records: Records,
    store_reliable: bool,
    model_reliable: bool,
    reading: Option<Timestamp>,
    id: Seq<char>,
    command: CommandModel,
    outcome: Result<(), DomainError>,
    log_after: Seq<EventModel>,
    records_after: Records,
) -> bool {
    &&& exists|at: nat|
        #[trigger] shown(reading, at) && handled(
            log,
            records,
            store_reliable,
            model_reliable,
            id,
            command,
            at,
            outcome,
            log_after,
            records_after,
        )
    &&& in_step(log, records) && store_reliable && model_reliable ==> {
        &&& outcome is Ok <==> decide(current(log, id), command) is Ok
        &&& in_step(log_after, records_after)
    }
}

/// The aggregate after a command is carried out on it directly: a command
/// that it refuses leaves it as it is.
pub open spec fn perform(aggregate: AggregateModel, command: CommandModel) -> AggregateModel {
    match command {
        CommandModel::BookmarkPage { url, title } => if aggregate.state == State::Nonexistent {
            AggregateModel { state: State::Created, url, title, ..aggregate }
        } else {
            aggregate
        },
        CommandModel::UpdateTitle { title } => if aggregate.state == State::Created {
            AggregateModel { title, ..aggregate }
        } else {
            aggregate
        },
        CommandModel::Delete => if aggregate.state == State::Created {
            AggregateModel { state: State::Deleted, ..aggregate }
        } else {
            aggregate
        },
    }
}

/// The aggregate after the commands are carried out on it directly, first to
/// last.
pub open spec fn perform_all(aggregate: AggregateModel, commands: Seq<CommandModel>) -> AggregateModel
    decreases commands.len(),
{
    if commands.len() == 0 {
        aggregate
    } else {
        perform(perform_all(aggregate, commands.drop_last()), commands.last())
    }
}

/// The log after one command for the aggregate `id` is served at the instant
/// `at`: the event of an accepted command is appended, a refused command
/// leaves no trace.
pub open spec fn served(log: Seq<EventModel>, id: Seq<char>, command: CommandModel, at: nat) -> Seq<
    EventModel,
> {
    match decide(current(log, id), command) {
        Ok(payload) => log.push(stamped(id, at, payload)),
        Err(_) => log,
    }
}

/// The log after the commands for the aggregate `id` are served first to
/// last, the command at each index at the instant at that index.
pub open spec fn served_all(
    log: Seq<EventModel>,
    id: Seq<char>,
    commands: Seq<CommandModel>,
    instants: Seq<nat>,
) -> Seq<EventModel>
    decreases commands.len(),
{
    if commands.len() == 0 {
        log
    } else {
        served(
            served_all(log, id, commands.drop_last(), instants.drop_last()),
            id,
            commands.last(),
            instants.last(),
        )
    }
}

/// Replaying a history to which an event was appended gives what the event
/// makes of the replay of the history.
pub proof fn lemma_replay_push(aggregate: AggregateModel, events: Seq<EventModel>, event: EventModel)
    ensures
        replay(aggregate, events.push(event)) == apply_logged(replay(aggregate, events), event),
{
    assert(events.push(event).drop_last() =~= events);
}

/// A replay never changes whose aggregate it is.
pub proof fn lemma_replay_identity(aggregate: AggregateModel, events: Seq<EventModel>)
    ensures
        replay(aggregate, events).id == aggregate.id,
    decreases events.len(),
{
    if events.len() > 0 {
        lemma_replay_identity(aggregate, events.drop_last());
    }
}

/// Serving one command leaves the aggregate, replayed from the log, as
/// carrying out the command directly leaves it; the aggregates of other
/// identities stay as they are.
pub proof fn lemma_served_step(log: Seq<EventModel>, id: Seq<char>, command: CommandModel, at: nat)
    ensures
        current(served(log, id, command, at), id) == perform(current(log, id), command),
        forall|other: Seq<char>|
            other != id ==> #[trigger] current(served(log, id, command, at), other) == current(
                log,
                other,
            ),
{
    let before = current(log, id);
    lemma_replay_identity(initial(id), events_for(log, id));
    match decide(before, command) {
        Ok(payload) => {
            let event = stamped(id, at, payload);
            lemma_events_for_push(log, event, id);
            lemma_replay_push(initial(id), events_for(log, id), event);
            assert forall|other: Seq<char>| other != id implies #[trigger] current(
                served(log, id, command, at),
                other,
            ) == current(log, other) by {
                lemma_events_for_push(log, event, other);
            }
        },
        Err(_) => {},
    }
}

/// Serving a command at an instant that is not earlier than the last event
/// keeps a log in the order of time.
pub proof fn lemma_served_ordered(
    log: Seq<EventModel>,
    id: Seq<char>,
    command: CommandModel,
    at: nat,
)
    requires
        ordered(log),
        log.len() > 0 ==> instant(log.last()) <= at,
    ensures
        ordered(served(log, id, command, at)),
{
    match decide(current(log, id), command) {
        Ok(payload) => {
            lemma_push_ordered(log, stamped(id, at, payload));
        },
        Err(_) => {},
    }
}

/// Replay equivalence. However many commands are served for one aggregate,
/// and whenever, replaying its events from the log gives the state that
/// carrying out the commands directly, in their order, gives.
pub proof fn lemma_replay_equivalence(
    log: Seq<EventModel>,
    id: Seq<char>,
    commands: Seq<CommandModel>,
    instants: Seq<nat>,
)
    requires
        instants.len() == commands.len(),
    ensures
        current(served_all(log, id, commands, instants), id) == perform_all(
            current(log, id),
            commands,
        ),
    decreases commands.len(),
{
    if commands.len() > 0 {
        lemma_replay_equivalence(log, id, commands.drop_last(), instants.drop_last());
        lemma_served_step(
            served_all(log, id, commands.drop_last(), instants.drop_last()),
            id,
            commands.last(),
            instants.last(),
        );
    }
}

/// An empty log and a read model without records are in step.
pub proof fn lemma_in_step_at_start()
    ensures
        in_step(Seq::<EventModel>::empty(), Records::empty()),
{
    assert forall|id: Seq<char>|
        (#[trigger] current(Seq::<EventModel>::empty(), id)).state == State::Nonexistent by {
        lemma_events_for_empty(id);
    }
}

/// The event would create a bookmark that the log has deleted. No command
/// leads to such an event; it can only come from elsewhere.
pub open spec fn revives(log: Seq<EventModel>, event: EventModel) -> bool {
    &&& event.payload matches PayloadModel::Bookmark(BookmarkPayloadModel::Created { .. })
    &&& current(log, event.meta.aggregate_id).state == State::Deleted
}

/// No event of the log would create a bookmark that the events before it
/// have deleted.
pub open spec fn free_of_revivals(log: Seq<EventModel>) -> bool {
    forall|k: int| 0 <= k < log.len() ==> !revives(#[trigger] log.take(k), log[k])
}

/// Where the log and the read model are in step and the read model takes an
/// event that does not create a deleted bookmark again, the two are in step
/// again once the event is in both. The read model cannot tell a bookmark
/// that was deleted from one that never was, so it would take such a
/// creation, while the aggregate stays deleted.
pub proof fn lemma_in_step_event(log: Seq<EventModel>, records: Records, event: EventModel)
    requires
        in_step(log, records),
        project(records, event) is Some,
        !revives(log, event),
    ensures
        in_step(log.push(event), project(records, event)->Some_0),
{
    let id = event.meta.aggregate_id;
    let log_after = log.push(event);
    let records_after = project(records, event)->Some_0;
    assert forall|other: Seq<char>|
        {
            let aggregate = #[trigger] current(log_after, other);
            if aggregate.state == State::Created {
                records_after.contains_key(other) && records_after[other] == (BookmarkModel {
                    id: other,
                    url: aggregate.url,
                    title: aggregate.title,
                })
            } else {
                !records_after.contains_key(other)
            }
        } by {
        lemma_events_for_push(log, event, other);
        let before = current(log, other);
        if other == id {
            lemma_replay_push(initial(id), events_for(log, id), event);
            lemma_replay_identity(initial(id), events_for(log, id));
        }
    }
}

/// A read model that was rebuilt from the whole log, starting without
/// records, is in step with the log, where no event of the log creates a
/// deleted bookmark again.
pub proof fn lemma_rebuilt_in_step(log: Seq<EventModel>)
    requires
        project_all(Records::empty(), log) is Some,
        free_of_revivals(log),
    ensures
        in_step(log, project_all(Records::empty(), log)->Some_0),
    decreases log.len(),
{
    if log.len() == 0 {
        lemma_in_step_at_start();
        assert(log =~= Seq::<EventModel>::empty());
    } else {
        let rest = log.drop_last();
        assert(free_of_revivals(rest)) by {
            assert forall|k: int| 0 <= k < rest.len() implies !revives(
                #[trigger] rest.take(k),
                rest[k],
            ) by {
                assert(rest.take(k) =~= log.take(k));
                assert(!revives(log.take(k), log[k]));
            }
        }
        lemma_rebuilt_in_step(rest);
        assert(log.take(log.len() - 1) =~= rest);
        assert(!revives(log.take(log.len() - 1), log[log.len() - 1]));
        lemma_in_step_event(rest, project_all(Records::empty(), rest)->Some_0, log.last());
        assert(rest.push(log.last()) =~= log);
    }
}

/// The services never create a deleted bookmark again: a log without such an
/// event has none after a command is served.
pub proof fn lemma_served_free_of_revivals(
    log: Seq<EventModel>,
    id: Seq<char>,
    command: CommandModel,
    at: nat,
)
    requires
        free_of_revivals(log),
    ensures
        free_of_revivals(served(log, id, command, at)),
{
    let after = served(log, id, command, at);
    assert forall|k: int| 0 <= k < after.len() implies !revives(#[trigger] after.take(k), after[k]) by {
        if k < log.len() {
            assert(after.take(k) =~= log.take(k));
            assert(!revives(log.take(k), log[k]));
        } else {
            assert(after.take(k) =~= log);
        }
    }
}

/// Where the log and the read model are in step, the read model takes the
/// event of every command that the aggregate accepts, and the two are in step
/// again once the event is in both.
pub proof fn lemma_in_step_kept(
    log: Seq<EventModel>,
    records: Records,
    id: Seq<char>,
    command: CommandModel,
    at: nat,
)
    requires
        in_step(log, records),
        decide(current(log, id), command) is Ok,
    ensures
        project(records, stamped(id, at, decide(current(log, id), command)->Ok_0)) is Some,
        in_step(
            served(log, id, command, at),
            project(records, stamped(id, at, decide(current(log, id), command)->Ok_0))->Some_0,
        ),
{
    let event = stamped(id, at, decide(current(log, id), command)->Ok_0);
    assert(current(log, id).state == State::Created <==> records.contains_key(id));
    lemma_in_step_event(log, records, event);
}

/// A bookmark that was created can be read: where the log and the read model
/// are in step and the aggregate accepts the creation, the read model shows,
/// under the identity, the address and the title that were given, once it has
/// the event.
pub proof fn lemma_created_is_shown(
    log: Seq<EventModel>,
    records: Records,
    id: Seq<char>,
    url: Seq<char>,
    title: Seq<char>,
    at: nat,
)
    requires
        in_step(log, records),
        decide(current(log, id), CommandModel::BookmarkPage { url, title }) is Ok,
    ensures
        project(
            records,
            stamped(id, at, BookmarkPayloadModel::Created { url, title }),
        ) matches Some(after) && after.contains_key(id) && after[id] == (BookmarkModel {
            id,
            url,
            title,
        }),
{
    assert(current(log, id).state == State::Nonexistent);
}

/// Deleting what is not there is refused, and so is deleting twice: a
/// bookmark that does not exist cannot be deleted, and one that was deleted
/// cannot be deleted again.
pub proof fn lemma_delete_of_absent(log: Seq<EventModel>, id: Seq<char>, at: nat)
    ensures
        current(log, id).state != State::Created ==> decide(current(log, id), CommandModel::Delete)
            == Err::<BookmarkPayloadModel, DomainError>(DomainError::NoSuchBookmark),
        decide(current(served(log, id, CommandModel::Delete, at), id), CommandModel::Delete) == Err::<
            BookmarkPayloadModel,
            DomainError,
        >(DomainError::NoSuchBookmark),
{
    lemma_served_step(log, id, CommandModel::Delete, at);
}

/// A bookmark cannot be created twice: once a creation was accepted, a
/// second one for the same identity is refused with `BookmarkAlreadyExists`,
/// leaves no event, and the aggregate keeps the address and the title of the
/// first.
pub proof fn lemma_second_creation_refused(
    log: Seq<EventModel>,
    id: Seq<char>,
    first: CommandModel,
    second: CommandModel,
    at: nat,
    later: nat,
)
    requires
        first is BookmarkPage,
        second is BookmarkPage,
        decide(current(log, id), first) is Ok,
    ensures
        decide(current(served(log, id, first, at), id), second) == Err::<
            BookmarkPayloadModel,
            DomainError,
        >(DomainError::BookmarkAlreadyExists),
        served(served(log, id, first, at), id, second, later) == served(log, id, first, at),
        current(served(log, id, first, at), id).url == first->BookmarkPage_url,
        current(served(log, id, first, at), id).title == first->BookmarkPage_title,
        current(served(log, id, first, at), id).state == State::Created,
{
    lemma_served_step(log, id, first, at);
}

/// The aggregate of `id` that the events of its history make.
pub fn load_bookmark(id: &str, events: &Vec<DomainEvent>) -> (bookmark: BookmarkAggregate)
    ensures
        bookmark@ == replay(initial(id@), events_model(events@)),
{
    let mut bookmark = BookmarkAggregate::new(id.to_owned());
    let mut i: usize = 0;
    assert(events_model(events@).take(0) =~= Seq::<EventModel>::empty());
    while i < events.len()
        invariant
            i <= events@.len(),
            bookmark@ == replay(initial(id@), events_model(events@).take(i as int)),
        decreases events@.len() - i,
    {
        let event = &events[i];
        proof {
            let seen = events_model(events@).take(i + 1);
            assert(seen.drop_last() =~= events_model(events@).take(i as int));
            assert(seen.last() == event@);
        }
        match &event.payload {
            DomainEventPayload::Bookmark(payload) => {
                bookmark = bookmark.apply_event(payload, &event.meta);
            },
        }
        i += 1;
    }
    assert(events_model(events@).take(i as int) =~= events_model(events@));
    bookmark
}

/// Handles one command for the bookmark `id`: see `command_handled`.
pub fn handle<E: EventStore, R: ReadModel, C: Clock>(
    id: &str,
    command: &BookmarkCommand,
    event_store: &mut E,
    read_model: &mut R,
    clock: &C,
) -> (outcome: Result<(), DomainError>)
    requires
        old(read_model).inv(),
    ensures
        final(read_model).inv(),
        final(read_model).reliable() == old(read_model).reliable(),
        final(event_store).reliable() == old(event_store).reliable(),
        command_handled(
            old(event_store).log(),
            old(read_model).records(),
            old(event_store).reliable(),
            old(read_model).reliable(),
            clock.reading(),
            id@,
            command@,
            outcome,
            final(event_store).log(),
            final(read_model).records(),
        ),
{
    let ghost log = event_store.log();
    let ghost records = read_model.records();
    let ghost store_reliable = event_store.reliable();
    let ghost model_reliable = read_model.reliable();
    let events = event_store.get_events_for_aggregate(id);
    let bookmark = load_bookmark(id, &events);
    let event_payload = match bookmark.handle_command(command) {
        Ok(payload) => payload,
        Err(reason) => {
            let ghost any = match clock.reading() {
                Some(known) => known@,
                None => 0nat,
            };
            assert(shown(clock.reading(), any));
            assert(handled(
                log,
                records,
                store_reliable,
                model_reliable,
                id@,
                command@,
                any,
                Err(reason),
                log,
                records,
            ));
            return Err(reason);
        },
    };
    let now = clock.now();
    let event = DomainEvent {
        meta: DomainEventMeta { aggregate_id: id.to_owned(), created_at: now },
        payload: DomainEventPayload::Bookmark(event_payload),
    };
    let ghost at = now@;
    assert(event@ == stamped(id@, at, event_payload@));
    assert(shown(clock.reading(), at));
    proof {
        if in_step(log, records) {
            lemma_in_step_kept(log, records, id@, command@, at);
        }
    }
    match event_store.store_event(event.clone()) {
        Ok(_) => {},
        Err(_) => {
            assert(handled(
                log,
                records,
                store_reliable,
                model_reliable,
                id@,
                command@,
                at,
                Err(DomainError::PortError),
                log,
                records,
            ));
            return Err(DomainError::PortError);
        },
    }
    match read_model.update(&event) {
        Ok(_) => {},
        Err(_) => {
            assert(handled(
                log,
                records,
                store_reliable,
                model_reliable,
                id@,
                command@,
                at,
                Err(DomainError::PortError),
                log.push(event@),
                records,
            ));
            return Err(DomainError::PortError);
        },
    }
    assert(handled(
        log,
        records,
        store_reliable,
        model_reliable,
        id@,
        command@,
        at,
        Ok(()),
        log.push(event@),
        read_model.records(),
    ));
    Ok(())
}

/// Creates the bookmark `id` with the address `url` and the title `title`.
/// It fails with `BookmarkAlreadyExists` where the bookmark exists and with
/// `NoSuchBookmark` where it was deleted.
pub fn create_bookmark<E: EventStore, R: ReadModel, C: Clock>(
    id: &str,
    url: &str,
    title: &str,
    event_store: &mut E,
    read_model: &mut R,
    clock: &C,
) -> (outcome: Result<(), DomainError>)
    requires
        old(read_model).inv(),
    ensures
        final(read_model).inv(),
        final(read_model).reliable() == old(read_model).reliable(),
        final(event_store).reliable() == old(event_store).reliable(),
        command_handled(
            old(event_store).log(),
            old(read_model).records(),
            old(event_store).reliable(),
            old(read_model).reliable(),
            clock.reading(),
            id@,
            CommandModel::BookmarkPage { url: url@, title: title@ },
            outcome,
            final(event_store).log(),
            final(read_model).records(),
        ),
{
    let command = BookmarkCommand::BookmarkPage { url: url.to_owned(), title: title.to_owned() };
    handle(id, &command, event_store, read_model, clock)
}

/// Gives the bookmark `id` the title `title`. It fails with `NoSuchBookmark`
/// where the bookmark does not exist or was deleted.
pub fn update_bookmark_title<E: EventStore, R: ReadModel, C: Clock>(
    id: &str,
    title: &str,
    event_store: &mut E,
    read_model: &mut R,
    clock: &C,
) -> (outcome: Result<(), DomainError>)
    requires
        old(read_model).inv(),
    ensures
        final(read_model).inv(),
        final(read_model).reliable() == old(read_model).reliable(),
        final(event_store).reliable() == old(event_store).reliable(),
        command_handled(
            old(event_store).log(),
            old(read_model).records(),
            old(event_store).reliable(),
            old(read_model).reliable(),
            clock.reading(),
            id@,
            CommandModel::UpdateTitle { title: title@ },
            outcome,
            final(event_store).log(),
            final(read_model).records(),
        ),
{
    let command = BookmarkCommand::UpdateTitle { title: title.to_owned() };
    handle(id, &command, event_store, read_model, clock)
}

/// Deletes the bookmark `id`. It fails with `NoSuchBookmark` where the
/// bookmark does not exist or was deleted before.
pub fn delete_bookmark<E: EventStore, R: ReadModel, C: Clock>(
    id: &str,
    event_store: &mut E,
    read_model: &mut R,
    clock: &C,
) -> (outcome: Result<(), DomainError>)
    requires
        old(read_model).inv(),
    ensures
        final(read_model).inv(),
        final(read_model).reliable() == old(read_model).reliable(),
        final(event_store).reliable() == old(event_store).reliable(),
        command_handled(
            old(event_store).log(),
            old(read_model).records(),
            old(event_store).reliable(),
            old(read_model).reliable(),
            clock.reading(),
            id@,
            CommandModel::Delete,
            outcome,
            final(event_store).log(),
            final(read_model).records(),
        ),
{
    handle(id, &BookmarkCommand::Delete, event_store, read_model, clock)
}

/// Rebuilds the read model from the whole log, event by event, and stops at
/// the first event that the read model does not take.
pub fn init<E: EventStore, R: ReadModel>(event_store: &E, read_model: &mut R) -> (outcome: Result<
    (),
    ReadModelError,
>)
    requires
        old(read_model).inv(),
    ensures
        final(read_model).inv(),
        final(read_model).reliable() == old(read_model).reliable(),
        outcome is Ok ==> project_all(old(read_model).records(), event_store.log()) == Some(
            final(read_model).records(),
        ),
        outcome is Err ==> exists|k: int|
            {
                &&& 0 <= k < event_store.log().len()
                &&& #[trigger] project_all(old(read_model).records(), event_store.log().take(k))
                    == Some(final(read_model).records())
                &&& !(old(read_model).reliable() && project(
                    final(read_model).records(),
                    event_store.log()[k],
                ) is Some)
            },
        old(read_model).reliable() && project_all(
            old(read_model).records(),
            event_store.log(),
        ) is Some ==> outcome is Ok,
{
    let events = event_store.events_iter();
    let ghost log = event_store.log();
    let ghost given = read_model.records();
    let mut i: usize = 0;
    assert(log.take(0) =~= Seq::<EventModel>::empty());
    while i < events.len()
        invariant
            i <= events@.len(),
            events_model(events@) == log,
            log == event_store.log(),
            read_model.inv(),
            read_model.reliable() == old(read_model).reliable(),
            given == old(read_model).records(),
            project_all(given, log.take(i as int)) == Some(read_model.records()),
        decreases events@.len() - i,
    {
        proof {
            assert(log.take(i + 1).drop_last() =~= log.take(i as int));
            assert(log.take(i + 1).last() == events@[i as int]@);
            assert(log[i as int] == events@[i as int]@);
        }
        match read_model.update(&events[i]) {
            Ok(_) => {},
            Err(reason) => {
                assert(project_all(given, log.take(i as int)) == Some(read_model.records()));
                proof {
                    if read_model.reliable() {
                        lemma_project_all_refused(given, log, i + 1);
                    }
                }
                return Err(reason);
            },
        }
        i += 1;
    }
    assert(log.take(i as int) =~= log);
    Ok(())
}

/// The record of the bookmark `id`, or `None` where it does not exist or was
/// deleted.
pub fn read_bookmark<R: ReadModel>(id: &str, read_model: &R) -> (found: Option<BookmarkData>)
    requires
        read_model.inv(),
    ensures
        match found {
            Some(bookmark) => read_model.records().contains_key(id@) && bookmark@
                == read_model.records()[id@],
            None => !read_model.records().contains_key(id@),
        },
{
    read_model.read_bookmark(id)
}

/// All records, in the ascending order of their identities.
pub fn read_bookmarks<R: ReadModel>(read_model: &R) -> (found: Option<Vec<BookmarkData>>)
    requires
        read_model.inv(),
    ensures
        match found {
            Some(list) => crate::projection::is_listing(
                crate::domain::data::bookmarks_model(list@),
                read_model.records(),
            ),
            None => !read_model.reliable(),
        },
{
    read_model.read_bookmarks()
}

} // verus!
