//! An event log that is kept as files, one for each event. Reading and
//! writing the files is left to the program around this library: it hands
//! over the events that it has read, each with the place of its file, and is
//! handed each new event to write, under a name that no file of the log has.

use vstd::prelude::*;
use crate::adapters::file_names::{
    file_name,
    lemma_file_name_tells_place,
    place_file_name,
    FilePlace,
    Place,
};
use crate::adapters::memory_event_store::events_of_aggregate;
use crate::domain::data::{DomainEvent, EventModel};
use crate::domain::time::NANOS_PER_MILLI;
use crate::log::{
    by_time,
    instant,
    lemma_by_time,
    lemma_events_for_ordered,
    lemma_push_ordered,
    moment,
    ordered,
};
use crate::order::{key_of, lemma_sorted_seen, sort_stable, sorted, Keyed};
use crate::ports::{EventStore, EventStoreError};

verus! {

/// What keeps the files of the log.
pub trait EventFiles {
    /// Writes the event to the file of the name `name`, whole or not at all,
    /// and says whether it is written.
    fn write_event(&mut self, name: &str, event: &DomainEvent) -> bool;
}

/// What the files were asked: to write `event` to the file of the name
/// `name`; and what they answered.
pub struct FileRequest {
    pub name: Seq<char>,
    pub event: EventModel,
    pub written: bool,
}

/// An event and the place of its file, as a mathematical value.
pub struct Filed {
    pub place: Place,
    pub event: EventModel,
}

/// An event and the place of its file.
#[derive(Debug, PartialEq, Eq)]
pub struct FiledEvent {
    pub place: FilePlace,
    pub event: DomainEvent,
}

impl View for FiledEvent {
    type V = Filed;

    open spec fn view(&self) -> Filed {
        Filed { place: self.place@, event: self.event@ }
    }
}

/// A filed event is sorted by the instant of the event.
impl Keyed for FiledEvent {
    open spec fn key(&self) -> nat {
        self.event.meta.created_at@
    }

    fn key_lt(&self, other: &Self) -> (smaller: bool) {
        self.event.meta.created_at.is_before(&other.event.meta.created_at)
    }
}

/// The function that gives each filed event its mathematical value.
pub open spec fn filed_of() -> spec_fn(FiledEvent) -> Filed {
    |filed: FiledEvent| filed@
}

/// The filed events of a sequence, each as its mathematical value.
pub open spec fn filed_model(filed: Seq<FiledEvent>) -> Seq<Filed> {
    filed.map_values(filed_of())
}

/// The function that gives each filed event its event.
pub open spec fn event_of() -> spec_fn(Filed) -> EventModel {
    |filed: Filed| filed.event
}

/// The events of the filed events, in their order.
pub open spec fn events_of(filed: Seq<Filed>) -> Seq<EventModel> {
    filed.map_values(event_of())
}

/// The function that gives each filed event the instant of its event.
pub open spec fn filed_key() -> spec_fn(Filed) -> nat {
    |filed: Filed| instant(filed.event)
}

/// The instant of an event in whole milliseconds: the first number in the
/// name of its file.
pub open spec fn millis(event: EventModel) -> nat {
    event.meta.created_at / (NANOS_PER_MILLI as nat)
}

/// An event is filed at `place`.
pub open spec fn place_taken(filed: Seq<Filed>, place: Place) -> bool {
    exists|i: int| 0 <= i < filed.len() && (#[trigger] filed[i]).place == place
}

/// An event of the millisecond `at` is filed under the number `number`.
pub open spec fn number_taken(filed: Seq<Filed>, at: nat, number: nat) -> bool {
    place_taken(filed, Place { millis: at, number })
}

/// An event of the log has its file under the name `name`.
pub open spec fn name_taken(filed: Seq<Filed>, name: Seq<char>) -> bool {
    exists|i: int| 0 <= i < filed.len() && file_name((#[trigger] filed[i]).place) == name
}

/// `number` is the least number under which no event of the millisecond `at`
/// is filed.
pub open spec fn is_free_number(filed: Seq<Filed>, at: nat, number: nat) -> bool {
    &&& !place_taken(filed, Place { millis: at, number })
    &&& forall|k: nat| k < number ==> #[trigger] number_taken(filed, at, k)
}

/// The least number under which no event of the millisecond `at` is filed.
pub open spec fn free_number(filed: Seq<Filed>, at: nat) -> nat {
    choose|number: nat| is_free_number(filed, at, number)
}

/// The place at which an event that comes to the log is filed: its
/// millisecond, under the least number that is free there.
pub open spec fn free_place(filed: Seq<Filed>, event: EventModel) -> Place {
    Place { millis: millis(event), number: free_number(filed, millis(event)) }
}

/// Where events are filed under each of the first `count` numbers of a
/// millisecond, there are at least `count` events.
proof fn lemma_numbers_taken(filed: Seq<Filed>, at: nat, count: nat)
    requires
        forall|k: nat| k < count ==> #[trigger] number_taken(filed, at, k),
    ensures
        count <= filed.len(),
    decreases count,
{
    if count > 0 {
        let last = Place { millis: at, number: (count - 1) as nat };
        assert(number_taken(filed, at, (count - 1) as nat));
        let i = choose|i: int| 0 <= i < filed.len() && (#[trigger] filed[i]).place == last;
        let rest = filed.remove(i);
        assert forall|k: nat| k < count - 1 implies #[trigger] number_taken(rest, at, k) by {
            let place = Place { millis: at, number: k };
            assert(number_taken(filed, at, k));
            let j = choose|j: int| 0 <= j < filed.len() && (#[trigger] filed[j]).place == place;
            if j < i {
                assert(rest[j] == filed[j]);
            } else {
                assert(rest[j - 1] == filed[j]);
            }
        }
        lemma_numbers_taken(rest, at, (count - 1) as nat);
    }
}

/// Among the numbers from `from` on there is a least free one, where every
/// number before `from` is taken.
proof fn lemma_free_number_from(filed: Seq<Filed>, at: nat, from: nat)
    requires
        forall|k: nat| k < from ==> #[trigger] number_taken(filed, at, k),
    ensures
        exists|number: nat| is_free_number(filed, at, number),
    decreases filed.len() - from,
{
    lemma_numbers_taken(filed, at, from);
    if place_taken(filed, Place { millis: at, number: from }) {
        assert forall|k: nat| k < from + 1 implies #[trigger] number_taken(filed, at, k) by {
            if k == from {
            }
        }
        lemma_numbers_taken(filed, at, from + 1);
        lemma_free_number_from(filed, at, from + 1);
    } else {
        assert(is_free_number(filed, at, from));
    }
}

/// Every millisecond has a free number: the least one that no event of the
/// millisecond is filed under. It is not above the number of the events.
pub proof fn lemma_free_number(filed: Seq<Filed>, at: nat)
    ensures
        is_free_number(filed, at, free_number(filed, at)),
        free_number(filed, at) <= filed.len(),
        forall|number: nat| is_free_number(filed, at, number) ==> number == free_number(filed, at),
{
    lemma_free_number_from(filed, at, 0);
    let free = free_number(filed, at);
    lemma_numbers_taken(filed, at, free);
    assert forall|number: nat| is_free_number(filed, at, number) implies number == free by {
        if number < free {
            assert(number_taken(filed, at, number));
        } else if free < number {
            assert(number_taken(filed, at, free));
        }
    }
}

/// Every place of the sequence is one that can be held.
pub open spec fn places_held(filed: Seq<Filed>) -> bool {
    forall|i: int|
        0 <= i < filed.len() ==> (#[trigger] filed[i]).place.millis <= u128::MAX
            && filed[i].place.number <= u128::MAX
}

/// The place at which an event that comes to the log is filed is free, and
/// so is its name: no event of the log has its file under that name.
pub proof fn lemma_free_place(filed: Seq<Filed>, event: EventModel)
    requires
        places_held(filed),
        millis(event) <= u128::MAX,
        filed.len() <= u128::MAX,
    ensures
        !place_taken(filed, free_place(filed, event)),
        free_place(filed, event).number <= filed.len(),
        !name_taken(filed, file_name(free_place(filed, event))),
{
    lemma_free_number(filed, millis(event));
    let place = free_place(filed, event);
    assert forall|i: int| 0 <= i < filed.len() implies file_name((#[trigger] filed[i]).place)
        != file_name(place) by {
        lemma_file_name_tells_place(filed[i].place);
        lemma_file_name_tells_place(place);
    }
}

/// An event log that is kept as files. It holds the events that the files
/// hold, each with the place of its file, and an event is added to it once
/// its file is written. The files are handed each event under a name that no
/// file of the log has: the millisecond of the event, and the least number
/// that no event of that millisecond is filed under.
pub struct FileSystemEventStore<F: EventFiles> {
    files: F,
    filed: Vec<FiledEvent>,
    requests: Ghost<Seq<FileRequest>>,
}

impl<F: EventFiles> FileSystemEventStore<F> {
    /// The events of the log, each with the place of its file, in the order
    /// of the log.
    pub closed spec fn filed(&self) -> Seq<Filed> {
        filed_model(self.filed@)
    }

    /// What the files were asked by this store, from the first request to the
    /// last.
    pub closed spec fn requests(&self) -> Seq<FileRequest> {
        self.requests@
    }

    /// The log is the events that are filed.
    pub proof fn lemma_log(&self)
        ensures
            self.log() == events_of(self.filed()),
    {
    }

    /// The log of the files `files`, which hold the events `filed`, given in
    /// the order in which they are replayed. The files were asked nothing
    /// yet.
    pub fn new(files: F, filed: Vec<FiledEvent>) -> (store: Self)
        ensures
            store.filed() == filed_model(filed@),
            store.log() == events_of(filed_model(filed@)),
            store.requests() == Seq::<FileRequest>::empty(),
    {
        Self { files, filed, requests: Ghost(Seq::empty()) }
    }

    /// Whether an event of the log is filed at `place`.
    pub fn holds_place(&self, place: &FilePlace) -> (taken: bool)
        ensures
            taken == place_taken(self.filed(), place@),
    {
        let mut i: usize = 0;
        while i < self.filed.len()
            invariant
                i <= self.filed@.len(),
                forall|j: int| 0 <= j < i ==> (#[trigger] filed_model(self.filed@)[j]).place != place@,
            decreases self.filed@.len() - i,
        {
            if self.filed[i].place.millis == place.millis && self.filed[i].place.number
                == place.number {
                assert(filed_model(self.filed@)[i as int].place == place@);
                return true;
            }
            i += 1;
        }
        false
    }

    /// The place at which `event` is filed when it comes to the log.
    pub fn free_place(&self, event: &DomainEvent) -> (place: FilePlace)
        ensures
            place@ == free_place(self.filed(), event@),
    {
        let at = event.meta.created_at.as_millis();
        let mut number: usize = 0;
        proof {
            lemma_numbers_taken(self.filed(), at as nat, 0);
        }
        let count = self.filed.len();
        let first = FilePlace { millis: at, number: 0 };
        let mut taken = self.holds_place(&first);
        while taken
            invariant
                count == self.filed@.len(),
                number <= self.filed@.len(),
                at == millis(event@),
                taken == place_taken(
                    self.filed(),
                    Place { millis: at as nat, number: number as nat },
                ),
                forall|k: nat|
                    k < number ==> #[trigger] number_taken(self.filed(), at as nat, k),
            decreases self.filed@.len() - number,
        {
            proof {
                assert forall|k: nat| k < number + 1 implies #[trigger] number_taken(self.filed(), at as nat, k) by {
                    if k == number {
                    }
                }
                lemma_numbers_taken(self.filed(), at as nat, (number + 1) as nat);
                assert(self.filed().len() == self.filed@.len());
            }
            number += 1;
            let next = FilePlace { millis: at, number: number as u128 };
            taken = self.holds_place(&next);
        }
        proof {
            assert(is_free_number(self.filed(), at as nat, number as nat));
            lemma_free_number(self.filed(), at as nat);
        }
        FilePlace { millis: at, number: number as u128 }
    }

    /// Takes the answer of the files to an event that was made here. Where
    /// its file is written, the event is appended to the log, filed at the
    /// place that was free for it. Where it is not, the store fails and the
    /// log stays as it is. The files are not asked anything.
    pub fn append_written(&mut self, event: DomainEvent, written: bool) -> (outcome: Result<
        (),
        EventStoreError,
    >)
        ensures
            outcome is Ok <==> written,
            written ==> final(self).filed() == old(self).filed().push(
                (Filed { place: free_place(old(self).filed(), event@), event: event@ }),
            ),
            written ==> final(self).log() == old(self).log().push(event@),
            !written ==> final(self).filed() == old(self).filed(),
            !written ==> final(self).log() == old(self).log(),
            final(self).requests() == old(self).requests(),
            written && ordered(old(self).log()) && (old(self).log().len() > 0 ==> instant(
                old(self).log().last(),
            ) <= instant(event@)) ==> ordered(final(self).log()),
    {
        if written {
            let place = self.free_place(&event);
            self.take(FiledEvent { place, event });
            Ok(())
        } else {
            Err(EventStoreError::Generic)
        }
    }

    /// Takes the answer of the files to an event that was made elsewhere.
    /// Where its file is written, the event is added to the log, filed at the
    /// place that was free for it, and the whole log is sorted by time. Where
    /// it is not, the store fails and the log stays as it is. The files are
    /// not asked anything.
    pub fn import_written(&mut self, event: DomainEvent, written: bool) -> (outcome: Result<
        (),
        EventStoreError,
    >)
        ensures
            outcome is Ok <==> written,
            written ==> final(self).filed() == sorted(
                old(self).filed().push(
                    (Filed { place: free_place(old(self).filed(), event@), event: event@ }),
                ),
                filed_key(),
            ),
            written ==> final(self).log() == by_time(old(self).log().push(event@)),
            written ==> ordered(final(self).log()),
            !written ==> final(self).filed() == old(self).filed(),
            !written ==> final(self).log() == old(self).log(),
            final(self).requests() == old(self).requests(),
    {
        if written {
            let place = self.free_place(&event);
            self.take(FiledEvent { place, event });
            self.sort();
            Ok(())
        } else {
            Err(EventStoreError::Generic)
        }
    }

    /// Appends a filed event to the log.
    fn take(&mut self, filed: FiledEvent)
        ensures
            final(self).filed() == old(self).filed().push(filed@),
            final(self).log() == old(self).log().push(filed@.event),
            final(self).requests() == old(self).requests(),
            ordered(old(self).log()) && (old(self).log().len() > 0 ==> instant(
                old(self).log().last(),
            ) <= instant(filed@.event)) ==> ordered(final(self).log()),
    {
        let ghost before = self.filed();
        let ghost log = self.log();
        self.filed.push(filed);
        proof {
            assert(self.filed() =~= before.push(filed@));
            assert(self.log() =~= log.push(filed@.event));
            if ordered(log) && (log.len() > 0 ==> instant(log.last()) <= instant(filed@.event)) {
                lemma_push_ordered(log, filed@.event);
            }
        }
    }

    /// Sorts the log by time.
    fn sort(&mut self)
        ensures
            final(self).filed() == sorted(old(self).filed(), filed_key()),
            final(self).log() == by_time(old(self).log()),
            ordered(final(self).log()),
            final(self).requests() == old(self).requests(),
    {
        proof {
            lemma_sorted_seen(self.filed@, filed_of(), key_of::<FiledEvent>(), filed_key());
            lemma_sorted_seen(self.filed(), event_of(), filed_key(), moment());
            lemma_by_time(self.log());
        }
        sort_stable(&mut self.filed);
    }

    /// Asks the files to write the event to the file at the place that is
    /// free for it, and says whether the event is written.
    fn ask(&mut self, event: &DomainEvent) -> (asked: (FilePlace, bool))
        ensures
            asked.0@ == free_place(old(self).filed(), event@),
            final(self).filed() == old(self).filed(),
            final(self).log() == old(self).log(),
            final(self).requests() == old(self).requests().push(
                (FileRequest { name: file_name(asked.0@), event: event@, written: asked.1 }),
            ),
    {
        let place = self.free_place(event);
        let name = place_file_name(&place);
        let written = self.files.write_event(name.as_str(), event);
        self.requests = Ghost(
            self.requests@.push(FileRequest { name: name@, event: event@, written }),
        );
        (place, written)
    }

    /// A copy of the events of the log, in their order.
    fn events(&self) -> (events: Vec<DomainEvent>)
        ensures
            crate::domain::data::events_model(events@) == self.log(),
    {
        let mut events: Vec<DomainEvent> = Vec::new();
        let mut i: usize = 0;
        while i < self.filed.len()
            invariant
                i <= self.filed@.len(),
                crate::domain::data::events_model(events@) == self.log().take(i as int),
            decreases self.filed@.len() - i,
        {
            let ghost before = crate::domain::data::events_model(events@);
            events.push(self.filed[i].event.clone());
            assert(crate::domain::data::events_model(events@) =~= before.push(
                self.filed@[i as int].event@,
            ));
            i += 1;
        }
        assert(self.log().take(i as int) =~= self.log());
        events
    }
}

impl<F: EventFiles> EventStore for FileSystemEventStore<F> {
    closed spec fn log(&self) -> Seq<EventModel> {
        events_of(filed_model(self.filed@))
    }

    /// Writing a file can fail.
    open spec fn reliable(&self) -> bool {
        false
    }

    /// Asks the files to write the event to the file at the place that is
    /// free for it, which is the place of no event of the log, and appends
    /// the event where they have written it.
    fn store_event(&mut self, event: DomainEvent) -> (outcome: Result<(), EventStoreError>)
        ensures
            !name_taken(old(self).filed(), file_name(free_place(old(self).filed(), event@))),
            final(self).requests() == old(self).requests().push(
                (FileRequest {
                    name: file_name(free_place(old(self).filed(), event@)),
                    event: event@,
                    written: outcome is Ok,
                }),
            ),
            outcome is Ok ==> final(self).filed() == old(self).filed().push(
                (Filed { place: free_place(old(self).filed(), event@), event: event@ }),
            ),
            outcome is Err ==> final(self).filed() == old(self).filed(),
    {
        let count = self.filed.len();
        proof {
            assert(places_held(self.filed()));
            assert(self.filed().len() == count);
            lemma_free_place(self.filed(), event@);
        }
        let (place, written) = self.ask(&event);
        if written {
            self.take(FiledEvent { place, event });
            Ok(())
        } else {
            Err(EventStoreError::Generic)
        }
    }

    /// Asks the files to write the event to the file at the place that is
    /// free for it, which is the place of no event of the log, and adds the
    /// event and sorts the log where they have written it.
    fn import_event(&mut self, event: DomainEvent) -> (outcome: Result<(), EventStoreError>)
        ensures
            !name_taken(old(self).filed(), file_name(free_place(old(self).filed(), event@))),
            final(self).requests() == old(self).requests().push(
                (FileRequest {
                    name: file_name(free_place(old(self).filed(), event@)),
                    event: event@,
                    written: outcome is Ok,
                }),
            ),
            outcome is Ok ==> final(self).filed() == sorted(
                old(self).filed().push(
                    (Filed { place: free_place(old(self).filed(), event@), event: event@ }),
                ),
                filed_key(),
            ),
            outcome is Err ==> final(self).filed() == old(self).filed(),
    {
        let count = self.filed.len();
        proof {
            assert(places_held(self.filed()));
            assert(self.filed().len() == count);
            lemma_free_place(self.filed(), event@);
        }
        let (place, written) = self.ask(&event);
        if written {
            self.take(FiledEvent { place, event });
            self.sort();
            Ok(())
        } else {
            Err(EventStoreError::Generic)
        }
    }

    fn get_events_for_aggregate(&self, aggregate_id: &str) -> (events: Vec<DomainEvent>) {
        proof {
            if ordered(self.log()) {
                lemma_events_for_ordered(self.log(), aggregate_id@);
            }
        }
        let all = self.events();
        events_of_aggregate(&all, aggregate_id)
    }

    fn events_iter(&self) -> (events: Vec<DomainEvent>) {
        self.events()
    }
}

} // verus!
