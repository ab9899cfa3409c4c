use decentrasync::adapters::clock::FakeClock;
use decentrasync::adapters::memory_event_store::{events_of_aggregate, sort_by_time, MemoryEventStore};
use decentrasync::domain::data::{DomainEvent, DomainEventMeta};
use decentrasync::domain::events::{BookmarkEventPayload, DomainEventPayload};
use decentrasync::domain::time::{Duration, Timestamp};
use decentrasync::ports::{Clock, EventStore};

#[test]
fn test_importing_an_event_sorts_the_log() {
    let mut event_store = MemoryEventStore::new();
    let mut clock = FakeClock::new();

    let earlier_external_event_time = clock.now();
    let earlier_external_event = DomainEvent {
        meta: DomainEventMeta {
            aggregate_id: "abc".to_owned(),
            created_at: earlier_external_event_time,
        },
        payload: DomainEventPayload::Bookmark(BookmarkEventPayload::Created {
            url: "https://google.com".to_owned(),
            title: "Google".to_owned(),
        }),
    };

    clock.advance(Duration::from_secs(10));
    let later_local_event_time = clock.now();
    let later_local_event = DomainEvent {
        meta: DomainEventMeta {
            aggregate_id: "123".to_owned(),
            created_at: later_local_event_time,
        },
        payload: DomainEventPayload::Bookmark(BookmarkEventPayload::Created {
            url: "https://example.com".to_owned(),
            title: "Example".to_owned(),
        }),
    };

    event_store.store_event(later_local_event).unwrap();
    event_store.import_event(earlier_external_event).unwrap();

    let events = event_store.events_iter();

    assert_eq!(events[0].meta.created_at, earlier_external_event_time);
}

fn event(id: &str, secs: u64, title: &str) -> DomainEvent {
    DomainEvent {
        meta: DomainEventMeta {
            aggregate_id: id.to_owned(),
            created_at: Timestamp::from_parts(secs, 0),
        },
        payload: DomainEventPayload::Bookmark(BookmarkEventPayload::TitleUpdated {
            title: title.to_owned(),
        }),
    }
}

fn titles(events: &Vec<DomainEvent>) -> Vec<String> {
    events
        .iter()
        .map(|e| match &e.payload {
            DomainEventPayload::Bookmark(BookmarkEventPayload::TitleUpdated { title }) => {
                title.clone()
            }
            _ => String::new(),
        })
        .collect()
}

#[test]
fn test_import_places_the_earlier_event_first() {
    // A local event at 10 s, then one from elsewhere of 5 s.
    let mut event_store = MemoryEventStore::new();
    event_store.store_event(event("123", 10, "local")).unwrap();
    event_store.import_event(event("abc", 5, "external")).unwrap();
    let events = event_store.events_iter();
    assert_eq!(events.len(), 2);
    assert_eq!(events[0].meta.created_at, Timestamp::from_parts(5, 0));
    assert_eq!(events[0].meta.aggregate_id, "abc");
    assert_eq!(events[1].meta.created_at, Timestamp::from_parts(10, 0));
}

#[test]
fn test_store_event_appends_in_the_order_of_the_calls() {
    let mut event_store = MemoryEventStore::new();
    assert_eq!(event_store.events_iter().len(), 0);
    event_store.store_event(event("a", 3, "first")).unwrap();
    event_store.store_event(event("b", 1, "second")).unwrap();
    event_store.store_event(event("a", 2, "third")).unwrap();
    assert_eq!(
        titles(&event_store.events_iter()),
        vec!["first", "second", "third"]
    );
}

#[test]
fn test_import_sorts_the_whole_log_and_keeps_ties_in_order() {
    let mut event_store = MemoryEventStore::new();
    event_store.store_event(event("a", 3, "t3")).unwrap();
    event_store.store_event(event("b", 1, "t1")).unwrap();
    event_store.store_event(event("c", 2, "t2-first")).unwrap();
    event_store.store_event(event("d", 1, "t1-second")).unwrap();
    event_store.import_event(event("e", 2, "t2-second")).unwrap();
    assert_eq!(
        titles(&event_store.events_iter()),
        vec!["t1", "t1-second", "t2-first", "t2-second", "t3"]
    );
}

#[test]
fn test_import_into_an_ordered_log_goes_behind_events_of_its_instant() {
    let mut event_store = MemoryEventStore::new();
    event_store.store_event(event("a", 1, "one")).unwrap();
    event_store.store_event(event("a", 2, "two")).unwrap();
    event_store.store_event(event("a", 3, "three")).unwrap();
    event_store.import_event(event("b", 2, "new")).unwrap();
    assert_eq!(
        titles(&event_store.events_iter()),
        vec!["one", "two", "new", "three"]
    );
    event_store.import_event(event("b", 9, "last")).unwrap();
    event_store.import_event(event("b", 0, "first")).unwrap();
    assert_eq!(
        titles(&event_store.events_iter()),
        vec!["first", "one", "two", "new", "three", "last"]
    );
}

#[test]
fn test_events_of_one_aggregate_come_in_the_order_of_the_log() {
    let mut event_store = MemoryEventStore::new();
    event_store.store_event(event("a", 1, "a1")).unwrap();
    event_store.store_event(event("b", 2, "b2")).unwrap();
    event_store.store_event(event("a", 3, "a3")).unwrap();
    event_store.store_event(event("ab", 4, "ab4")).unwrap();
    assert_eq!(
        titles(&event_store.get_events_for_aggregate("a")),
        vec!["a1", "a3"]
    );
    assert_eq!(titles(&event_store.get_events_for_aggregate("b")), vec!["b2"]);
    assert_eq!(event_store.get_events_for_aggregate("c").len(), 0);
    // The whole log can be read again and again.
    assert_eq!(event_store.events_iter(), event_store.events_iter());
    assert_eq!(event_store.events_iter().len(), 4);
}

#[test]
fn test_events_of_aggregate_filters_a_plain_list() {
    let events = vec![event("x", 1, "1"), event("y", 1, "2"), event("x", 0, "3")];
    assert_eq!(titles(&events_of_aggregate(&events, "x")), vec!["1", "3"]);
    assert_eq!(titles(&events_of_aggregate(&events, "")), Vec::<String>::new());
}

#[test]
fn test_sort_by_time_is_stable() {
    let mut events = vec![
        event("x", 5, "5a"),
        event("x", 4, "4"),
        event("x", 5, "5b"),
        event("x", 1, "1"),
        event("x", 4, "4b"),
    ];
    sort_by_time(&mut events);
    assert_eq!(titles(&events), vec!["1", "4", "4b", "5a", "5b"]);
    let mut none: Vec<DomainEvent> = Vec::new();
    sort_by_time(&mut none);
    assert_eq!(none.len(), 0);
}
