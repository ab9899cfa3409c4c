use decentrasync::adapters::file_names::{
    decimal_text, event_file_name, file_millis, file_place, place_file_name, replay_order,
    FilePlace,
};
use decentrasync::domain::time::Timestamp;

#[test]
fn test_event_file_is_named_by_the_milliseconds_of_the_event() {
    assert_eq!(event_file_name(&Timestamp::from_parts(10, 0), 0), "10000.json");
    assert_eq!(event_file_name(&Timestamp::from_parts(15, 0), 0), "15000.json");
    assert_eq!(event_file_name(&Timestamp::epoch(), 0), "0.json");
    // Parts of a millisecond are cut off.
    assert_eq!(
        event_file_name(&Timestamp::from_parts(1, 999_999), 0),
        "1000.json"
    );
    assert_eq!(
        event_file_name(&Timestamp::from_parts(1, 1_000_000), 0),
        "1001.json"
    );
    assert_eq!(
        event_file_name(&Timestamp::from_nanos(u128::MAX), 0),
        "340282366920938463463374607431768.json"
    );
}

#[test]
fn test_decimal_text_writes_numbers_without_leading_zeros() {
    assert_eq!(decimal_text(0), "0");
    assert_eq!(decimal_text(7), "7");
    assert_eq!(decimal_text(10), "10");
    assert_eq!(decimal_text(1234567890), "1234567890");
    assert_eq!(
        decimal_text(u128::MAX),
        "340282366920938463463374607431768211455"
    );
}

#[test]
fn test_file_millis_reads_the_instant_from_the_name() {
    assert_eq!(file_millis("10000.json"), Some(10000));
    assert_eq!(file_millis("0.json"), Some(0));
    assert_eq!(file_millis("9.json"), Some(9));
    assert_eq!(
        file_millis("340282366920938463463374607431768211455.json"),
        Some(u128::MAX)
    );
}

#[test]
fn test_file_millis_refuses_other_names() {
    assert_eq!(file_millis(""), None);
    assert_eq!(file_millis(".json"), None);
    assert_eq!(file_millis("json"), None);
    assert_eq!(file_millis("10000"), None);
    assert_eq!(file_millis("10000.txt"), None);
    assert_eq!(file_millis("10000.JSON"), None);
    assert_eq!(file_millis("10000.jsonl"), None);
    assert_eq!(file_millis("010000.json"), None);
    assert_eq!(file_millis("00.json"), None);
    assert_eq!(file_millis("-1.json"), None);
    assert_eq!(file_millis("+1.json"), None);
    assert_eq!(file_millis("1 .json"), None);
    assert_eq!(file_millis("1x.json"), None);
    assert_eq!(file_millis("x1.json"), None);
    assert_eq!(file_millis("1.5.json"), None);
    assert_eq!(file_millis("١٢٣.json"), None);
    assert_eq!(file_millis("é.json"), None);
    // One more than the greatest instant that can be held.
    assert_eq!(
        file_millis("340282366920938463463374607431768211456.json"),
        None
    );
    assert_eq!(
        file_millis("999999999999999999999999999999999999999999.json"),
        None
    );
}

#[test]
fn test_name_and_instant_agree() {
    for millis in [0u128, 1, 9, 10, 99, 100, 10000, 15000, 1_700_000_000_000] {
        let name = event_file_name(&Timestamp::from_nanos(millis * 1_000_000), 0);
        assert_eq!(file_millis(&name), Some(millis));
    }
}

fn names(list: &[&str]) -> Vec<String> {
    list.iter().map(|s| s.to_string()).collect()
}

#[test]
fn test_replay_order_is_by_number_not_by_letters() {
    let found = names(&["15000.json", "9000.json", "10000.json", "100000.json", "0.json"]);
    assert_eq!(
        replay_order(&found),
        names(&["0.json", "9000.json", "10000.json", "15000.json", "100000.json"])
    );
}

#[test]
fn test_replay_order_leaves_other_files_out() {
    let found = names(&[
        "notes.txt",
        "15000.json",
        "10000.json.bak",
        "010.json",
        "10000.json",
        ".json",
    ]);
    assert_eq!(replay_order(&found), names(&["10000.json", "15000.json"]));
    assert_eq!(replay_order(&Vec::new()), Vec::<String>::new());
    assert_eq!(replay_order(&names(&["a", "b"])), Vec::<String>::new());
}

use decentrasync::adapters::clock::FakeClock;
use decentrasync::adapters::file_event_store::{EventFiles, FileSystemEventStore, FiledEvent};
use decentrasync::domain::data::{DomainEvent, DomainEventMeta};
use decentrasync::domain::events::{BookmarkEventPayload, DomainEventPayload};
use decentrasync::domain::time::Duration;
use decentrasync::ports::{Clock, EventStore, EventStoreError};
use std::cell::RefCell;
use std::rc::Rc;

/// Files that are kept in memory: each write is noted, and writes can be made
/// to fail.
struct NotedFiles {
    written: Rc<RefCell<Vec<(String, DomainEvent)>>>,
    failing: bool,
}

impl EventFiles for NotedFiles {
    fn write_event(&mut self, name: &str, event: &DomainEvent) -> bool {
        if self.failing {
            return false;
        }
        self.written
            .borrow_mut()
            .push((name.to_owned(), event.clone()));
        true
    }
}

fn filed(millis: u128, number: u128, event: DomainEvent) -> FiledEvent {
    FiledEvent {
        place: FilePlace { millis, number },
        event,
    }
}

fn created(id: &str, at: Timestamp, url: &str, title: &str) -> DomainEvent {
    DomainEvent {
        meta: DomainEventMeta {
            aggregate_id: id.to_owned(),
            created_at: at,
        },
        payload: DomainEventPayload::Bookmark(BookmarkEventPayload::Created {
            url: url.to_owned(),
            title: title.to_owned(),
        }),
    }
}

#[test]
fn test_storing_an_event_writes_to_disk() {
    let written = Rc::new(RefCell::new(Vec::new()));
    let files = NotedFiles {
        written: written.clone(),
        failing: false,
    };
    let mut clock = FakeClock::new();
    let mut event_store = FileSystemEventStore::new(files, Vec::new());

    clock.advance(Duration::from_secs(10));
    let event = DomainEvent {
        meta: DomainEventMeta {
            aggregate_id: "123".to_owned(),
            created_at: clock.now(),
        },
        payload: DomainEventPayload::Bookmark(BookmarkEventPayload::Created {
            url: "https://example.com".to_owned(),
            title: "Example".to_owned(),
        }),
    };

    event_store.store_event(event.clone()).unwrap();

    let written = written.borrow();
    assert_eq!(written.len(), 1);
    assert_eq!(written[0].0, "10000.json");
    assert_eq!(written[0].1, event);
    assert_eq!(event_store.events_iter(), vec![event]);
}

#[test]
fn test_entire_log_of_events_can_be_read_from_disk_on_demand() {
    // The folder holds the files of two events, found in any order.
    let found = names(&["15000.json", "10000.json"]);
    let read = |name: &str| match name {
        "10000.json" => created(
            "123",
            Timestamp::from_parts(10, 0),
            "https://example.com",
            "Example",
        ),
        _ => created(
            "456",
            Timestamp::from_parts(15, 0),
            "https://google.com",
            "Google",
        ),
    };
    let in_files: Vec<FiledEvent> = replay_order(&found)
        .iter()
        .map(|n| FiledEvent {
            place: file_place(n).unwrap(),
            event: read(n),
        })
        .collect();
    let files = NotedFiles {
        written: Rc::new(RefCell::new(Vec::new())),
        failing: false,
    };
    let es = FileSystemEventStore::new(files, in_files);

    let events: Vec<DomainEvent> = es.events_iter();
    assert_eq!(2, events.len());
    assert_eq!(
        events.get(0).unwrap(),
        &DomainEvent {
            meta: DomainEventMeta {
                aggregate_id: "123".to_owned(),
                created_at: Timestamp::from_parts(10, 0),
            },
            payload: DomainEventPayload::Bookmark(BookmarkEventPayload::Created {
                url: "https://example.com".to_owned(),
                title: "Example".to_owned()
            })
        }
    );
    assert_eq!(es.get_events_for_aggregate("456").len(), 1);
    assert_eq!(es.get_events_for_aggregate("789").len(), 0);
}

#[test]
fn test_an_event_whose_file_is_not_written_is_not_in_the_log() {
    let files = NotedFiles {
        written: Rc::new(RefCell::new(Vec::new())),
        failing: true,
    };
    let kept = created("1", Timestamp::from_parts(1, 0), "u", "t");
    let mut event_store = FileSystemEventStore::new(files, vec![filed(1_000, 0, kept.clone())]);
    let lost = created("2", Timestamp::from_parts(2, 0), "u", "t");
    assert_eq!(
        event_store.store_event(lost.clone()),
        Err(EventStoreError::Generic)
    );
    assert_eq!(event_store.import_event(lost), Err(EventStoreError::Generic));
    assert_eq!(event_store.events_iter(), vec![kept]);
}

#[test]
fn test_an_imported_event_is_written_and_put_in_its_place() {
    let written = Rc::new(RefCell::new(Vec::new()));
    let files = NotedFiles {
        written: written.clone(),
        failing: false,
    };
    let local = created("123", Timestamp::from_parts(10, 0), "u", "local");
    let mut event_store = FileSystemEventStore::new(files, vec![filed(10_000, 0, local.clone())]);
    let external = created("abc", Timestamp::from_parts(5, 0), "u", "external");
    event_store.import_event(external.clone()).unwrap();
    assert_eq!(event_store.events_iter(), vec![external.clone(), local]);
    assert_eq!(written.borrow().len(), 1);
    assert_eq!(written.borrow()[0].0, "5000.json");
    assert_eq!(written.borrow()[0].1, external);
}

#[test]
fn test_the_answer_of_the_files_decides_what_the_log_takes() {
    let files = NotedFiles {
        written: Rc::new(RefCell::new(Vec::new())),
        failing: false,
    };
    let first = created("1", Timestamp::from_parts(10, 0), "u", "first");
    let mut event_store = FileSystemEventStore::new(files, vec![filed(10_000, 0, first.clone())]);

    let second = created("2", Timestamp::from_parts(20, 0), "u", "second");
    assert_eq!(
        event_store.append_written(second.clone(), false),
        Err(EventStoreError::Generic)
    );
    assert_eq!(event_store.events_iter(), vec![first.clone()]);
    assert_eq!(event_store.append_written(second.clone(), true), Ok(()));
    assert_eq!(
        event_store.events_iter(),
        vec![first.clone(), second.clone()]
    );

    let early = created("3", Timestamp::from_parts(5, 0), "u", "early");
    assert_eq!(
        event_store.import_written(early.clone(), false),
        Err(EventStoreError::Generic)
    );
    assert_eq!(
        event_store.events_iter(),
        vec![first.clone(), second.clone()]
    );
    assert_eq!(event_store.import_written(early.clone(), true), Ok(()));
    assert_eq!(event_store.events_iter(), vec![early, first, second]);
}

#[test]
fn test_events_of_one_millisecond_have_files_of_their_own() {
    let written = Rc::new(RefCell::new(Vec::new()));
    let files = NotedFiles {
        written: written.clone(),
        failing: false,
    };
    let mut event_store = FileSystemEventStore::new(files, Vec::new());
    // A clock that is not advanced stamps every event alike.
    let clock = FakeClock::new();
    let e1 = created("1", clock.now(), "u", "first");
    let e2 = created("2", clock.now(), "u", "second");
    let e3 = created("3", Timestamp::from_nanos(999_999), "u", "third");
    assert_eq!(event_store.store_event(e1.clone()), Ok(()));
    assert_eq!(event_store.store_event(e2.clone()), Ok(()));
    assert_eq!(event_store.store_event(e3.clone()), Ok(()));
    assert_eq!(
        event_store.events_iter(),
        vec![e1.clone(), e2.clone(), e3.clone()]
    );
    let names: Vec<String> = written.borrow().iter().map(|w| w.0.clone()).collect();
    assert_eq!(names, vec!["0.json", "0-1.json", "0-2.json"]);
    assert_eq!(written.borrow()[1].1, e2);

    // An event of another millisecond starts anew.
    let e4 = created("4", Timestamp::from_parts(10, 0), "u", "fourth");
    assert_eq!(event_store.store_event(e4), Ok(()));
    assert_eq!(written.borrow()[3].0, "10000.json");
    let e5 = created("5", Timestamp::from_parts(10, 5), "u", "fifth");
    assert_eq!(event_store.import_event(e5), Ok(()));
    assert_eq!(written.borrow()[4].0, "10000-1.json");
    assert_eq!(event_store.events_iter().len(), 5);

    // Read back in the order of the names, the events come as they were kept.
    assert_eq!(
        replay_order(&names),
        vec!["0.json", "0-1.json", "0-2.json"]
    );
}

#[test]
fn test_a_new_event_takes_the_least_number_that_is_free() {
    let written = Rc::new(RefCell::new(Vec::new()));
    let files = NotedFiles {
        written: written.clone(),
        failing: false,
    };
    let at = Timestamp::from_parts(10, 0);
    let held = vec![
        filed(10_000, 0, created("a", at, "u", "a")),
        filed(10_000, 2, created("b", at, "u", "b")),
        filed(9_000, 1, created("c", at, "u", "c")),
    ];
    let mut event_store = FileSystemEventStore::new(files, held);
    assert!(event_store.holds_place(&FilePlace {
        millis: 10_000,
        number: 2
    }));
    assert!(!event_store.holds_place(&FilePlace {
        millis: 10_000,
        number: 1
    }));
    let next = created("d", at, "u", "d");
    assert_eq!(
        event_store.free_place(&next),
        FilePlace {
            millis: 10_000,
            number: 1
        }
    );
    event_store.store_event(next.clone()).unwrap();
    assert_eq!(written.borrow()[0].0, "10000-1.json");
    assert_eq!(
        event_store.free_place(&next),
        FilePlace {
            millis: 10_000,
            number: 3
        }
    );
    // A write that fails takes no place.
    assert_eq!(event_store.append_written(next.clone(), false).is_err(), true);
    assert_eq!(
        event_store.free_place(&next),
        FilePlace {
            millis: 10_000,
            number: 3
        }
    );
}

#[test]
fn test_names_with_numbers() {
    assert_eq!(
        place_file_name(&FilePlace {
            millis: 10000,
            number: 0
        }),
        "10000.json"
    );
    assert_eq!(
        place_file_name(&FilePlace {
            millis: 10000,
            number: 1
        }),
        "10000-1.json"
    );
    assert_eq!(
        place_file_name(&FilePlace {
            millis: 0,
            number: 120
        }),
        "0-120.json"
    );
    assert_eq!(
        event_file_name(&Timestamp::from_parts(10, 0), 7),
        "10000-7.json"
    );
    assert_eq!(
        file_place("10000.json"),
        Some(FilePlace {
            millis: 10000,
            number: 0
        })
    );
    assert_eq!(
        file_place("10000-12.json"),
        Some(FilePlace {
            millis: 10000,
            number: 12
        })
    );
    assert_eq!(file_millis("10000-12.json"), Some(10000));
    assert_eq!(
        file_place("0-340282366920938463463374607431768211455.json"),
        Some(FilePlace {
            millis: 0,
            number: u128::MAX
        })
    );
    for name in [
        "10000-0.json",
        "10000-01.json",
        "10000-.json",
        "-1.json",
        "10000--1.json",
        "1-2-3.json",
        "10000-1x.json",
        "10000_1.json",
        "10000-1",
        "0-340282366920938463463374607431768211456.json",
        "340282366920938463463374607431768211456-1.json",
    ] {
        assert_eq!(file_place(name), None);
        assert_eq!(file_millis(name), None);
    }
    for (millis, number) in [(0u128, 0u128), (0, 1), (9, 10), (10000, 99), (u128::MAX, u128::MAX)] {
        let place = FilePlace { millis, number };
        assert_eq!(file_place(&place_file_name(&place)), Some(place));
    }
}

#[test]
fn test_replay_order_within_a_millisecond_is_by_number() {
    let found = names(&[
        "10000-2.json",
        "10000.json",
        "10000-10.json",
        "10000-1.json",
        "9999-5.json",
        "10000-0.json",
        "10001.json",
    ]);
    assert_eq!(
        replay_order(&found),
        names(&[
            "9999-5.json",
            "10000.json",
            "10000-1.json",
            "10000-2.json",
            "10000-10.json",
            "10001.json",
        ])
    );
}
