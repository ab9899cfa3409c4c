use decentrasync::adapters::clock::FakeClock;
use decentrasync::adapters::memory_read_model::{locate, MemoryReadModel};
use decentrasync::domain::data::{BookmarkData, DomainEvent, DomainEventMeta};
use decentrasync::domain::events::{BookmarkEventPayload, DomainEventPayload};
use decentrasync::ports::{Clock, ReadModel, ReadModelError};

#[test]
fn test_read_model_exposes_bookmark_by_id() {
    let mut read_model = MemoryReadModel::new();
    let clock = FakeClock::new();

    read_model
        .update(&DomainEvent {
            meta: DomainEventMeta {
                aggregate_id: "123".to_owned(),
                created_at: clock.now(),
            },
            payload: DomainEventPayload::Bookmark(BookmarkEventPayload::Created {
                url: "https://example.com".to_owned(),
                title: "Example".to_owned(),
            }),
        })
        .unwrap();

    let bookmark = read_model.read_bookmark("123").unwrap();

    assert_eq!(bookmark.url, "https://example.com");
}

fn event(id: &str, payload: BookmarkEventPayload) -> DomainEvent {
    DomainEvent {
        meta: DomainEventMeta {
            aggregate_id: id.to_owned(),
            created_at: FakeClock::new().now(),
        },
        payload: DomainEventPayload::Bookmark(payload),
    }
}

fn created(id: &str, url: &str, title: &str) -> DomainEvent {
    event(
        id,
        BookmarkEventPayload::Created {
            url: url.to_owned(),
            title: title.to_owned(),
        },
    )
}

fn record(id: &str, url: &str, title: &str) -> BookmarkData {
    BookmarkData {
        id: id.to_owned(),
        url: url.to_owned(),
        title: title.to_owned(),
    }
}

#[test]
fn test_new_read_model_is_empty() {
    let read_model = MemoryReadModel::new();
    assert_eq!(read_model.read_bookmark("123"), None);
    assert_eq!(read_model.read_bookmarks(), Some(vec![]));
}

#[test]
fn test_second_creation_is_refused_and_first_stays() {
    let mut read_model = MemoryReadModel::new();
    read_model
        .update(&created("123", "https://example.com", "Example"))
        .unwrap();
    let refused = read_model.update(&created("123", "https://foobar.com", "Foobar"));
    assert_eq!(refused, Err(ReadModelError::Generic));
    assert_eq!(
        read_model.read_bookmark("123"),
        Some(record("123", "https://example.com", "Example"))
    );
    assert_eq!(read_model.read_bookmarks().unwrap().len(), 1);
}

#[test]
fn test_title_update_for_an_absent_record_is_ignored() {
    let mut read_model = MemoryReadModel::new();
    let outcome = read_model.update(&event(
        "123",
        BookmarkEventPayload::TitleUpdated {
            title: "Foobar".to_owned(),
        },
    ));
    assert_eq!(outcome, Ok(()));
    assert_eq!(read_model.read_bookmark("123"), None);
    assert_eq!(read_model.read_bookmarks(), Some(vec![]));
}

#[test]
fn test_title_update_changes_the_title_only() {
    let mut read_model = MemoryReadModel::new();
    read_model
        .update(&created("123", "https://example.com", "Example"))
        .unwrap();
    read_model
        .update(&created("456", "https://google.com", "Google"))
        .unwrap();
    read_model
        .update(&event(
            "123",
            BookmarkEventPayload::TitleUpdated {
                title: "Foobar".to_owned(),
            },
        ))
        .unwrap();
    assert_eq!(
        read_model.read_bookmark("123"),
        Some(record("123", "https://example.com", "Foobar"))
    );
    assert_eq!(
        read_model.read_bookmark("456"),
        Some(record("456", "https://google.com", "Google"))
    );
}

#[test]
fn test_deletion_removes_the_record_and_may_be_repeated() {
    let mut read_model = MemoryReadModel::new();
    assert_eq!(
        read_model.update(&event("123", BookmarkEventPayload::Deleted)),
        Ok(())
    );
    read_model
        .update(&created("123", "https://example.com", "Example"))
        .unwrap();
    read_model
        .update(&created("456", "https://google.com", "Google"))
        .unwrap();
    assert_eq!(
        read_model.update(&event("123", BookmarkEventPayload::Deleted)),
        Ok(())
    );
    assert_eq!(read_model.read_bookmark("123"), None);
    assert_eq!(
        read_model.update(&event("123", BookmarkEventPayload::Deleted)),
        Ok(())
    );
    assert_eq!(
        read_model.read_bookmarks(),
        Some(vec![record("456", "https://google.com", "Google")])
    );
    // A deleted bookmark makes room for a new one of its identity.
    read_model
        .update(&created("123", "https://foobar.com", "Foobar"))
        .unwrap();
    assert_eq!(
        read_model.read_bookmark("123"),
        Some(record("123", "https://foobar.com", "Foobar"))
    );
}

#[test]
fn test_listing_ascends_by_identity_not_by_arrival() {
    let mut read_model = MemoryReadModel::new();
    for id in ["456", "123", "9", "10", "", "abc", "ab", "Z", "é"] {
        read_model.update(&created(id, "u", id)).unwrap();
    }
    let ids: Vec<String> = read_model
        .read_bookmarks()
        .unwrap()
        .into_iter()
        .map(|b| b.id)
        .collect();
    assert_eq!(ids, vec!["", "10", "123", "456", "9", "Z", "ab", "abc", "é"]);
    for id in ["456", "123", "9", "10", "", "abc", "ab", "Z", "é"] {
        assert_eq!(read_model.read_bookmark(id).unwrap().title, id);
    }
    assert_eq!(read_model.read_bookmark("a"), None);
    assert_eq!(read_model.read_bookmark("1234"), None);
}

#[test]
fn test_locate_gives_the_place_of_an_identity() {
    let records = vec![record("b", "", ""), record("d", "", ""), record("f", "", "")];
    assert_eq!(locate(&records, "a"), (0, false));
    assert_eq!(locate(&records, "b"), (0, true));
    assert_eq!(locate(&records, "c"), (1, false));
    assert_eq!(locate(&records, "d"), (1, true));
    assert_eq!(locate(&records, "f"), (2, true));
    assert_eq!(locate(&records, "g"), (3, false));
    assert_eq!(locate(&Vec::new(), "a"), (0, false));
}
