use decentrasync::adapters::memory_event_log::{copy_events, EventLog, MemoryEventLog};
use decentrasync::adapters::memory_repository::MemoryRepository;
use decentrasync::domain::data::{DomainEvent, DomainEventMeta};
use decentrasync::domain::events::{BookmarkEventPayload, DomainEventPayload};
use decentrasync::domain::time::Timestamp;
use decentrasync::entities::Bookmark;
use decentrasync::repositories::{first_with_id, InMemoryRepository, Repository};
use decentrasync::values::{BookmarkInput, BookmarkQuery};

fn bookmark(id: &str, title: &str) -> Bookmark {
    let input = BookmarkInput {
        url: "https://example.com".to_owned(),
        title: title.to_owned(),
    };
    Bookmark {
        id: id.to_owned(),
        url: input.url,
        title: input.title,
    }
}

fn query(id: &str) -> BookmarkQuery {
    BookmarkQuery { id: id.to_owned() }
}

#[test]
fn test_repository_hands_back_what_was_put_in() {
    let mut repository = InMemoryRepository::new();
    assert_eq!(repository.fetch_first(query("1")), Err(()));
    assert_eq!(
        repository.insert(bookmark("1", "one")),
        Ok(bookmark("1", "one"))
    );
    assert_eq!(
        repository.insert(bookmark("2", "two")),
        Ok(bookmark("2", "two"))
    );
    assert_eq!(repository.fetch_first(query("2")), Ok(bookmark("2", "two")));
    assert_eq!(repository.fetch_first(query("1")), Ok(bookmark("1", "one")));
    assert_eq!(repository.fetch_first(query("3")), Err(()));
}

#[test]
fn test_repository_finds_the_first_of_an_identity() {
    let mut repository = MemoryRepository::new();
    assert_eq!(repository.fetch_first(query("1")), Err(()));
    repository.insert(bookmark("1", "first")).unwrap();
    repository.insert(bookmark("2", "other")).unwrap();
    repository.insert(bookmark("1", "second")).unwrap();
    assert_eq!(
        repository.fetch_first(query("1")),
        Ok(bookmark("1", "first"))
    );
    assert_eq!(repository.bookmarks.len(), 3);
}

#[test]
fn test_first_with_id_of_a_plain_list() {
    let list = vec![bookmark("a", "1"), bookmark("b", "2"), bookmark("a", "3")];
    assert_eq!(first_with_id(&list, "a"), Some(bookmark("a", "1")));
    assert_eq!(first_with_id(&list, "b"), Some(bookmark("b", "2")));
    assert_eq!(first_with_id(&list, "ab"), None);
    assert_eq!(first_with_id(&Vec::new(), "a"), None);
}

fn event(id: &str, secs: u64) -> DomainEvent {
    DomainEvent {
        meta: DomainEventMeta {
            aggregate_id: id.to_owned(),
            created_at: Timestamp::from_parts(secs, 0),
        },
        payload: DomainEventPayload::Bookmark(BookmarkEventPayload::Deleted),
    }
}

#[test]
fn test_event_log_keeps_events_as_they_were_pushed() {
    let mut log = MemoryEventLog::new();
    assert_eq!(log.get_all_events(), vec![]);
    assert_eq!(log.push(event("a", 5)), Ok(()));
    assert_eq!(log.push(event("b", 1)), Ok(()));
    assert_eq!(log.push(event("a", 3)), Ok(()));
    assert_eq!(
        log.get_all_events(),
        vec![event("a", 5), event("b", 1), event("a", 3)]
    );
    assert_eq!(copy_events(&log.events), log.get_all_events());
}
