use decentrasync::adapters::clock::FakeClock;
use decentrasync::domain::aggregates::{BookmarkAggregate, State};
use decentrasync::domain::commands::BookmarkCommand;
use decentrasync::domain::data::{Aggregate, DomainEventMeta};
use decentrasync::domain::errors::DomainError;
use decentrasync::domain::events::BookmarkEventPayload;
use decentrasync::ports::Clock;

#[test]
fn test_deleted_bookmark_cannot_be_acted_upon() {
    let clock = FakeClock::new();
    let bookmark = BookmarkAggregate::new("123456".to_owned());
    let bookmark = bookmark.apply_event(
        &BookmarkEventPayload::Created {
            url: "https://example.com".to_owned(),
            title: "Example".to_owned(),
        },
        &DomainEventMeta {
            aggregate_id: "123456".to_owned(),
            created_at: clock.now(),
        },
    );
    let bookmark = bookmark.apply_event(
        &BookmarkEventPayload::Deleted,
        &DomainEventMeta {
            aggregate_id: "123456".to_owned(),
            created_at: clock.now(),
        },
    );

    let err = bookmark
        .handle_command(&BookmarkCommand::UpdateTitle {
            title: "Foobar".to_owned(),
        })
        .unwrap_err();

    assert_eq!(err, DomainError::NoSuchBookmark);
}

#[test]
fn test_bookmark_with_duplicate_id_cannot_be_created() {
    let clock = FakeClock::new();
    let bookmark = BookmarkAggregate::new("123456".to_owned());
    let bookmark = bookmark.apply_event(
        &BookmarkEventPayload::Created {
            url: "https://example.com".to_owned(),
            title: "Example".to_owned(),
        },
        &DomainEventMeta {
            aggregate_id: "123456".to_owned(),
            created_at: clock.now(),
        },
    );

    let err = bookmark
        .handle_command(&BookmarkCommand::BookmarkPage {
            url: "https://foobar.com".to_owned(),
            title: "Foobar".to_owned(),
        })
        .unwrap_err();

    assert_eq!(err, DomainError::BookmarkAlreadyExists)
}

#[test]
fn test_bookmarking_page_generates_create_event() {
    let bookmark = BookmarkAggregate::new("123456".to_owned());

    let event_payload = bookmark
        .handle_command(&BookmarkCommand::BookmarkPage {
            url: "https://example.com".to_owned(),
            title: "Example".to_owned(),
        })
        .unwrap();

    assert_eq!(
        event_payload,
        BookmarkEventPayload::Created {
            url: "https://example.com".to_owned(),
            title: "Example".to_owned(),
        }
    )
}

fn meta(id: &str) -> DomainEventMeta {
    DomainEventMeta {
        aggregate_id: id.to_owned(),
        created_at: FakeClock::new().now(),
    }
}

fn created(url: &str, title: &str) -> BookmarkEventPayload {
    BookmarkEventPayload::Created {
        url: url.to_owned(),
        title: title.to_owned(),
    }
}

#[test]
fn test_new_aggregate_does_not_exist() {
    let bookmark = BookmarkAggregate::new("123456".to_owned());
    assert_eq!(bookmark.id, "123456");
    assert_eq!(bookmark.title, "");
    assert_eq!(bookmark.url, "");
    assert_eq!(bookmark.state, State::Nonexistent);
}

#[test]
fn test_created_event_sets_address_title_and_state() {
    let bookmark = BookmarkAggregate::new("a".to_owned())
        .apply_event(&created("https://example.com", "Example"), &meta("a"));
    assert_eq!(bookmark.state, State::Created);
    assert_eq!(bookmark.url, "https://example.com");
    assert_eq!(bookmark.title, "Example");
    assert_eq!(bookmark.id, "a");
}

#[test]
fn test_title_updated_event_changes_the_title_only() {
    let bookmark = BookmarkAggregate::new("a".to_owned())
        .apply_event(&created("https://example.com", "Example"), &meta("a"))
        .apply_event(
            &BookmarkEventPayload::TitleUpdated {
                title: "Other".to_owned(),
            },
            &meta("a"),
        );
    assert_eq!(bookmark.state, State::Created);
    assert_eq!(bookmark.url, "https://example.com");
    assert_eq!(bookmark.title, "Other");
}

#[test]
fn test_deleted_event_ends_the_bookmark() {
    let bookmark = BookmarkAggregate::new("a".to_owned())
        .apply_event(&created("https://example.com", "Example"), &meta("a"))
        .apply_event(&BookmarkEventPayload::Deleted, &meta("a"));
    assert_eq!(bookmark.state, State::Deleted);
    assert_eq!(bookmark.url, "https://example.com");
    assert_eq!(bookmark.title, "Example");
}

#[test]
fn test_events_of_another_aggregate_change_nothing() {
    let bookmark = BookmarkAggregate::new("a".to_owned())
        .apply_event(&created("https://example.com", "Example"), &meta("b"));
    assert_eq!(bookmark.state, State::Nonexistent);
    assert_eq!(bookmark.url, "");
    assert_eq!(bookmark.title, "");

    let bookmark = bookmark
        .apply_event(&created("https://example.com", "Example"), &meta("a"))
        .apply_event(&BookmarkEventPayload::Deleted, &meta("b"))
        .apply_event(
            &BookmarkEventPayload::TitleUpdated {
                title: "Other".to_owned(),
            },
            &meta("ab"),
        );
    assert_eq!(bookmark.state, State::Created);
    assert_eq!(bookmark.title, "Example");
}

#[test]
fn test_commands_on_a_bookmark_that_does_not_exist() {
    let bookmark = BookmarkAggregate::new("a".to_owned());
    assert_eq!(
        bookmark.handle_command(&BookmarkCommand::Delete),
        Err(DomainError::NoSuchBookmark)
    );
    assert_eq!(
        bookmark.handle_command(&BookmarkCommand::UpdateTitle {
            title: "t".to_owned()
        }),
        Err(DomainError::NoSuchBookmark)
    );
}

#[test]
fn test_commands_on_a_live_bookmark() {
    let bookmark = BookmarkAggregate::new("a".to_owned())
        .apply_event(&created("https://example.com", "Example"), &meta("a"));
    assert_eq!(
        bookmark.handle_command(&BookmarkCommand::Delete),
        Ok(BookmarkEventPayload::Deleted)
    );
    assert_eq!(
        bookmark.handle_command(&BookmarkCommand::UpdateTitle {
            title: "t".to_owned()
        }),
        Ok(BookmarkEventPayload::TitleUpdated {
            title: "t".to_owned()
        })
    );
    // Deciding changes nothing: only events do.
    assert_eq!(bookmark.state, State::Created);
    assert_eq!(bookmark.title, "Example");
}

#[test]
fn test_commands_on_a_deleted_bookmark() {
    let bookmark = BookmarkAggregate::new("a".to_owned())
        .apply_event(&created("https://example.com", "Example"), &meta("a"))
        .apply_event(&BookmarkEventPayload::Deleted, &meta("a"));
    assert_eq!(
        bookmark.handle_command(&BookmarkCommand::Delete),
        Err(DomainError::NoSuchBookmark)
    );
    assert_eq!(
        bookmark.handle_command(&BookmarkCommand::BookmarkPage {
            url: "u".to_owned(),
            title: "t".to_owned()
        }),
        Err(DomainError::NoSuchBookmark)
    );
}

#[test]
fn test_error_messages() {
    assert_eq!(DomainError::NoSuchBookmark.message(), "No such bookmark");
    assert_eq!(
        DomainError::BookmarkAlreadyExists.message(),
        "Bookmark already exists"
    );
    assert_eq!(
        DomainError::PortError.message(),
        "Error interfacing with external system"
    );
}

#[test]
fn test_deleted_bookmark_is_not_created_again() {
    let m = meta("123456");
    let a = BookmarkAggregate::new("123456".to_owned())
        .apply_event(&created("https://example.com", "Example"), &m)
        .apply_event(&BookmarkEventPayload::Deleted, &m);
    let b = a.apply_event(&created("https://foobar.com", "Foobar"), &m);
    assert_eq!(b.state, State::Deleted);
    assert_eq!(b.url, "https://example.com");
    assert_eq!(b.title, "Example");
    assert_eq!(
        b.handle_command(&BookmarkCommand::Delete),
        Err(DomainError::NoSuchBookmark)
    );
    assert_eq!(
        b.handle_command(&BookmarkCommand::UpdateTitle {
            title: "t".to_owned()
        }),
        Err(DomainError::NoSuchBookmark)
    );
    assert_eq!(
        b.handle_command(&BookmarkCommand::BookmarkPage {
            url: "u".to_owned(),
            title: "t".to_owned()
        }),
        Err(DomainError::NoSuchBookmark)
    );
    // Deleted stays deleted under every event.
    let c = b
        .apply_event(&BookmarkEventPayload::Deleted, &m)
        .apply_event(
            &BookmarkEventPayload::TitleUpdated {
                title: "t".to_owned(),
            },
            &m,
        )
        .apply_event(&created("u", "t"), &m);
    assert_eq!(c.state, State::Deleted);
}

#[test]
fn test_deleted_event_ends_a_bookmark_that_never_was() {
    let m = meta("a");
    let a = BookmarkAggregate::new("a".to_owned()).apply_event(&BookmarkEventPayload::Deleted, &m);
    assert_eq!(a.state, State::Deleted);
    let b = a.apply_event(&created("u", "t"), &m);
    assert_eq!(b.state, State::Deleted);
    assert_eq!(b.url, "");
}
