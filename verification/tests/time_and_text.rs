use decentrasync::adapters::clock::{instant_since_epoch, FakeClock, SystemClock};
use decentrasync::domain::data::{DomainEvent, DomainEventMeta};
use decentrasync::domain::events::{BookmarkEventPayload, DomainEventPayload};
use decentrasync::domain::time::{Duration, Timestamp};
use decentrasync::order::{sort_stable, Keyed};
use decentrasync::ports::{Clock, EventStoreError, ReadModelError};
use decentrasync::text::{text_eq, text_lt};

#[test]
fn test_fake_clock_starts_at_the_epoch_and_moves_when_told() {
    let mut clock = FakeClock::new();
    assert_eq!(clock.now(), Timestamp::epoch());
    assert_eq!(clock.now().as_nanos(), 0);
    clock.advance(Duration::from_secs(10));
    assert_eq!(clock.now(), Timestamp::from_parts(10, 0));
    assert_eq!(clock.now(), clock.now());
    clock.advance(Duration::from_millis(2));
    clock.advance(Duration::from_nanos(3));
    assert_eq!(clock.now().as_nanos(), 10_002_000_003);
}

#[test]
fn test_system_clock_shows_a_time_after_the_epoch() {
    let clock = SystemClock::new();
    let first = clock.now();
    let second = clock.now();
    // Any time at which this can run lies after the year 2001.
    assert!(first.as_nanos() > 1_000_000_000_000_000_000);
    assert!(second.as_nanos() > 1_000_000_000_000_000_000);
}

#[test]
fn test_timestamp_parts() {
    let t = Timestamp::from_parts(10, 5);
    assert_eq!(t.as_nanos(), 10_000_000_005);
    assert_eq!(t.as_millis(), 10_000);
    assert_eq!(t.secs_since_epoch(), 10);
    assert_eq!(t.subsec_nanos(), 5);
    assert_eq!(Timestamp::from_nanos(1_999_999_999).as_millis(), 1_999);
    assert_eq!(Timestamp::from_nanos(1_999_999_999).secs_since_epoch(), 1);
    assert_eq!(
        Timestamp::from_nanos(1_999_999_999).subsec_nanos(),
        999_999_999
    );
    assert_eq!(
        Timestamp::from_parts(u64::MAX, u32::MAX).as_nanos(),
        18_446_744_073_709_551_615_000_000_000 + 4_294_967_295
    );
    assert_eq!(Timestamp::epoch(), Timestamp::from_parts(0, 0));
}

#[test]
fn test_timestamp_order() {
    let early = Timestamp::from_parts(5, 0);
    let late = Timestamp::from_parts(10, 0);
    assert!(early.is_before(&late));
    assert!(!late.is_before(&early));
    assert!(!early.is_before(&early));
}

#[test]
fn test_durations() {
    assert_eq!(Duration::from_secs(10).as_nanos(), 10_000_000_000);
    assert_eq!(Duration::from_millis(10).as_nanos(), 10_000_000);
    assert_eq!(Duration::from_nanos(10).as_nanos(), 10);
    assert_eq!(Duration::from_secs(1), Duration::from_millis(1000));
    assert_eq!(
        Duration::from_secs(u64::MAX).as_nanos(),
        18_446_744_073_709_551_615_000_000_000
    );
}

#[test]
fn test_texts_are_ordered_as_their_bytes() {
    assert!(text_lt("123", "456"));
    assert!(!text_lt("456", "123"));
    assert!(!text_lt("123", "123"));
    assert!(text_lt("", "a"));
    assert!(!text_lt("", ""));
    assert!(text_lt("ab", "abc"));
    assert!(!text_lt("abc", "ab"));
    assert!(text_lt("10", "9"));
    assert!(text_lt("Z", "a"));
    assert!(text_lt("z", "é"));
    assert!(text_lt("é", "日本"));
    for (a, b) in [("a", "b"), ("", "x"), ("é", "e"), ("ab", "a"), ("q", "q")] {
        assert_eq!(text_lt(a, b), a < b);
        assert_eq!(text_lt(b, a), b < a);
        assert_eq!(text_eq(a, b), a == b);
    }
}

#[test]
fn test_text_equality() {
    assert!(text_eq("", ""));
    assert!(text_eq("abc", "abc"));
    assert!(text_eq("é", "é"));
    assert!(!text_eq("abc", "abd"));
    assert!(!text_eq("abc", "ab"));
    assert!(!text_eq("ab", "abc"));
    assert!(!text_eq("e", "é"));
}

fn event(title: &str, nanos: u128) -> DomainEvent {
    DomainEvent {
        meta: DomainEventMeta {
            aggregate_id: "a".to_owned(),
            created_at: Timestamp::from_nanos(nanos),
        },
        payload: DomainEventPayload::Bookmark(BookmarkEventPayload::TitleUpdated {
            title: title.to_owned(),
        }),
    }
}

#[test]
fn test_events_are_sorted_by_their_instant() {
    assert!(event("x", 1).key_lt(&event("y", 2)));
    assert!(!event("x", 2).key_lt(&event("y", 2)));
    assert!(!event("x", 3).key_lt(&event("y", 2)));
    let mut events = vec![event("c", 3), event("a", 1), event("b", 1), event("d", 0)];
    sort_stable(&mut events);
    assert_eq!(
        events,
        vec![event("d", 0), event("a", 1), event("b", 1), event("c", 3)]
    );
}

#[test]
fn test_port_error_messages() {
    assert_eq!(
        EventStoreError::Generic.message(),
        "Generic event store error"
    );
    assert_eq!(ReadModelError::Generic.message(), "Generic read model error");
}

#[test]
fn test_instant_since_epoch() {
    assert_eq!(instant_since_epoch(None), Timestamp::epoch());
    assert_eq!(instant_since_epoch(Some(0)), Timestamp::epoch());
    assert_eq!(
        instant_since_epoch(Some(10_000_000_005)),
        Timestamp::from_parts(10, 5)
    );
    assert_eq!(
        instant_since_epoch(Some(u128::MAX)),
        Timestamp::from_nanos(u128::MAX)
    );
}
