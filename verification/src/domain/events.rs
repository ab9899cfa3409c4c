//! The facts that the event log records.

use vstd::prelude::*;

verus! {

/// What happened to a bookmark, as a mathematical value.
pub enum BookmarkPayloadModel {
    Created { url: Seq<char>, title: Seq<char> },
    Deleted,
    TitleUpdated { title: Seq<char> },
}

/// What an event carries, as a mathematical value.
pub enum PayloadModel {
    Bookmark(BookmarkPayloadModel),
}

/// What happened to a bookmark.
#[derive(Debug, PartialEq, Eq)]
pub enum BookmarkEventPayload {
    Created { url: String, title: String },
    Deleted,
    TitleUpdated { title: String },
}

impl View for BookmarkEventPayload {
    type V = BookmarkPayloadModel;

    open spec fn view(&self) -> BookmarkPayloadModel {
        match *self {
            BookmarkEventPayload::Created { url, title } => BookmarkPayloadModel::Created {
                url: url@,
                title: title@,
            },
            BookmarkEventPayload::Deleted => BookmarkPayloadModel::Deleted,
            BookmarkEventPayload::TitleUpdated { title } => BookmarkPayloadModel::TitleUpdated {
                title: title@,
            },
        }
    }
}

impl Clone for BookmarkEventPayload {
    fn clone(&self) -> (copy: Self)
        ensures
            copy@ == self@,
    {
        match self {
            BookmarkEventPayload::Created { url, title } => BookmarkEventPayload::Created {
                url: url.clone(),
                title: title.clone(),
            },
            BookmarkEventPayload::Deleted => BookmarkEventPayload::Deleted,
            BookmarkEventPayload::TitleUpdated { title } => BookmarkEventPayload::TitleUpdated {
                title: title.clone(),
            },
        }
    }
}

/// What an event carries, by the kind of aggregate it belongs to.
#[derive(Debug, PartialEq, Eq)]
pub enum DomainEventPayload {
    Bookmark(BookmarkEventPayload),
}

impl View for DomainEventPayload {
    type V = PayloadModel;

    open spec fn view(&self) -> PayloadModel {
        match *self {
            DomainEventPayload::Bookmark(payload) => PayloadModel::Bookmark(payload@),
        }
    }
}

impl Clone for DomainEventPayload {
    fn clone(&self) -> (copy: Self)
        ensures
            copy@ == self@,
    {
        match self {
            DomainEventPayload::Bookmark(payload) => DomainEventPayload::Bookmark(payload.clone()),
        }
    }
}

} // verus!
