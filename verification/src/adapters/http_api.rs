//! What the HTTP interface decides: the identity of a new bookmark, and the
//! status that answers each request. Reading requests and writing responses is
//! left to the server around this library.

use vstd::prelude::*;
use crate::app;
use crate::app::command_handled;
use crate::domain::commands::CommandModel;
use crate::domain::data::{bookmarks_model, BookmarkData};
use crate::domain::errors::DomainError;
use crate::ports::{Clock, EventStore, ReadModel};
use crate::projection::is_listing;

verus! {

/// The request was carried out.
pub const STATUS_OK: u16 = 200;

/// The request was carried out and a bookmark was made.
pub const STATUS_CREATED: u16 = 201;

/// The request was carried out and there is nothing to say.
pub const STATUS_NO_CONTENT: u16 = 204;

/// The request asks for what cannot be done.
pub const STATUS_BAD_REQUEST: u16 = 400;

/// There is no such bookmark.
pub const STATUS_NOT_FOUND: u16 = 404;

/// The server failed.
pub const STATUS_INTERNAL_SERVER_ERROR: u16 = 500;

/// `uuid::Uuid`: an identifier of 128 bits. Nothing is seen of what it holds.
#[verifier::external_type_specification]
#[verifier::external_body]
pub struct ExUuid(uuid::Uuid);

/// `uuid::Uuid::new_v4`: an identifier drawn at random. Nothing is claimed of
/// which one it is.
pub assume_specification[ uuid::Uuid::new_v4 ]() -> (id: uuid::Uuid)
;

/// The text is written as identifiers of 128 bits are: 32 lower-case
/// hexadecimal digits in groups of 8, 4, 4, 4 and 12, with a hyphen between
/// the groups.
pub open spec fn is_identifier_text(text: Seq<char>) -> bool {
    &&& text.len() == 36
    &&& forall|i: int|
        0 <= i < 36 ==> if i == 8 || i == 13 || i == 18 || i == 23 {
            text[i] == '-'
        } else {
            '0' <= #[trigger] text[i] <= '9' || 'a' <= text[i] <= 'f'
        }
}

/// `Display` of `uuid::Uuid`, through `to_string`: the identifier in
/// lower-case hexadecimal digits, hyphenated. Which digits is not claimed.
#[verifier::external_body]
fn identifier_text(id: &uuid::Uuid) -> (text: String)
    ensures
        is_identifier_text(text@),
{
    id.to_string()
}

/// The status that answers a command: `success` where it was carried out,
/// 404 where the bookmark does not exist, 400 where it exists already, and
/// 500 where a port failed.
pub open spec fn command_status(outcome: Result<(), DomainError>, success: u16) -> u16 {
    match outcome {
        Ok(_) => success,
        Err(DomainError::NoSuchBookmark) => STATUS_NOT_FOUND,
        Err(DomainError::BookmarkAlreadyExists) => STATUS_BAD_REQUEST,
        Err(DomainError::PortError) => STATUS_INTERNAL_SERVER_ERROR,
    }
}

/// The status that answers a command of the given outcome.
pub fn status_of_command(outcome: &Result<(), DomainError>, success: u16) -> (status: u16)
    ensures
        status == command_status(*outcome, success),
{
    match outcome {
        Ok(_) => success,
        Err(DomainError::NoSuchBookmark) => STATUS_NOT_FOUND,
        Err(DomainError::BookmarkAlreadyExists) => STATUS_BAD_REQUEST,
        Err(DomainError::PortError) => STATUS_INTERNAL_SERVER_ERROR,
    }
}

/// Creates a bookmark under a new identity, drawn at random. The answer is
/// 201 with the identity where the bookmark was created, and the status of
/// the failure without an identity where it was not.
pub fn create_bookmark<E: EventStore, R: ReadModel, C: Clock>(
    url: &str,
    title: &str,
    event_store: &mut E,
    read_model: &mut R,
    clock: &C,
) -> (reply: (u16, Option<String>))
    requires
        old(read_model).inv(),
    ensures
        final(read_model).inv(),
        final(read_model).reliable() == old(read_model).reliable(),
        final(event_store).reliable() == old(event_store).reliable(),
        exists|id: Seq<char>, outcome: Result<(), DomainError>|
            {
                &&& is_identifier_text(id)
                &&& #[trigger] command_handled(
                    old(event_store).log(),
                    old(read_model).records(),
                    old(event_store).reliable(),
                    old(read_model).reliable(),
                    clock.reading(),
                    id,
                    CommandModel::BookmarkPage { url: url@, title: title@ },
                    outcome,
                    final(event_store).log(),
                    final(read_model).records(),
                )
                &&& reply.0 == command_status(outcome, STATUS_CREATED)
                &&& match reply.1 {
                    Some(text) => outcome is Ok && text@ == id,
                    None => outcome is Err,
                }
            },
{
    let id = identifier_text(&uuid::Uuid::new_v4());
    let outcome = app::create_bookmark(id.as_str(), url, title, event_store, read_model, clock);
    let status = status_of_command(&outcome, STATUS_CREATED);
    match outcome {
        Ok(_) => (status, Some(id)),
        Err(_) => (status, None),
    }
}

/// Gives a bookmark a new title. The answer is 204 where that was done.
pub fn update_bookmark_title<E: EventStore, R: ReadModel, C: Clock>(
    id: &str,
    title: &str,
    event_store: &mut E,
    read_model: &mut R,
    clock: &C,
) -> (status: u16)
    requires
        old(read_model).inv(),
    ensures
        final(read_model).inv(),
        final(read_model).reliable() == old(read_model).reliable(),
        final(event_store).reliable() == old(event_store).reliable(),
        exists|outcome: Result<(), DomainError>|
            {
                &&& #[trigger] command_handled(
                    old(event_store).log(),
                    old(read_model).records(),
                    old(event_store).reliable(),
                    old(read_model).reliable(),
                    clock.reading(),
                    id@,
                    CommandModel::UpdateTitle { title: title@ },
                    outcome,
                    final(event_store).log(),
                    final(read_model).records(),
                )
                &&& status == command_status(outcome, STATUS_NO_CONTENT)
            },
{
    let outcome = app::update_bookmark_title(id, title, event_store, read_model, clock);
    status_of_command(&outcome, STATUS_NO_CONTENT)
}

/// Deletes a bookmark. The answer is 200 where that was done.
pub fn delete_bookmark<E: EventStore, R: ReadModel, C: Clock>(
    id: &str,
    event_store: &mut E,
    read_model: &mut R,
    clock: &C,
) -> (status: u16)
    requires
        old(read_model).inv(),
    ensures
        final(read_model).inv(),
        final(read_model).reliable() == old(read_model).reliable(),
        final(event_store).reliable() == old(event_store).reliable(),
        exists|outcome: Result<(), DomainError>|
            {
                &&& #[trigger] command_handled(
                    old(event_store).log(),
                    old(read_model).records(),
                    old(event_store).reliable(),
                    old(read_model).reliable(),
                    clock.reading(),
                    id@,
                    CommandModel::Delete,
                    outcome,
                    final(event_store).log(),
                    final(read_model).records(),
                )
                &&& status == command_status(outcome, STATUS_OK)
            },
{
    let outcome = app::delete_bookmark(id, event_store, read_model, clock);
    status_of_command(&outcome, STATUS_OK)
}

/// Reads one bookmark. The answer is 200 with the record where the bookmark
/// is live, and 404 without one where it is not.
pub fn read_bookmark<R: ReadModel>(id: &str, read_model: &R) -> (reply: (u16, Option<BookmarkData>))
    requires
        read_model.inv(),
    ensures
        match reply.1 {
            Some(bookmark) => reply.0 == STATUS_OK && read_model.records().contains_key(id@)
                && bookmark@ == read_model.records()[id@],
            None => reply.0 == STATUS_NOT_FOUND && !read_model.records().contains_key(id@),
        },
{
    match app::read_bookmark(id, read_model) {
        Some(bookmark) => (STATUS_OK, Some(bookmark)),
        None => (STATUS_NOT_FOUND, None),
    }
}

/// Reads all bookmarks. The answer is 200 with the records in the ascending
/// order of their identities, and 500 without any where the read model failed.
pub fn read_bookmarks<R: ReadModel>(read_model: &R) -> (reply: (u16, Option<Vec<BookmarkData>>))
    requires
        read_model.inv(),
    ensures
        match reply.1 {
            Some(list) => reply.0 == STATUS_OK && is_listing(
                bookmarks_model(list@),
                read_model.records(),
            ),
            None => reply.0 == STATUS_INTERNAL_SERVER_ERROR && !read_model.reliable(),
        },
{
    match app::read_bookmarks(read_model) {
        Some(list) => (STATUS_OK, Some(list)),
        None => (STATUS_INTERNAL_SERVER_ERROR, None),
    }
}

} // verus!
