//! What a caller can ask of a bookmark.

use vstd::prelude::*;

verus! {

/// A command, as a mathematical value.
pub enum CommandModel {
    BookmarkPage { url: Seq<char>, title: Seq<char> },
    UpdateTitle { title: Seq<char> },
    Delete,
}

/// An intent to change a bookmark. It becomes an event only once the aggregate
/// has accepted it.
#[derive(Debug)]
pub enum BookmarkCommand {
    BookmarkPage { url: String, title: String },
    UpdateTitle { title: String },
    Delete,
}

impl View for BookmarkCommand {
    type V = CommandModel;

    open spec fn view(&self) -> CommandModel {
        match *self {
            BookmarkCommand::BookmarkPage { url, title } => CommandModel::BookmarkPage {
                url: url@,
                title: title@,
            },
            BookmarkCommand::UpdateTitle { title } => CommandModel::UpdateTitle { title: title@ },
            BookmarkCommand::Delete => CommandModel::Delete,
        }
    }
}

} // verus!
