//! A small store of named URL bookmarks: adding, finding, removing and
//! listing them, and deciding what one command-line invocation does.

pub mod bookmark;
pub mod listing;
pub mod command;
