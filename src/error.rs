//! The ways in which reading a conversation export fails.
use vstd::prelude::*;

verus! {

/// Why an export could not be read.
#[derive(Debug)]
pub enum ConversationError {
    /// The given path is not a directory.
    NotADirectory,
    /// The directory holds no file named `message_<digits>.json`.
    NoConversationFiles,
    /// A file could not be opened or read; the text names it.
    IoFailure(String),
    /// The repaired bytes of a file are not valid UTF-8.
    InvalidEncoding,
    /// A file's text does not follow the conversation schema.
    MalformedConversation(String),
}

} // verus!
