//! Ingestion and normalisation of exported chat conversations: repair of the
//! export's byte-level escapes, validation of the export directory, merging
//! of per-file conversations, grouping by sender, and the time windows used
//! to smooth a per-participant score series.

pub mod escape;
pub mod conversation;
pub mod directory;
pub mod error;
pub mod series;
