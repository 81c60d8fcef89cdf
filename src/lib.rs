//! A personal store of named shell snippets: the entry store, identifier
//! allocation, the name filter, the store file format and the decisions of
//! the interactive and numbered-choice front ends.

pub mod codec;
pub mod dispatch;
pub mod entry;
pub mod ident;
pub mod search;
pub mod text;
pub mod config;
