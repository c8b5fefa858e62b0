//! The logic of a password-store front end: flattening the tree that the
//! store's listing command draws into slash-separated leaf paths (with its
//! colour and cursor sequences removed first), narrowing those paths by a
//! filter and moving the highlight through them, and reading the environment
//! that a login shell reports.

pub mod escapes;
pub mod lines;
pub mod listing;
pub mod listing_laws;
pub mod search;
pub mod selection;
pub mod sequences;
pub mod shell_env;
