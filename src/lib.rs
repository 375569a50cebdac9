//! Verified core of a set of tools that mirror parts of a hosted repository
//! (trees, files, folders, release assets) onto local storage.

pub mod download;
pub mod error;
pub mod namespace;
pub mod release;
pub mod repo;
pub mod scheduler;
pub mod search;
pub mod text;
pub mod walker;
