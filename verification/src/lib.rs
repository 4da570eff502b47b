//! An in-memory index of browser tabs: collection of tab records joined with
//! their group titles, and fuzzy search over the titles of a snapshot.

pub mod collect;
pub mod field;
pub mod record;
pub mod search;
