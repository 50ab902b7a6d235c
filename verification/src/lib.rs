//! A small document store: JSON documents are stamped with a random `_id`,
//! appended to an in-memory log, and persisted as newline-framed records.
//! The file, thread and encoding plumbing lives outside this library; what
//! stands here is the logic that decides what is stored, written and read back.

pub mod keys;
pub mod json;
pub mod limits;
pub mod outside;
pub mod entry;
pub mod index;
pub mod records;
pub mod persist;
pub mod database;
