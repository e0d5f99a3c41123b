//! A small task tracker whose tasks live one per line in a flat text file.
//!
//! `text` holds the character-level helpers, `task` the record and its line
//! codec, `validate` the rules a record must meet, `storage` the operations on
//! the whole file's contents, `update` the changes to one stored task, and
//! `laws` the properties that tie them together.

pub mod text;
pub mod task;
pub mod validate;
pub mod storage;
pub mod update;
pub mod laws;
