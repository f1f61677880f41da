//! A persistent todo list: a mapping from item labels to completion flags,
//! kept in a line-oriented text file.
//!
//! - `list`: the in-memory list and the laws of its operations;
//! - `codec`: the `label:flag` text format, with the round-trip law;
//! - `command`: what each command does, and the seed of a new store;
//! - `render`: the numbered listing shown to the user.

pub mod codec;
pub mod command;
pub mod list;
pub mod render;
