//! A small todo-list library: an in-memory store of tasks with unique ids,
//! rendering of the store as text, command parsing for a one-shot CLI, and a
//! verified text codec for the JSON file that persists the store.

pub mod cli;
pub mod codec;
pub mod numeral;
pub mod store;
pub mod task;
pub mod text;
