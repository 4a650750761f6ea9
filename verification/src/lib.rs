//! A small, verified task-tracking library.
//!
//! The library keeps an ordered list of to-do items, each carrying a 1-based
//! order number, a description, and a completion flag. It offers the
//! mutations of a simple task tracker (add, remove, mark done), a renderer
//! for the task list, a text codec for the persisted file, and the input
//! parsing of an interactive menu. All of it is specified and verified;
//! reading and writing the console and the disk stay outside the library.

pub mod task;
pub mod text;
pub mod store;
pub mod codec;
pub mod shell;
