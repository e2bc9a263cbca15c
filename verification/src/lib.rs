//! A small todo-list library: tasks with an integer priority and a text
//! description are kept one per line in a flat text file. The library
//! parses such a file, sorts tasks by priority (stably), renders table
//! rows for display, and re-encodes the list for writing back.

pub mod action;
pub mod action_handler;
pub mod codec;
pub mod config;
pub mod num;
pub mod parser;
pub mod sort;
pub mod task;
pub mod text;

use vstd::prelude::*;

verus! {

/// What can go wrong while carrying out an action on the task list.
#[derive(Debug, PartialEq)]
pub enum ActionError {
    /// An action parameter is missing or does not parse.
    InvalidArguments,
    /// A line of the task file does not have the shape
    /// `<priority> <description>`; the offending line is carried.
    MalformedLine(String),
    /// The display id handed to a removal is not a valid position.
    IndexOutOfRange,
}

} // verus!
