//! One todo entry: a signed priority (the sort key) and a free-form
//! description with no newline in it.

use crate::num::{dec_of_int, i32_to_string, parse_i32, parsed_i32};
use crate::text::{join_from, joined, normalized_description};
use crate::ActionError;
use vstd::prelude::*;

verus! {

/// A task the codec round-trips: its priority is representable and its
/// description is in the split-and-rejoin form the decoder produces.
pub open spec fn canonical_task(t: TaskView) -> bool {
    &&& i32::MIN <= t.priority <= i32::MAX
    &&& normalized_description(t.description)
}

/// The mathematical shape of a task: its priority as an unbounded
/// integer and its description as a sequence of characters.
pub ghost struct TaskView {
    pub priority: int,
    pub description: Seq<char>,
}

/// One todo entry.
#[derive(Debug, PartialEq, Clone)]
pub struct Task {
    /// Sort key, ascending: smaller numbers come first.
    pub priority: i32,
    /// Free-form text; whitespace inside is kept, newlines are not
    /// representable in the one-line-per-task file format.
    pub description: String,
}

impl View for Task {
    type V = TaskView;

    open spec fn view(&self) -> TaskView {
        TaskView { priority: self.priority as int, description: self.description@ }
    }
}

impl DeepView for Task {
    type V = TaskView;

    open spec fn deep_view(&self) -> TaskView {
        self@
    }
}

impl Task {
    /// Builds a task from an action's parameters: the token after the
    /// action word is the priority, everything after it is rejoined
    /// with single spaces into the description.
    pub fn build(components: Vec<String>) -> (r: Result<Task, ActionError>)
        ensures
            match r {
                Ok(t) => {
                    &&& components.deep_view().len() >= 3
                    &&& parsed_i32(components.deep_view()[1]) == Some(t.priority)
                    &&& t@.description == joined(
                        components.deep_view().subrange(2, components.deep_view().len() as int),
                    )
                },
                Err(e) => {
                    &&& e == ActionError::InvalidArguments
                    &&& (components.deep_view().len() < 3 || parsed_i32(components.deep_view()[1])
                        is None)
                },
            },
    {
        if components.len() < 3 {
            return Err(ActionError::InvalidArguments);
        }
        let priority = match parse_i32(components[1].as_str()) {
            Some(p) => p,
            None => {
                return Err(ActionError::InvalidArguments);
            },
        };
        let description = join_from(&components, 2);
        Ok(Task { priority, description })
    }

    /// The task's fields as display strings: the priority's decimal
    /// numeral, then the description.
    pub fn to_string_vector(&self) -> (r: Vec<String>)
        ensures
            r.deep_view() =~= seq![dec_of_int(self@.priority), self@.description],
    {
        let r = vec![i32_to_string(self.priority), self.description.clone()];
        proof {
            assert(r.deep_view() =~= seq![dec_of_int(self@.priority), self@.description]);
        }
        r
    }
}

} // verus!
