//! The actions a user can ask for, and how an action word is read.

use crate::text::str_eq;
use vstd::prelude::*;

verus! {

/// The recognized actions. `Complete` is reserved: it is recognized but
/// not carried out yet.
#[derive(Debug, PartialEq, Eq, Structural, Clone, Copy)]
pub enum Action {
    List,
    Add,
    Remove,
    Complete,
}

/// Which action a word names: each action has a full word and a
/// one-letter alias, matched case-sensitively.
pub open spec fn action_of(s: Seq<char>) -> Option<Action> {
    if s == "add"@ || s == "a"@ {
        Some(Action::Add)
    } else if s == "remove"@ || s == "r"@ {
        Some(Action::Remove)
    } else if s == "complete"@ || s == "c"@ {
        Some(Action::Complete)
    } else if s == "list"@ || s == "l"@ {
        Some(Action::List)
    } else {
        None
    }
}

impl Action {
    /// Reads an action word; any other word is refused.
    pub fn from_str(s: &str) -> (r: Result<Action, &'static str>)
        ensures
            match r {
                Ok(a) => action_of(s@) == Some(a),
                Err(m) => action_of(s@) is None && m@ == "Unknown action."@,
            },
    {
        proof {
            reveal_strlit("add");
            reveal_strlit("a");
            reveal_strlit("remove");
            reveal_strlit("r");
            reveal_strlit("complete");
            reveal_strlit("c");
            reveal_strlit("list");
            reveal_strlit("l");
        }
        if str_eq(s, "add") || str_eq(s, "a") {
            Ok(Action::Add)
        } else if str_eq(s, "remove") || str_eq(s, "r") {
            Ok(Action::Remove)
        } else if str_eq(s, "complete") || str_eq(s, "c") {
            Ok(Action::Complete)
        } else if str_eq(s, "list") || str_eq(s, "l") {
            Ok(Action::List)
        } else {
            Err("Unknown action.")
        }
    }
}

} // verus!
