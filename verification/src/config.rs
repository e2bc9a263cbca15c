//! Reading the process's argument list into a configuration: which
//! action to run, its parameters, and the directory of the task file.

use crate::action::{action_of, Action};
use vstd::prelude::*;

verus! {

/// A parsed invocation: the action, the argument tokens from the action
/// word on, and the directory the task file lives in.
#[derive(Debug, PartialEq)]
pub struct Config {
    pub action: Action,
    pub action_parameters: Vec<String>,
    pub file_directory: String,
}

impl Config {
    /// Reads the raw argument list (program name first, as handed to
    /// the process). With no argument after the program name nothing
    /// can be done; an unrecognized action word is refused.
    pub fn build(file_directory: String, arguments: &Vec<String>) -> (r: Result<
        Config,
        &'static str,
    >)
        ensures
            match r {
                Ok(c) => {
                    &&& arguments@.len() >= 2
                    &&& action_of(arguments.deep_view()[1]) == Some(c.action)
                    &&& c.action_parameters.deep_view() == arguments.deep_view().subrange(
                        1,
                        arguments@.len() as int,
                    )
                    &&& c.file_directory@ == file_directory@
                },
                Err(m) => {
                    if arguments@.len() < 2 {
                        m@ == "No arguments. Nothing to do."@
                    } else {
                        action_of(arguments.deep_view()[1]) is None && m@ == "Unknown action."@
                    }
                },
            },
    {
        if arguments.len() < 2 {
            return Err("No arguments. Nothing to do.");
        }
        let action = match Action::from_str(arguments[1].as_str()) {
            Ok(a) => a,
            Err(m) => {
                return Err(m);
            },
        };
        let mut action_parameters: Vec<String> = Vec::new();
        let mut i: usize = 1;
        proof {
            assert(action_parameters.deep_view() =~= arguments.deep_view().subrange(1, 1));
        }
        while i < arguments.len()
            invariant
                1 <= i <= arguments@.len(),
                action_parameters.deep_view() == arguments.deep_view().subrange(1, i as int),
            decreases arguments@.len() - i,
        {
            let ghost dv = action_parameters.deep_view();
            action_parameters.push(arguments[i].clone());
            proof {
                assert(action_parameters.deep_view() =~= dv.push(arguments.deep_view()[i as int]));
                assert(arguments.deep_view().subrange(1, i + 1) =~= dv.push(
                    arguments.deep_view()[i as int],
                ));
            }
            i = i + 1;
        }
        Ok(Config { action, action_parameters, file_directory })
    }
}

} // verus!
