//! Carrying out an action on the task list. Each handler takes the task
//! file's current contents as a value — `None` when there is no file,
//! which counts as an empty list — and computes either the rows to
//! display or the new contents to write back; reading and writing the
//! file itself is the caller's business.

use crate::action::Action;
use crate::codec::{encode_tasks, encoded_tasks};
use crate::config::Config;
use crate::num::{dec_of_int, dec_of_nat, parse_usize, parsed_i32, parsed_usize, usize_to_string};
use crate::parser::{parse_task_file, parsed_lines, ParseFileError};
use crate::sort::{lemma_sort_len, sort_by_priority, sort_tasks};
use crate::task::{Task, TaskView};
use crate::text::{joined, lines_of};
use crate::ActionError;
use vstd::prelude::*;

verus! {

/// What carrying out an action comes to: rows to show, or new file
/// contents to persist.
#[derive(Debug, PartialEq)]
pub enum ActionOutcome {
    /// One row per task of the sorted list: display id, priority,
    /// description.
    Table(Vec<Vec<String>>),
    /// The full new contents of the task file.
    Write(String),
}

/// What the task file's contents decode to, a missing file reading as
/// an empty list.
pub open spec fn parsed_file(cv: Option<Seq<char>>) -> Result<Seq<TaskView>, Seq<char>> {
    match cv {
        None => Ok(Seq::empty()),
        Some(c) => parsed_lines(lines_of(c)),
    }
}

/// The view of the contents handed to a handler.
pub open spec fn content_view(content: Option<&str>) -> Option<Seq<char>> {
    match content {
        None => None,
        Some(c) => Some(c@),
    }
}

/// The display table of a task list: for each task, in order, its
/// zero-based position, its priority's numeral, and its description.
pub open spec fn table_of(ts: Seq<TaskView>) -> Seq<Seq<Seq<char>>> {
    Seq::new(
        ts.len(),
        |i: int| seq![dec_of_nat(i as nat), dec_of_int(ts[i].priority), ts[i].description],
    )
}

/// The error carries the first line of the file that does not decode.
pub open spec fn malformed_post(cv: Option<Seq<char>>, e: ActionError) -> bool {
    &&& parsed_file(cv) is Err
    &&& e matches ActionError::MalformedLine(m) && m@ == parsed_file(cv)->Err_0
}

/// A listing shows the table of the sorted task list.
pub open spec fn list_rows_post(cv: Option<Seq<char>>, rows: Seq<Seq<Seq<char>>>) -> bool {
    &&& parsed_file(cv) is Ok
    &&& rows == table_of(sort_by_priority(parsed_file(cv)->Ok_0))
}

/// An addition writes back the old list with the new task appended,
/// sorted; the new task's priority is the parameter after the action
/// word, its description the remaining parameters joined by spaces.
pub open spec fn add_ok_post(cv: Option<Seq<char>>, params: Seq<Seq<char>>, out: Seq<char>) -> bool {
    &&& parsed_file(cv) is Ok
    &&& params.len() >= 3
    &&& parsed_i32(params[1]) matches Some(p) && out == encoded_tasks(
        sort_by_priority(
            parsed_file(cv)->Ok_0.push(
                TaskView {
                    priority: p as int,
                    description: joined(params.subrange(2, params.len() as int)),
                },
            ),
        ),
    )
}

/// When an addition's parameters are refused: the description or the
/// priority is missing, or the priority does not parse.
pub open spec fn add_invalid_args(cv: Option<Seq<char>>, params: Seq<Seq<char>>) -> bool {
    &&& parsed_file(cv) is Ok
    &&& (params.len() < 3 || parsed_i32(params[1]) is None)
}

/// A removal writes back the sorted list with the row at the given
/// display id taken out.
pub open spec fn remove_ok_post(
    cv: Option<Seq<char>>,
    params: Seq<Seq<char>>,
    out: Seq<char>,
) -> bool {
    &&& params.len() == 2
    &&& parsed_file(cv) is Ok
    &&& parsed_usize(params[1]) matches Some(id) && id < parsed_file(cv)->Ok_0.len() && out
        == encoded_tasks(sort_by_priority(parsed_file(cv)->Ok_0).remove(id as int))
}

/// When a removal's parameters are refused: not exactly one id after
/// the action word, or an id that does not parse as a position.
pub open spec fn remove_invalid_args(cv: Option<Seq<char>>, params: Seq<Seq<char>>) -> bool {
    params.len() != 2 || (parsed_file(cv) is Ok && parsed_usize(params[1]) is None)
}

/// When a removal's id lies beyond the list.
pub open spec fn remove_oob(cv: Option<Seq<char>>, params: Seq<Seq<char>>) -> bool {
    &&& params.len() == 2
    &&& parsed_file(cv) is Ok
    &&& parsed_usize(params[1]) matches Some(id) && id >= parsed_file(cv)->Ok_0.len()
}

/// Listing is idempotent: two listings of the same file contents, with
/// nothing added or removed in between, show the very same rows —
/// the rows are a function of the contents alone.
pub proof fn lemma_list_idempotent(
    cv: Option<Seq<char>>,
    first: Seq<Seq<Seq<char>>>,
    second: Seq<Seq<Seq<char>>>,
)
    requires
        list_rows_post(cv, first),
        list_rows_post(cv, second),
    ensures
        first == second,
{
}

/// Reads the task file's contents into tasks, a missing file counting
/// as no tasks; a malformed line is reported with the line itself.
fn load_tasks(content: Option<&str>) -> (r: Result<Vec<Task>, ActionError>)
    ensures
        match r {
            Ok(ts) => parsed_file(content_view(content)) == Ok::<Seq<TaskView>, Seq<char>>(
                ts.deep_view(),
            ),
            Err(e) => malformed_post(content_view(content), e),
        },
{
    match content {
        None => {
            let ts: Vec<Task> = Vec::new();
            proof {
                assert(ts.deep_view() =~= Seq::<TaskView>::empty());
            }
            Ok(ts)
        },
        Some(c) => match parse_task_file(c) {
            Ok(ts) => Ok(ts),
            Err(ParseFileError::InvalidLine(l)) => Err(ActionError::MalformedLine(l)),
            Err(ParseFileError::InvalidRead(m)) => Err(ActionError::MalformedLine(m)),
        },
    }
}

/// Builds the display table: each task of the given (already sorted)
/// list becomes a row of its position, priority and description.
pub fn create_table_data(tasks: Vec<Task>) -> (r: Vec<Vec<String>>)
    ensures
        r.deep_view() == table_of(tasks.deep_view()),
{
    let ghost dv = tasks.deep_view();
    let mut rows: Vec<Vec<String>> = Vec::new();
    let mut i: usize = 0;
    while i < tasks.len()
        invariant
            0 <= i <= tasks@.len(),
            dv == tasks.deep_view(),
            rows.deep_view().len() == i,
            forall|k: int| 0 <= k < i ==> #[trigger] rows.deep_view()[k] == table_of(dv)[k],
        decreases tasks@.len() - i,
    {
        let mut row: Vec<String> = vec![usize_to_string(i)];
        let mut fields = tasks[i].to_string_vector();
        row.append(&mut fields);
        proof {
            assert(tasks@[i as int]@ == dv[i as int]);
            assert(row.deep_view() =~= table_of(dv)[i as int]);
        }
        let ghost rdv = rows.deep_view();
        rows.push(row);
        proof {
            assert(rows.deep_view() =~= rdv.push(row.deep_view()));
        }
        i = i + 1;
    }
    proof {
        assert(rows.deep_view() =~= table_of(dv));
    }
    rows
}

/// Lists the tasks: decodes the file, sorts ascending by priority, and
/// renders the table rows. Never changes anything.
pub fn handle_list(file_content: Option<&str>) -> (r: Result<Vec<Vec<String>>, ActionError>)
    ensures
        match r {
            Ok(rows) => list_rows_post(content_view(file_content), rows.deep_view()),
            Err(e) => malformed_post(content_view(file_content), e),
        },
{
    let tasks = match load_tasks(file_content) {
        Ok(ts) => ts,
        Err(e) => {
            return Err(e);
        },
    };
    let sorted = sort_tasks(tasks);
    Ok(create_table_data(sorted))
}

/// Adds a task: decodes the file (a missing one as empty), builds the
/// task from the parameters, appends it, sorts — the newcomer lands
/// after tasks of equal priority — and re-encodes the whole list.
pub fn handle_add(file_content: Option<&str>, action_parameters: Vec<String>) -> (r: Result<
    String,
    ActionError,
>)
    ensures
        match r {
            Ok(out) => add_ok_post(
                content_view(file_content),
                action_parameters.deep_view(),
                out@,
            ),
            Err(e) => match e {
                ActionError::MalformedLine(_) => malformed_post(content_view(file_content), e),
                ActionError::InvalidArguments => add_invalid_args(
                    content_view(file_content),
                    action_parameters.deep_view(),
                ),
                ActionError::IndexOutOfRange => false,
            },
        },
{
    let mut tasks = match load_tasks(file_content) {
        Ok(ts) => ts,
        Err(e) => {
            return Err(e);
        },
    };
    let task_to_add = match Task::build(action_parameters) {
        Ok(t) => t,
        Err(e) => {
            return Err(e);
        },
    };
    let ghost old_dv = tasks.deep_view();
    tasks.push(task_to_add);
    proof {
        assert(tasks.deep_view() =~= old_dv.push(task_to_add@));
    }
    let sorted = sort_tasks(tasks);
    Ok(encode_tasks(&sorted))
}

/// Removes the task at a display id: decodes the file, re-creates the
/// sorted order the id was read from, drops that row, and re-encodes
/// what remains.
pub fn handle_remove(file_content: Option<&str>, action_parameters: Vec<String>) -> (r: Result<
    String,
    ActionError,
>)
    ensures
        match r {
            Ok(out) => remove_ok_post(
                content_view(file_content),
                action_parameters.deep_view(),
                out@,
            ),
            Err(e) => match e {
                ActionError::MalformedLine(_) => action_parameters.deep_view().len() == 2
                    && malformed_post(content_view(file_content), e),
                ActionError::InvalidArguments => remove_invalid_args(
                    content_view(file_content),
                    action_parameters.deep_view(),
                ),
                ActionError::IndexOutOfRange => remove_oob(
                    content_view(file_content),
                    action_parameters.deep_view(),
                ),
            },
        },
{
    if action_parameters.len() != 2 {
        return Err(ActionError::InvalidArguments);
    }
    let tasks = match load_tasks(file_content) {
        Ok(ts) => ts,
        Err(e) => {
            return Err(e);
        },
    };
    let id = match parse_usize(action_parameters[1].as_str()) {
        Some(id) => id,
        None => {
            proof {
                assert(action_parameters.deep_view()[1] == action_parameters@[1]@);
            }
            return Err(ActionError::InvalidArguments);
        },
    };
    proof {
        assert(action_parameters.deep_view()[1] == action_parameters@[1]@);
    }
    let mut sorted = sort_tasks(tasks);
    proof {
        lemma_sort_len(parsed_file(content_view(file_content))->Ok_0);
    }
    if id >= sorted.len() {
        return Err(ActionError::IndexOutOfRange);
    }
    let ghost sorted_dv = sorted.deep_view();
    sorted.remove(id);
    proof {
        assert(sorted.deep_view() =~= sorted_dv.remove(id as int));
    }
    Ok(encode_tasks(&sorted))
}

/// Carries out the configured action on the given file contents. The
/// reserved `Complete` action is not yet specified and is excluded.
pub fn handle_action(config: Config, file_content: Option<&str>) -> (r: Result<
    ActionOutcome,
    ActionError,
>)
    requires
        config.action != Action::Complete,
    ensures
        ({
            let cv = content_view(file_content);
            let params = config.action_parameters.deep_view();
            match r {
                Ok(o) => match o {
                    ActionOutcome::Table(rows) => config.action == Action::List && list_rows_post(
                        cv,
                        rows.deep_view(),
                    ),
                    ActionOutcome::Write(out) => (config.action == Action::Add && add_ok_post(
                        cv,
                        params,
                        out@,
                    )) || (config.action == Action::Remove && remove_ok_post(cv, params, out@)),
                },
                Err(e) => match e {
                    ActionError::MalformedLine(_) => malformed_post(cv, e),
                    ActionError::InvalidArguments => (config.action == Action::Add
                        && add_invalid_args(cv, params)) || (config.action == Action::Remove
                        && remove_invalid_args(cv, params)),
                    ActionError::IndexOutOfRange => config.action == Action::Remove && remove_oob(
                        cv,
                        params,
                    ),
                },
            }
        }),
{
    match config.action {
        Action::List => match handle_list(file_content) {
            Ok(rows) => Ok(ActionOutcome::Table(rows)),
            Err(e) => Err(e),
        },
        Action::Add => match handle_add(file_content, config.action_parameters) {
            Ok(out) => Ok(ActionOutcome::Write(out)),
            Err(e) => Err(e),
        },
        Action::Remove => match handle_remove(file_content, config.action_parameters) {
            Ok(out) => Ok(ActionOutcome::Write(out)),
            Err(e) => Err(e),
        },
        Action::Complete => Err(ActionError::InvalidArguments),
    }
}

} // verus!
