//! Decoding the task file: one task per line, `<priority> <description>`.
//! A line is split on runs of whitespace; the first token must be a
//! signed integer, the remaining tokens (at least one) are rejoined with
//! single spaces into the description. Decoding stops at the first line
//! that does not fit.

use crate::num::{parse_i32, parsed_i32};
use crate::task::{canonical_task, Task, TaskView};
use crate::text::{
    join_from, joined, lemma_tokens_of_joined, lemma_tokens_wf, lines_of, split_lines,
    split_tokens, tokens_of, wf_token,
};
use vstd::prelude::*;

verus! {

/// Why the task file could not be read into a task list.
#[derive(Debug, PartialEq)]
pub enum ParseFileError {
    /// The file itself could not be read; carries the reader's message.
    /// Decoding file contents never produces this variant; it is
    /// reported by the caller that does the reading.
    InvalidRead(String),
    /// A line does not have the shape `<priority> <description>`;
    /// carries the offending line.
    InvalidLine(String),
}

/// What one line decodes to: `None` when it has fewer than two
/// whitespace-delimited tokens or its first token is not an integer.
pub open spec fn parsed_line(s: Seq<char>) -> Option<TaskView> {
    let toks = tokens_of(s);
    if toks.len() < 2 {
        None
    } else {
        match parsed_i32(toks[0]) {
            Some(p) => Some(
                TaskView {
                    priority: p as int,
                    description: joined(toks.subrange(1, toks.len() as int)),
                },
            ),
            None => None,
        }
    }
}

/// What a sequence of lines decodes to: the tasks in file order, or the
/// first line that does not decode.
pub open spec fn parsed_lines(ls: Seq<Seq<char>>) -> Result<Seq<TaskView>, Seq<char>>
    decreases ls.len(),
{
    if ls.len() == 0 {
        Ok(Seq::empty())
    } else {
        match parsed_line(ls[0]) {
            None => Err(ls[0]),
            Some(t) => match parsed_lines(ls.drop_first()) {
                Ok(ts) => Ok(seq![t] + ts),
                Err(l) => Err(l),
            },
        }
    }
}

/// Decoding one more line at the end: an earlier failure stands, an
/// earlier success extends by the new line's outcome.
pub proof fn lemma_parsed_lines_push(ls: Seq<Seq<char>>, l: Seq<char>)
    ensures
        parsed_lines(ls.push(l)) == match parsed_lines(ls) {
            Err(e) => Err::<Seq<TaskView>, Seq<char>>(e),
            Ok(ts) => match parsed_line(l) {
                Some(t) => Ok::<Seq<TaskView>, Seq<char>>(ts.push(t)),
                None => Err::<Seq<TaskView>, Seq<char>>(l),
            },
        },
    decreases ls.len(),
{
    if ls.len() == 0 {
        assert(ls.push(l)[0] == l);
        assert(ls.push(l).drop_first() =~= Seq::<Seq<char>>::empty());
        assert(parsed_lines(ls) == Ok::<Seq<TaskView>, Seq<char>>(Seq::empty()));
        assert(parsed_lines(Seq::<Seq<char>>::empty()) == Ok::<Seq<TaskView>, Seq<char>>(
            Seq::empty(),
        ));
        match parsed_line(l) {
            Some(t) => {
                assert(parsed_lines(ls.push(l)) == Ok::<Seq<TaskView>, Seq<char>>(
                    seq![t] + Seq::<TaskView>::empty(),
                ));
                assert(seq![t] + Seq::<TaskView>::empty() =~= Seq::<TaskView>::empty().push(t));
            },
            None => {
                assert(parsed_lines(ls.push(l)) == Err::<Seq<TaskView>, Seq<char>>(l));
            },
        }
    } else {
        lemma_parsed_lines_push(ls.drop_first(), l);
        assert(ls.push(l)[0] == ls[0]);
        assert(ls.push(l).drop_first() =~= ls.drop_first().push(l));
        if parsed_line(ls[0]) is Some && parsed_lines(ls.drop_first()) is Ok && parsed_line(l)
            is Some {
            let t = parsed_line(ls[0])->Some_0;
            let ts = parsed_lines(ls.drop_first())->Ok_0;
            let u = parsed_line(l)->Some_0;
            assert(seq![t] + ts.push(u) =~= (seq![t] + ts).push(u));
        }
    }
}

/// A failure among the first `k` lines decides the whole file.
pub proof fn lemma_parsed_lines_err(ls: Seq<Seq<char>>, k: int)
    requires
        0 <= k <= ls.len(),
        parsed_lines(ls.subrange(0, k)) is Err,
    ensures
        parsed_lines(ls) == parsed_lines(ls.subrange(0, k)),
    decreases ls.len() - k,
{
    if k == ls.len() {
        assert(ls.subrange(0, k) =~= ls);
    } else {
        lemma_parsed_lines_push(ls.subrange(0, k), ls[k]);
        assert(ls.subrange(0, k).push(ls[k]) =~= ls.subrange(0, k + 1));
        lemma_parsed_lines_err(ls, k + 1);
    }
}

/// A task decoded from a line is round-trippable: its description is
/// the single-space join of whitespace-free tokens, so encoding it
/// reproduces an equivalent line.
pub proof fn lemma_parsed_line_canonical(s: Seq<char>)
    requires
        parsed_line(s) is Some,
    ensures
        canonical_task(parsed_line(s)->Some_0),
{
    let toks = tokens_of(s);
    lemma_tokens_wf(s);
    let sub = toks.subrange(1, toks.len() as int);
    assert forall|k: int| 0 <= k < sub.len() implies wf_token(#[trigger] sub[k]) by {
        assert(sub[k] == toks[k + 1]);
    }
    lemma_tokens_of_joined(sub);
}

/// Every task of a decoded file is round-trippable.
pub proof fn lemma_parsed_lines_canonical(ls: Seq<Seq<char>>)
    requires
        parsed_lines(ls) is Ok,
    ensures
        forall|k: int|
            0 <= k < parsed_lines(ls)->Ok_0.len() ==> canonical_task(
                #[trigger] parsed_lines(ls)->Ok_0[k],
            ),
    decreases ls.len(),
{
    if ls.len() > 0 {
        lemma_parsed_line_canonical(ls[0]);
        lemma_parsed_lines_canonical(ls.drop_first());
        let t = parsed_line(ls[0])->Some_0;
        let rest = parsed_lines(ls.drop_first())->Ok_0;
        assert forall|k: int| 0 <= k < parsed_lines(ls)->Ok_0.len() implies canonical_task(
            #[trigger] parsed_lines(ls)->Ok_0[k],
        ) by {
            assert(parsed_lines(ls)->Ok_0 == seq![t] + rest);
            if k == 0 {
                assert((seq![t] + rest)[0] == t);
            } else {
                assert((seq![t] + rest)[k] == rest[k - 1]);
            }
        }
    }
}

/// Decodes one line into a task, or reports the line.
pub fn parse_task(line: &str) -> (r: Result<Task, ParseFileError>)
    ensures
        match r {
            Ok(t) => parsed_line(line@) == Some(t@),
            Err(e) => {
                &&& parsed_line(line@) is None
                &&& e matches ParseFileError::InvalidLine(l) && l@ == line@
            },
        },
{
    let tokens = split_tokens(line);
    if tokens.len() < 2 {
        return Err(ParseFileError::InvalidLine(line.to_owned()));
    }
    let priority = match parse_i32(tokens[0].as_str()) {
        Some(p) => p,
        None => {
            proof {
                assert(tokens.deep_view()[0] == tokens@[0]@);
            }
            return Err(ParseFileError::InvalidLine(line.to_owned()));
        },
    };
    let description = join_from(&tokens, 1);
    proof {
        assert(tokens.deep_view()[0] == tokens@[0]@);
    }
    Ok(Task { priority, description })
}

/// Decodes a whole file's contents into the task list, in file order;
/// the first line that does not fit is reported and nothing is kept.
pub fn parse_task_file(content: &str) -> (r: Result<Vec<Task>, ParseFileError>)
    ensures
        match r {
            Ok(ts) => parsed_lines(lines_of(content@)) == Ok::<Seq<TaskView>, Seq<char>>(
                ts.deep_view(),
            ),
            Err(e) => {
                &&& parsed_lines(lines_of(content@)) is Err
                &&& e matches ParseFileError::InvalidLine(l) && l@ == parsed_lines(
                    lines_of(content@),
                )->Err_0
            },
        },
{
    let ghost ls = lines_of(content@);
    let lines = split_lines(content);
    let mut tasks: Vec<Task> = Vec::new();
    let mut i: usize = 0;
    proof {
        assert(ls.subrange(0, 0) =~= Seq::<Seq<char>>::empty());
        assert(tasks.deep_view() =~= Seq::<TaskView>::empty());
    }
    while i < lines.len()
        invariant
            0 <= i <= lines@.len(),
            lines.deep_view() == ls,
            ls == lines_of(content@),
            parsed_lines(ls.subrange(0, i as int)) == Ok::<Seq<TaskView>, Seq<char>>(
                tasks.deep_view(),
            ),
        decreases lines@.len() - i,
    {
        proof {
            lemma_parsed_lines_push(ls.subrange(0, i as int), ls[i as int]);
            assert(ls.subrange(0, i as int).push(ls[i as int]) =~= ls.subrange(0, i + 1));
            assert(lines.deep_view()[i as int] == lines@[i as int]@);
        }
        let t = match parse_task(lines[i].as_str()) {
            Ok(t) => t,
            Err(e) => {
                proof {
                    lemma_parsed_lines_err(ls, i + 1);
                }
                return Err(e);
            },
        };
        let ghost dv = tasks.deep_view();
        tasks.push(t);
        proof {
            assert(tasks.deep_view() =~= dv.push(t@));
        }
        i = i + 1;
    }
    proof {
        assert(ls.subrange(0, i as int) =~= ls);
    }
    Ok(tasks)
}

} // verus!
