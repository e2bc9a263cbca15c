//! Encoding the task list back to file text: each task becomes the line
//! `<priority> <description>\n`, priority in decimal, description
//! verbatim. Proved here: decoding what was encoded returns the same
//! tasks, provided each description is in the form the split-and-rejoin
//! decoder can reproduce.

use crate::num::{dec_of_int, dec_of_nat, i32_to_string, lemma_dec_of_nat, lemma_parse_dec_of_int};
use crate::parser::{parsed_line, parsed_lines};
use crate::sort::{lemma_sort_permutes, sort_by_priority};
use crate::task::{canonical_task, Task, TaskView};
use crate::text::{
    is_ws, joined, lemma_joined_push, lemma_lines_of_split, lemma_normalized_no_nl,
    lemma_tokens_of_token_prefix, lemma_tokens_of_ws_prefix, lines_of, normalized_description,
    tokens_of, wf_token,
};
use vstd::prelude::*;

verus! {

/// The line a task is written as, newline included.
pub open spec fn encoded_task(t: TaskView) -> Seq<char> {
    dec_of_int(t.priority) + seq![' '] + t.description + seq!['\n']
}

/// The text a task list is written as: its tasks' lines, in order.
pub open spec fn encoded_tasks(ts: Seq<TaskView>) -> Seq<char>
    decreases ts.len(),
{
    if ts.len() == 0 {
        Seq::empty()
    } else {
        encoded_task(ts[0]) + encoded_tasks(ts.drop_first())
    }
}

/// Encoding one more task at the end appends its line.
pub proof fn lemma_encoded_tasks_push(ts: Seq<TaskView>, t: TaskView)
    ensures
        encoded_tasks(ts.push(t)) == encoded_tasks(ts) + encoded_task(t),
    decreases ts.len(),
{
    if ts.len() == 0 {
        assert(ts.push(t)[0] == t);
        assert(ts.push(t).drop_first() =~= Seq::<TaskView>::empty());
        assert(encoded_tasks(Seq::<TaskView>::empty()) == Seq::<char>::empty());
        assert(encoded_tasks(ts.push(t)) == encoded_task(t) + Seq::<char>::empty());
        assert(encoded_task(t) + Seq::<char>::empty() =~= Seq::<char>::empty() + encoded_task(t));
    } else {
        lemma_encoded_tasks_push(ts.drop_first(), t);
        assert(ts.push(t)[0] == ts[0]);
        assert(ts.push(t).drop_first() =~= ts.drop_first().push(t));
        assert(encoded_task(ts[0]) + (encoded_tasks(ts.drop_first()) + encoded_task(t)) =~= (
        encoded_task(ts[0]) + encoded_tasks(ts.drop_first())) + encoded_task(t));
    }
}

/// Writes one task as its line.
pub fn encode_task(t: &Task) -> (r: String)
    ensures
        r@ == encoded_task(t@),
{
    proof {
        reveal_strlit(" ");
        reveal_strlit("\n");
    }
    let mut r = i32_to_string(t.priority);
    r.append(" ");
    r.append(t.description.as_str());
    r.append("\n");
    proof {
        assert(" "@ =~= seq![' ']);
        assert("\n"@ =~= seq!['\n']);
        assert(r@ =~= encoded_task(t@));
    }
    r
}

/// Writes the whole task list as file text, in the order given.
pub fn encode_tasks(tasks: &Vec<Task>) -> (r: String)
    ensures
        r@ == encoded_tasks(tasks.deep_view()),
{
    let ghost dv = tasks.deep_view();
    let mut r = String::new();
    let mut i: usize = 0;
    proof {
        assert(dv.subrange(0, 0) =~= Seq::<TaskView>::empty());
        assert(r@ =~= encoded_tasks(dv.subrange(0, 0)));
    }
    while i < tasks.len()
        invariant
            0 <= i <= tasks@.len(),
            dv == tasks.deep_view(),
            r@ == encoded_tasks(dv.subrange(0, i as int)),
        decreases tasks@.len() - i,
    {
        let line = encode_task(&tasks[i]);
        r.append(line.as_str());
        proof {
            lemma_encoded_tasks_push(dv.subrange(0, i as int), dv[i as int]);
            assert(dv.subrange(0, i as int).push(dv[i as int]) =~= dv.subrange(0, i + 1));
            assert(tasks.deep_view()[i as int] == tasks@[i as int]@);
        }
        i = i + 1;
    }
    proof {
        assert(dv.subrange(0, i as int) =~= dv);
    }
    r
}

/// The numeral of a priority is one well-formed token.
proof fn lemma_numeral_wf(p: int)
    ensures
        wf_token(dec_of_int(p)),
{
    if p < 0 {
        lemma_dec_of_nat((-p) as nat);
        let digits = dec_of_nat((-p) as nat);
        let s = seq!['-'] + digits;
        assert forall|i: int| 0 <= i < s.len() implies !is_ws(#[trigger] s[i]) by {
            if i == 0 {
                assert(s[i] == '-');
            } else {
                assert(s[i] == digits[i - 1]);
                assert(crate::num::is_digit(digits[i - 1]));
            }
        }
    } else {
        lemma_dec_of_nat(p as nat);
        let digits = dec_of_nat(p as nat);
        assert forall|i: int| 0 <= i < digits.len() implies !is_ws(#[trigger] digits[i]) by {
            assert(crate::num::is_digit(digits[i]));
        }
    }
}

/// Round trip of one task: decoding the encoded line (its trailing
/// newline split off) returns the task, for any priority and any
/// normalized description.
pub proof fn lemma_decode_encode(t: TaskView)
    requires
        i32::MIN <= t.priority <= i32::MAX,
        normalized_description(t.description),
    ensures
        parsed_line(dec_of_int(t.priority) + seq![' '] + t.description) == Some(t),
{
    let num = dec_of_int(t.priority);
    let line = num + seq![' '] + t.description;
    lemma_numeral_wf(t.priority);
    lemma_tokens_of_token_prefix(num, seq![' '] + t.description);
    assert((seq![' '] + t.description)[0] == ' ');
    lemma_tokens_of_ws_prefix(' ', t.description);
    assert(num + (seq![' '] + t.description) =~= line);
    assert(tokens_of(line) == seq![num] + tokens_of(t.description));
    let toks = tokens_of(line);
    assert(toks.len() >= 2);
    assert(toks[0] == num);
    lemma_parse_dec_of_int(t.priority);
    assert(toks.subrange(1, toks.len() as int) =~= tokens_of(t.description));
    assert(joined(tokens_of(t.description)) == t.description);
}

/// Round trip of a task list: decoding the encoded text returns exactly
/// the tasks that were written, in order.
pub proof fn lemma_decode_encode_tasks(ts: Seq<TaskView>)
    requires
        forall|k: int| 0 <= k < ts.len() ==> canonical_task(#[trigger] ts[k]),
    ensures
        parsed_lines(lines_of(encoded_tasks(ts))) == Ok::<Seq<TaskView>, Seq<char>>(ts),
    decreases ts.len(),
{
    if ts.len() == 0 {
        assert(lines_of(Seq::<char>::empty()) =~= Seq::<Seq<char>>::empty());
        assert(ts =~= Seq::<TaskView>::empty());
    } else {
        let t = ts[0];
        let line = dec_of_int(t.priority) + seq![' '] + t.description;
        let rest = encoded_tasks(ts.drop_first());
        assert(encoded_tasks(ts) == encoded_task(t) + rest);
        assert(encoded_task(t) + rest =~= line + seq!['\n'] + rest);
        lemma_numeral_wf(t.priority);
        lemma_normalized_no_nl(t.description);
        assert forall|i: int| 0 <= i < line.len() implies #[trigger] line[i] != '\n' by {
            let num = dec_of_int(t.priority);
            if i < num.len() {
                assert(line[i] == num[i]);
                assert(!is_ws(num[i]));
            } else if i == num.len() {
                assert(line[i] == ' ');
            } else {
                assert(line[i] == t.description[i - num.len() - 1]);
            }
        }
        lemma_lines_of_split(line, rest);
        assert(lines_of(encoded_tasks(ts)) == seq![line] + lines_of(rest));
        lemma_decode_encode(t);
        assert(forall|k: int|
            0 <= k < ts.drop_first().len() ==> canonical_task(#[trigger] ts.drop_first()[k]));
        lemma_decode_encode_tasks(ts.drop_first());
        let ls = seq![line] + lines_of(rest);
        assert(ls[0] == line);
        assert(ls.drop_first() =~= lines_of(rest));
        assert(parsed_lines(ls) == Ok::<Seq<TaskView>, Seq<char>>(seq![t] + ts.drop_first()));
        assert(seq![t] + ts.drop_first() =~= ts);
    }
}

/// What a mutating action writes back always reads back: the sorted
/// form of any list of round-trippable tasks — such as the tasks a
/// decoded file holds — re-decodes to exactly itself.
pub proof fn lemma_saved_list_reparses(ts: Seq<TaskView>)
    requires
        forall|k: int| 0 <= k < ts.len() ==> canonical_task(#[trigger] ts[k]),
    ensures
        parsed_lines(lines_of(encoded_tasks(sort_by_priority(ts)))) == Ok::<
            Seq<TaskView>,
            Seq<char>,
        >(sort_by_priority(ts)),
{
    broadcast use vstd::seq_lib::group_to_multiset_ensures;

    lemma_sort_permutes(ts);
    let sorted = sort_by_priority(ts);
    assert forall|k: int| 0 <= k < sorted.len() implies canonical_task(#[trigger] sorted[k]) by {
        assert(sorted.to_multiset().contains(sorted[k]));
        assert(ts.to_multiset().contains(sorted[k]));
        assert(ts.contains(sorted[k]));
        let i = choose|i: int| 0 <= i < ts.len() && ts[i] == sorted[k];
        assert(canonical_task(ts[i]));
    }
    lemma_decode_encode_tasks(sorted);
}

} // verus!
