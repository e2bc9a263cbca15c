//! Sorting the task list by ascending priority, stably: tasks that
//! share a priority keep the order they already had, and a task added
//! at the end stays after its equals.

use crate::task::{Task, TaskView};
use vstd::prelude::*;
use vstd::seq_lib::*;

verus! {

/// Ascending by priority, with ties allowed.
pub open spec fn sorted_by_priority(s: Seq<TaskView>) -> bool {
    forall|i: int, j: int|
        0 <= i < j < s.len() ==> #[trigger] s[i].priority <= #[trigger] s[j].priority
}

/// Where a stable insertion puts one more task: after every task that
/// does not order strictly above it.
pub open spec fn insert_sorted(s: Seq<TaskView>, t: TaskView) -> Seq<TaskView>
    decreases s.len(),
{
    if s.len() == 0 {
        seq![t]
    } else if s.last().priority <= t.priority {
        s.push(t)
    } else {
        insert_sorted(s.drop_last(), t).push(s.last())
    }
}

/// The stable ascending sort of a task sequence: each task in turn,
/// first to last, inserted behind its equals.
pub open spec fn sort_by_priority(s: Seq<TaskView>) -> Seq<TaskView>
    decreases s.len(),
{
    if s.len() == 0 {
        Seq::empty()
    } else {
        insert_sorted(sort_by_priority(s.drop_last()), s.last())
    }
}

/// The tasks of a sequence that carry one given priority, in order.
pub open spec fn with_priority(s: Seq<TaskView>, p: int) -> Seq<TaskView> {
    s.filter(|t: TaskView| t.priority == p)
}

/// Inserting adds exactly one task.
pub proof fn lemma_insert_sorted_len(s: Seq<TaskView>, t: TaskView)
    ensures
        insert_sorted(s, t).len() == s.len() + 1,
    decreases s.len(),
{
    if s.len() > 0 && s.last().priority > t.priority {
        lemma_insert_sorted_len(s.drop_last(), t);
    }
}

/// Sorting keeps the length.
pub proof fn lemma_sort_len(s: Seq<TaskView>)
    ensures
        sort_by_priority(s).len() == s.len(),
    decreases s.len(),
{
    if s.len() > 0 {
        lemma_sort_len(s.drop_last());
        lemma_insert_sorted_len(sort_by_priority(s.drop_last()), s.last());
    }
}

/// Inserting into an ascending sequence keeps it ascending.
pub proof fn lemma_insert_sorted_sorted(s: Seq<TaskView>, t: TaskView)
    requires
        sorted_by_priority(s),
    ensures
        sorted_by_priority(insert_sorted(s, t)),
    decreases s.len(),
{
    broadcast use vstd::seq_lib::group_to_multiset_ensures;

    if s.len() == 0 {
    } else if s.last().priority <= t.priority {
        let r = s.push(t);
        assert forall|i: int, j: int|
            0 <= i < j < r.len() implies #[trigger] r[i].priority <= #[trigger] r[j].priority by {
            if j < s.len() {
            } else {
                assert(r[j] == t);
                if i < s.len() - 1 {
                    assert(s[i].priority <= s[s.len() - 1].priority);
                }
            }
        }
    } else {
        assert(sorted_by_priority(s.drop_last())) by {
            assert(forall|i: int, j: int|
                0 <= i < j < s.drop_last().len() ==> #[trigger] s.drop_last()[i].priority
                    <= #[trigger] s.drop_last()[j].priority);
        }
        lemma_insert_sorted_sorted(s.drop_last(), t);
        let u = insert_sorted(s.drop_last(), t);
        let r = u.push(s.last());
        lemma_insert_sorted_len(s.drop_last(), t);
        lemma_insert_sorted_members(s.drop_last(), t);
        assert forall|i: int, j: int|
            0 <= i < j < r.len() implies #[trigger] r[i].priority <= #[trigger] r[j].priority by {
            if j == r.len() - 1 {
                assert(r[j] == s.last());
                assert(u.to_multiset().contains(r[i]));
                lemma_multiset_of_insert(s.drop_last(), t);
                if r[i] == t {
                    assert(r[i].priority <= s.last().priority);
                } else {
                    assert(s.drop_last().to_multiset().contains(r[i]));
                    lemma_multiset_member_priority(s, r[i]);
                }
            }
        }
    }
}

/// Every task of an inserted sequence is the inserted task or one of
/// the originals (stated over multisets).
pub proof fn lemma_multiset_of_insert(s: Seq<TaskView>, t: TaskView)
    ensures
        insert_sorted(s, t).to_multiset() == s.to_multiset().insert(t),
    decreases s.len(),
{
    broadcast use vstd::seq_lib::group_to_multiset_ensures;

    if s.len() == 0 {
        assert(seq![t] =~= Seq::<TaskView>::empty().push(t));
        assert(insert_sorted(s, t).to_multiset() =~= s.to_multiset().insert(t));
    } else if s.last().priority <= t.priority {
        assert(s.push(t).to_multiset() =~= s.to_multiset().insert(t));
    } else {
        lemma_multiset_of_insert(s.drop_last(), t);
        let u = insert_sorted(s.drop_last(), t);
        assert(u.push(s.last()).to_multiset() == u.to_multiset().insert(s.last()));
        assert(s =~= s.drop_last().push(s.last()));
        assert(s.to_multiset() == s.drop_last().to_multiset().insert(s.last()));
        assert(s.drop_last().to_multiset().insert(t).insert(s.last())
            =~= s.drop_last().to_multiset().insert(s.last()).insert(t));
    }
}

proof fn lemma_insert_sorted_members(s: Seq<TaskView>, t: TaskView)
    ensures
        forall|x: TaskView|
            #[trigger] insert_sorted(s, t).to_multiset().contains(x) ==> x == t
                || s.to_multiset().contains(x),
{
    broadcast use vstd::seq_lib::group_to_multiset_ensures;

    lemma_multiset_of_insert(s, t);
}

proof fn lemma_multiset_member_priority(s: Seq<TaskView>, x: TaskView)
    requires
        sorted_by_priority(s),
        s.len() > 0,
        s.drop_last().to_multiset().contains(x),
    ensures
        x.priority <= s.last().priority,
{
    broadcast use vstd::seq_lib::group_to_multiset_ensures;

    let i = choose|i: int| 0 <= i < s.drop_last().len() && s.drop_last()[i] == x;
    assert(s[i] == x);
    assert(s[i].priority <= s[s.len() - 1].priority);
}

/// Sorting yields an ascending sequence.
pub proof fn lemma_sort_sorted(s: Seq<TaskView>)
    ensures
        sorted_by_priority(sort_by_priority(s)),
    decreases s.len(),
{
    if s.len() > 0 {
        lemma_sort_sorted(s.drop_last());
        lemma_insert_sorted_sorted(sort_by_priority(s.drop_last()), s.last());
    }
}

/// Sorting permutes: the sorted sequence holds exactly the tasks of the
/// original, multiplicities included.
pub proof fn lemma_sort_permutes(s: Seq<TaskView>)
    ensures
        sort_by_priority(s).to_multiset() == s.to_multiset(),
    decreases s.len(),
{
    broadcast use vstd::seq_lib::group_to_multiset_ensures;

    if s.len() > 0 {
        lemma_sort_permutes(s.drop_last());
        lemma_multiset_of_insert(sort_by_priority(s.drop_last()), s.last());
        assert(s =~= s.drop_last().push(s.last()));
        assert(s.to_multiset() == s.drop_last().to_multiset().insert(s.last()));
    }
}

/// Insertion is stable: among the tasks of any one priority, the
/// inserted task goes last, and the others keep their order.
pub proof fn lemma_insert_stable(s: Seq<TaskView>, t: TaskView, p: int)
    ensures
        t.priority == p ==> with_priority(insert_sorted(s, t), p) == with_priority(s, p).push(t),
        t.priority != p ==> with_priority(insert_sorted(s, t), p) == with_priority(s, p),
    decreases s.len(),
{
    broadcast use Seq::lemma_filter_push;

    let pred = |x: TaskView| x.priority == p;
    if s.len() == 0 {
        reveal(Seq::filter);
        assert(seq![t] =~= Seq::<TaskView>::empty().push(t));
        assert(Seq::<TaskView>::empty().push(t).filter(pred) == if pred(t) {
            Seq::<TaskView>::empty().filter(pred).push(t)
        } else {
            Seq::<TaskView>::empty().filter(pred)
        });
        assert(Seq::<TaskView>::empty().filter(pred) =~= Seq::<TaskView>::empty());
    } else if s.last().priority <= t.priority {
        assert(s.push(t).filter(pred) == if pred(t) {
            s.filter(pred).push(t)
        } else {
            s.filter(pred)
        });
    } else {
        lemma_insert_stable(s.drop_last(), t, p);
        let u = insert_sorted(s.drop_last(), t);
        assert(u.push(s.last()).filter(pred) == if pred(s.last()) {
            u.filter(pred).push(s.last())
        } else {
            u.filter(pred)
        });
        assert(s =~= s.drop_last().push(s.last()));
        assert(s.filter(pred) == if pred(s.last()) {
            s.drop_last().filter(pred).push(s.last())
        } else {
            s.drop_last().filter(pred)
        });
        if t.priority == p {
            assert(s.last().priority != p);
        }
    }
}

/// Where the scan of `insert_task` stops is where `insert_sorted` puts
/// the task.
proof fn lemma_insert_sorted_at(s: Seq<TaskView>, t: TaskView, i: int)
    requires
        0 <= i <= s.len(),
        forall|k: int| i <= k < s.len() ==> #[trigger] s[k].priority > t.priority,
        i > 0 ==> s[i - 1].priority <= t.priority,
    ensures
        insert_sorted(s, t) == s.subrange(0, i).push(t) + s.subrange(i, s.len() as int),
    decreases s.len(),
{
    if i == s.len() {
        if s.len() == 0 {
            assert(insert_sorted(s, t) =~= s.subrange(0, i).push(t) + s.subrange(
                i,
                s.len() as int,
            ));
        } else {
            assert(s.last().priority <= t.priority);
            assert(s.subrange(0, i) =~= s);
            assert(s.subrange(i, s.len() as int) =~= Seq::<TaskView>::empty());
            assert(s.push(t) =~= s.subrange(0, i).push(t) + s.subrange(i, s.len() as int));
        }
    } else {
        assert(s[s.len() - 1].priority > t.priority);
        lemma_insert_sorted_at(s.drop_last(), t, i);
        assert(s.drop_last().subrange(0, i) =~= s.subrange(0, i));
        assert(insert_sorted(s, t) == insert_sorted(s.drop_last(), t).push(s.last()));
        assert((s.drop_last().subrange(0, i).push(t) + s.drop_last().subrange(
            i,
            s.drop_last().len() as int,
        )).push(s.last()) =~= s.subrange(0, i).push(t) + s.subrange(i, s.len() as int));
    }
}

/// Inserts one task into an already ascending list, behind every task
/// that does not order strictly above it.
pub fn insert_task(list: Vec<Task>, t: Task) -> (r: Vec<Task>)
    ensures
        r.deep_view() == insert_sorted(list.deep_view(), t@),
{
    let ghost s = list.deep_view();
    let mut list = list;
    let mut i: usize = list.len();
    while i > 0 && list[i - 1].priority > t.priority
        invariant
            0 <= i <= list@.len(),
            s == list.deep_view(),
            forall|k: int| i <= k < s.len() ==> #[trigger] s[k].priority > t@.priority,
        decreases i,
    {
        proof {
            assert(s[i - 1] == list@[i - 1]@);
        }
        i = i - 1;
    }
    proof {
        if i > 0 {
            assert(s[i - 1] == list@[i - 1]@);
        }
        lemma_insert_sorted_at(s, t@, i as int);
    }
    let ghost tv = t@;
    let ghost prev = list@;
    list.insert(i, t);
    proof {
        let target = s.subrange(0, i as int).push(tv) + s.subrange(i as int, s.len() as int);
        assert(list@ == prev.subrange(0, i as int).push(t) + prev.subrange(
            i as int,
            prev.len() as int,
        ));
        assert(list.deep_view() =~= target) by {
            assert forall|k: int| 0 <= k < list.deep_view().len() implies list.deep_view()[k]
                == target[k] by {
                assert(list.deep_view()[k] == list@[k]@);
                assert(forall|m: int| 0 <= m < s.len() ==> s[m] == #[trigger] prev[m]@);
            }
        }
    }
    list
}

/// Sorts the task list ascending by priority, stably.
pub fn sort_tasks(tasks: Vec<Task>) -> (r: Vec<Task>)
    ensures
        r.deep_view() == sort_by_priority(tasks.deep_view()),
{
    let ghost s = tasks.deep_view();
    let mut out: Vec<Task> = Vec::new();
    let mut i: usize = 0;
    proof {
        assert(s.subrange(0, 0) =~= Seq::<TaskView>::empty());
        assert(out.deep_view() =~= Seq::<TaskView>::empty());
    }
    while i < tasks.len()
        invariant
            0 <= i <= tasks@.len(),
            s == tasks.deep_view(),
            out.deep_view() == sort_by_priority(s.subrange(0, i as int)),
        decreases tasks@.len() - i,
    {
        let t = Task {
            priority: tasks[i].priority,
            description: tasks[i].description.clone(),
        };
        proof {
            assert(t@ == s[i as int]);
            let pre = s.subrange(0, i as int);
            let cur = s.subrange(0, i + 1);
            assert(cur.drop_last() =~= pre);
            assert(cur.last() == s[i as int]);
        }
        out = insert_task(out, t);
        i = i + 1;
    }
    proof {
        assert(s.subrange(0, i as int) =~= s);
    }
    out
}

/// Sorting is stable: for every priority, the tasks that carry it come
/// out in the order they went in.
pub proof fn lemma_sort_stable(s: Seq<TaskView>, p: int)
    ensures
        with_priority(sort_by_priority(s), p) == with_priority(s, p),
    decreases s.len(),
{
    broadcast use Seq::lemma_filter_push;

    let pred = |x: TaskView| x.priority == p;
    if s.len() == 0 {
        reveal(Seq::filter);
    }
    if s.len() > 0 {
        lemma_sort_stable(s.drop_last(), p);
        lemma_insert_stable(sort_by_priority(s.drop_last()), s.last(), p);
        assert(s =~= s.drop_last().push(s.last()));
        assert(s.filter(pred) == if pred(s.last()) {
            s.drop_last().filter(pred).push(s.last())
        } else {
            s.drop_last().filter(pred)
        });
    }
}

} // verus!
