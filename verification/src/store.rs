//! The task store: an ordered sequence of tasks with unique, monotonically
//! assigned ids, the add / remove / view operations over it, and the laws
//! they obey.

use vstd::prelude::*;
use crate::numeral::{dec_digits, push_dec};
use crate::task::{Task, TaskView, line_of, push_line, seq_view};
use crate::text::string_of_chars;
use vstd::string::StringExecFns;

verus! {

/// The largest id in the store, 0 when the store is empty.
pub open spec fn max_id(ts: Seq<TaskView>) -> nat
    decreases ts.len(),
{
    if ts.len() == 0 {
        0
    } else {
        let m = max_id(ts.drop_last());
        if ts.last().id > m {
            ts.last().id
        } else {
            m
        }
    }
}

/// The id handed to the next added task.
pub open spec fn next_id(ts: Seq<TaskView>) -> nat {
    max_id(ts) + 1
}

/// Adding appends a fresh, not yet completed task under the next id.
pub open spec fn spec_add(ts: Seq<TaskView>, description: Seq<char>) -> Seq<TaskView> {
    ts.push(TaskView { id: next_id(ts), description, completed: false })
}

pub open spec fn has_id(ts: Seq<TaskView>, id: nat) -> bool {
    exists|i: int| 0 <= i < ts.len() && (#[trigger] ts[i]).id == id
}

/// Index of the first task carrying `id`; meaningful only when `has_id` holds.
pub open spec fn first_index_of(ts: Seq<TaskView>, id: nat) -> int
    decreases ts.len(),
{
    if ts.len() == 0 {
        0
    } else if ts[0].id == id {
        0
    } else {
        1 + first_index_of(ts.drop_first(), id)
    }
}

/// Removing deletes the first task carrying `id`, and nothing else; a store
/// without the id stays as it is.
pub open spec fn spec_remove(ts: Seq<TaskView>, id: nat) -> Seq<TaskView> {
    if has_id(ts, id) {
        ts.remove(first_index_of(ts, id))
    } else {
        ts
    }
}

pub proof fn lemma_first_index(ts: Seq<TaskView>, id: nat)
    requires
        has_id(ts, id),
    ensures
        0 <= first_index_of(ts, id) < ts.len(),
        ts[first_index_of(ts, id)].id == id,
        forall|k: int| 0 <= k < first_index_of(ts, id) ==> (#[trigger] ts[k]).id != id,
    decreases ts.len(),
{
    if ts[0].id == id {
    } else {
        let i = choose|i: int| 0 <= i < ts.len() && (#[trigger] ts[i]).id == id;
        assert(ts.drop_first()[i - 1].id == id);
        lemma_first_index(ts.drop_first(), id);
        assert forall|k: int| 0 <= k < first_index_of(ts, id) implies (#[trigger] ts[k]).id
            != id by {
            if k > 0 {
                assert(ts.drop_first()[k - 1].id != id);
            }
        }
    }
}

pub proof fn lemma_first_index_is(ts: Seq<TaskView>, id: nat, i: int)
    requires
        0 <= i < ts.len(),
        ts[i].id == id,
        forall|k: int| 0 <= k < i ==> (#[trigger] ts[k]).id != id,
    ensures
        has_id(ts, id),
        first_index_of(ts, id) == i,
    decreases ts.len(),
{
    if i == 0 {
    } else {
        assert(ts.drop_first()[i - 1].id == id);
        assert forall|k: int| 0 <= k < i - 1 implies (#[trigger] ts.drop_first()[k]).id != id by {
            assert(ts[k + 1].id != id);
        }
        lemma_first_index_is(ts.drop_first(), id, i - 1);
    }
}

/// The largest id in the store.
pub fn max_id_exec(tasks: &Vec<Task>) -> (m: usize)
    ensures
        m as nat == max_id(seq_view(tasks@)),
{
    let mut m: usize = 0;
    let mut i: usize = 0;
    while i < tasks.len()
        invariant
            i <= tasks@.len(),
            m as nat == max_id(seq_view(tasks@.subrange(0, i as int))),
        decreases tasks@.len() - i,
    {
        let t_id = tasks[i].id;
        proof {
            let prefix = seq_view(tasks@.subrange(0, i as int + 1));
            assert(prefix.drop_last() =~= seq_view(tasks@.subrange(0, i as int)));
            assert(prefix.last() == tasks@[i as int]@);
        }
        if t_id > m {
            m = t_id;
        }
        i = i + 1;
    }
    proof {
        assert(tasks@.subrange(0, tasks@.len() as int) =~= tasks@);
    }
    m
}

/// Appends a new task with the next unique id, not yet completed.
pub fn add_task(tasks: &mut Vec<Task>, description: String)
    requires
        max_id(seq_view(old(tasks)@)) < usize::MAX as nat,
    ensures
        seq_view(final(tasks)@) == spec_add(seq_view(old(tasks)@), description@),
{
    let m = max_id_exec(tasks);
    let t = Task { id: m + 1, description, completed: false };
    tasks.push(t);
    proof {
        assert(seq_view(tasks@) =~= spec_add(seq_view(old(tasks)@), description@));
    }
}

/// Adds unless the next id would not fit in `usize`; reports whether it did.
pub fn try_add_task(tasks: &mut Vec<Task>, description: String) -> (added: bool)
    ensures
        added ==> seq_view(final(tasks)@) == spec_add(seq_view(old(tasks)@), description@),
        !added ==> final(tasks)@ == old(tasks)@ && max_id(seq_view(old(tasks)@))
            == usize::MAX as nat,
{
    let m = max_id_exec(tasks);
    if m == usize::MAX {
        false
    } else {
        add_task(tasks, description);
        true
    }
}

/// The report when `id` is not in the store.
pub open spec fn not_found_text(id: nat) -> Seq<char> {
    "No task found with ID "@ + dec_digits(id)
}

/// Removes the first task carrying `id`; a missing id leaves the store
/// unchanged and is reported.
pub fn remove_task(tasks: &mut Vec<Task>, id: usize) -> (r: Result<(), String>)
    ensures
        match r {
            Ok(()) => has_id(seq_view(old(tasks)@), id as nat) && seq_view(final(tasks)@)
                == spec_remove(seq_view(old(tasks)@), id as nat),
            Err(m) => !has_id(seq_view(old(tasks)@), id as nat) && final(tasks)@ == old(tasks)@
                && m@ == not_found_text(id as nat),
        },
{
    let ghost ts = seq_view(old(tasks)@);
    let mut i: usize = 0;
    while i < tasks.len()
        invariant
            i <= tasks@.len(),
            tasks@ == old(tasks)@,
            ts == seq_view(tasks@),
            forall|k: int| 0 <= k < i ==> (#[trigger] ts[k]).id != id as nat,
        decreases tasks@.len() - i,
    {
        if tasks[i].id == id {
            proof {
                lemma_first_index_is(ts, id as nat, i as int);
            }
            tasks.remove(i);
            proof {
                assert(seq_view(tasks@) =~= spec_remove(ts, id as nat));
            }
            return Ok(());
        }
        i = i + 1;
    }
    proof {
        assert(!has_id(ts, id as nat));
    }
    let mut msg: Vec<char> = Vec::new();
    crate::text::push_str_chars(&mut msg, "No task found with ID ");
    push_dec(&mut msg, id);
    Err(string_of_chars(&msg))
}

/// The lines of the listing, one task per line, in store order.
pub open spec fn lines_text(ts: Seq<TaskView>) -> Seq<char>
    decreases ts.len(),
{
    if ts.len() == 0 {
        Seq::empty()
    } else {
        lines_text(ts.drop_last()) + line_of(ts.last()) + "\n"@
    }
}

/// The whole listing: one line per task, or the empty-store message.
pub open spec fn view_text(ts: Seq<TaskView>) -> Seq<char> {
    if ts.len() == 0 {
        "No tasks available.\n"@
    } else {
        lines_text(ts)
    }
}

/// The listing of the store, ready to print.
pub fn view_tasks(tasks: &Vec<Task>) -> (r: String)
    ensures
        r@ == view_text(seq_view(tasks@)),
{
    if tasks.len() == 0 {
        let r = String::from_str("No tasks available.\n");
        proof {
            assert(seq_view(tasks@) =~= Seq::<TaskView>::empty());
        }
        r
    } else {
        let mut out: Vec<char> = Vec::new();
        let mut i: usize = 0;
        while i < tasks.len()
            invariant
                i <= tasks@.len(),
                out@ == lines_text(seq_view(tasks@.subrange(0, i as int))),
            decreases tasks@.len() - i,
        {
            push_line(&mut out, &tasks[i]);
            out.push('\n');
            i = i + 1;
            proof {
                reveal_strlit("\n");
                let prefix = seq_view(tasks@.subrange(0, i as int));
                assert(prefix.drop_last() =~= seq_view(tasks@.subrange(0, i as int - 1)));
                assert(prefix.last() == tasks@[i as int - 1]@);
                assert(out@ =~= lines_text(prefix));
            }
        }
        proof {
            assert(tasks@.subrange(0, tasks@.len() as int) =~= tasks@);
        }
        string_of_chars(&out)
    }
}

/// The store reached by a run of adds, oldest first, from the empty store.
pub open spec fn apply_adds(ds: Seq<Seq<char>>) -> Seq<TaskView>
    decreases ds.len(),
{
    if ds.len() == 0 {
        Seq::empty()
    } else {
        spec_add(apply_adds(ds.drop_last()), ds.last())
    }
}

pub proof fn lemma_consecutive_ids_max(ts: Seq<TaskView>)
    requires
        forall|i: int| 0 <= i < ts.len() ==> (#[trigger] ts[i]).id == i + 1,
    ensures
        max_id(ts) == ts.len(),
    decreases ts.len(),
{
    if ts.len() > 0 {
        lemma_consecutive_ids_max(ts.drop_last());
    }
}

/// Law: a run of adds from the empty store yields exactly the given
/// descriptions, in order of addition, under the ids `1..=N`, none completed.
pub proof fn lemma_adds_from_empty(ds: Seq<Seq<char>>)
    ensures
        apply_adds(ds).len() == ds.len(),
        forall|i: int| 0 <= i < ds.len() ==> (#[trigger] apply_adds(ds)[i]).id == i + 1,
        forall|i: int| 0 <= i < ds.len() ==> (#[trigger] apply_adds(ds)[i]).description == ds[i],
        forall|i: int| 0 <= i < ds.len() ==> !(#[trigger] apply_adds(ds)[i]).completed,
        unique_ids(apply_adds(ds)),
    decreases ds.len(),
{
    if ds.len() > 0 {
        lemma_adds_from_empty(ds.drop_last());
        lemma_consecutive_ids_max(apply_adds(ds.drop_last()));
        assert forall|i: int| 0 <= i < ds.len() implies (#[trigger] apply_adds(ds)[i]).id == i + 1
            && apply_adds(ds)[i].description == ds[i] && !apply_adds(ds)[i].completed by {
            if i < ds.len() - 1 {
                assert(apply_adds(ds)[i] == apply_adds(ds.drop_last())[i]);
                assert(ds.drop_last()[i] == ds[i]);
            }
        }
    }
}

/// No two tasks of the store share an id.
pub open spec fn unique_ids(ts: Seq<TaskView>) -> bool {
    forall|i: int, j: int|
        0 <= i < j < ts.len() ==> (#[trigger] ts[i]).id != (#[trigger] ts[j]).id
}

pub proof fn lemma_max_id_ge(ts: Seq<TaskView>)
    ensures
        forall|i: int| 0 <= i < ts.len() ==> (#[trigger] ts[i]).id <= max_id(ts),
    decreases ts.len(),
{
    if ts.len() > 0 {
        lemma_max_id_ge(ts.drop_last());
        assert forall|i: int| 0 <= i < ts.len() implies (#[trigger] ts[i]).id <= max_id(ts) by {
            if i < ts.len() - 1 {
                assert(ts.drop_last()[i] == ts[i]);
            }
        }
    }
}

/// Law: the id of an added task is fresh, so adding keeps the ids unique.
pub proof fn lemma_add_keeps_ids_unique(ts: Seq<TaskView>, d: Seq<char>)
    requires
        unique_ids(ts),
    ensures
        unique_ids(spec_add(ts, d)),
{
    lemma_max_id_ge(ts);
}

/// Law: in a store with unique ids, no task carries a removed id any more;
/// removing an absent id changes nothing (the latter holds by definition of
/// `spec_remove`).
pub proof fn lemma_remove_erases_id(ts: Seq<TaskView>, id: nat)
    requires
        unique_ids(ts),
    ensures
        forall|k: int|
            0 <= k < spec_remove(ts, id).len() ==> (#[trigger] spec_remove(ts, id)[k]).id != id,
        !has_id(ts, id) ==> spec_remove(ts, id) == ts,
{
    if has_id(ts, id) {
        lemma_first_index(ts, id);
        let fi = first_index_of(ts, id);
        assert forall|k: int| 0 <= k < spec_remove(ts, id).len() implies (#[trigger] spec_remove(
            ts,
            id,
        )[k]).id != id by {
            if k < fi {
                assert(spec_remove(ts, id)[k] == ts[k]);
            } else {
                assert(spec_remove(ts, id)[k] == ts[k + 1]);
                assert(ts[fi].id == id);
            }
        }
    }
}

} // verus!
