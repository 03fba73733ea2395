//! The task record: one todo item with identity, text and completion flag,
//! its mathematical model, and its one-line text rendering.

use vstd::prelude::*;
use crate::numeral::{dec_digits, push_dec};
use crate::text::{str_chars, string_of_chars};

verus! {

/// Mathematical model of one task.
pub ghost struct TaskView {
    pub id: nat,
    pub description: Seq<char>,
    pub completed: bool,
}

/// One todo item: identity, text, completion flag.
#[derive(Debug, Clone, PartialEq, Eq)]
pub struct Task {
    pub id: usize,
    pub description: String,
    pub completed: bool,
}

impl View for Task {
    type V = TaskView;

    open spec fn view(&self) -> TaskView {
        TaskView { id: self.id as nat, description: self.description@, completed: self.completed }
    }
}

/// The models of a sequence of tasks.
pub open spec fn seq_view(ts: Seq<Task>) -> Seq<TaskView> {
    ts.map_values(|t: Task| t@)
}

/// The status mark of a task line: `[x]` when done, `[ ]` when not.
pub open spec fn status_text(completed: bool) -> Seq<char> {
    if completed {
        " [x]: "@
    } else {
        " [ ]: "@
    }
}

/// One line of the listing: `<id> [x|` `]: <description>`.
pub open spec fn line_of(t: TaskView) -> Seq<char> {
    dec_digits(t.id) + status_text(t.completed) + t.description
}

/// Appends the line for `t` (without a newline) to `out`.
pub fn push_line(out: &mut Vec<char>, t: &Task)
    ensures
        final(out)@ == old(out)@ + line_of(t@),
{
    push_dec(out, t.id);
    if t.completed {
        out.push(' ');
        out.push('[');
        out.push('x');
        out.push(']');
        out.push(':');
        out.push(' ');
        proof {
            reveal_strlit(" [x]: ");
            assert(out@ =~= old(out)@ + dec_digits(t.id as nat) + status_text(true));
        }
    } else {
        out.push(' ');
        out.push('[');
        out.push(' ');
        out.push(']');
        out.push(':');
        out.push(' ');
        proof {
            reveal_strlit(" [ ]: ");
            assert(out@ =~= old(out)@ + dec_digits(t.id as nat) + status_text(false));
        }
    }
    let cs = str_chars(t.description.as_str());
    let mut k: usize = 0;
    while k < cs.len()
        invariant
            k <= cs@.len(),
            cs@ == t.description@,
            out@ == old(out)@ + dec_digits(t.id as nat) + status_text(t.completed)
                + cs@.subrange(0, k as int),
        decreases cs@.len() - k,
    {
        out.push(cs[k]);
        k = k + 1;
        proof {
            assert(out@ =~= old(out)@ + dec_digits(t.id as nat) + status_text(t.completed)
                + cs@.subrange(0, k as int));
        }
    }
    proof {
        assert(out@ =~= old(out)@ + line_of(t@));
    }
}

impl Task {
    /// The listing line of the task, as a `String`.
    pub fn render_line(&self) -> (r: String)
        ensures
            r@ == line_of(self@),
    {
        let mut out: Vec<char> = Vec::new();
        push_line(&mut out, self);
        string_of_chars(&out)
    }
}

} // verus!
