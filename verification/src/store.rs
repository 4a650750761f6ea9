//! The ordered task collection and its operations.

use vstd::prelude::*;
use crate::task::{Todo, TaskModel, models};
use crate::text::{trimmed, dec_digits, trim_text, fmt_usize};

verus! {

/// The collection's invariant: order numbers are the positions, 1-based,
/// dense and contiguous.
pub open spec fn wf_model(m: Seq<TaskModel>) -> bool {
    forall|i: int| 0 <= i < m.len() ==> (#[trigger] m[i]).order_number == i + 1
}

/// What adding a description does: trim it, append a pending task numbered
/// one past the old length.
pub open spec fn spec_add(m: Seq<TaskModel>, d: Seq<char>) -> Seq<TaskModel> {
    m.push(TaskModel { order_number: m.len() + 1, description: trimmed(d), done: false })
}

/// Every task renumbered to its position, 1-based.
pub open spec fn renumber(m: Seq<TaskModel>) -> Seq<TaskModel> {
    Seq::new(m.len(), |i: int| TaskModel { order_number: (i + 1) as nat, ..m[i] })
}

/// What removing the task with order number `n` does: drop it, renumber the
/// rest.
pub open spec fn spec_remove(m: Seq<TaskModel>, n: int) -> Seq<TaskModel> {
    renumber(m.remove(n - 1))
}

/// What marking the task with order number `n` done does.
pub open spec fn spec_mark_done(m: Seq<TaskModel>, n: int) -> Seq<TaskModel> {
    m.update(n - 1, TaskModel { done: true, ..m[n - 1] })
}

/// The rendered line of one task.
pub open spec fn spec_line(t: TaskModel) -> Seq<char> {
    dec_digits(t.order_number) + ": ["@ + (if t.done {
        "Done"@
    } else {
        "Pending"@
    }) + "] "@ + t.description
}

/// The rendered listing: one line per task, or a single informational line
/// for an empty collection.
pub open spec fn spec_lines(m: Seq<TaskModel>) -> Seq<Seq<char>> {
    if m.len() == 0 {
        seq!["No tasks to display."@]
    } else {
        m.map_values(|t: TaskModel| spec_line(t))
    }
}

/// The ordered, in-memory task collection.
pub struct TodoList {
    tasks: Vec<Todo>,
}

impl View for TodoList {
    type V = Seq<TaskModel>;

    closed spec fn view(&self) -> Seq<TaskModel> {
        models(self.tasks@)
    }
}

impl TodoList {
    pub open spec fn wf(&self) -> bool {
        wf_model(self@)
    }

    /// An empty collection.
    pub fn new() -> (l: TodoList)
        ensures
            l@ == Seq::<TaskModel>::empty(),
            l.wf(),
    {
        let l = TodoList { tasks: Vec::new() };
        proof {
            assert(l@ =~= Seq::<TaskModel>::empty());
        }
        l
    }

    /// A collection holding exactly the given tasks.
    pub fn from_tasks(tasks: Vec<Todo>) -> (l: TodoList)
        ensures
            l@ == models(tasks@),
    {
        TodoList { tasks }
    }

    pub fn len(&self) -> (n: usize)
        ensures
            n == self@.len(),
    {
        self.tasks.len()
    }

    /// The task at a 0-based position.
    pub fn task_at(&self, index: usize) -> (t: &Todo)
        requires
            index < self@.len(),
        ensures
            t@ == self@[index as int],
    {
        &self.tasks[index]
    }

    /// Trims the description and appends it as a new pending task, numbered
    /// one past the old length. A description that trims to nothing is
    /// accepted as it is — deliberately, so that what was typed in is what
    /// the list shows.
    pub fn add(&mut self, description: &str)
        requires
            old(self).wf(),
            old(self)@.len() < usize::MAX,
        ensures
            final(self)@ == spec_add(old(self)@, description@),
            final(self).wf(),
    {
        let n = self.tasks.len();
        let d = trim_text(description);
        let t = Todo::new(n + 1, d.as_str());
        self.tasks.push(t);
        proof {
            assert(self@ =~= spec_add(old(self)@, description@));
        }
    }

    /// Removes the task with the given 1-based order number and renumbers
    /// the rest; reports `false`, changing nothing, when no task has that
    /// number.
    pub fn remove(&mut self, task_number: usize) -> (ok: bool)
        requires
            old(self).wf(),
        ensures
            ok <==> 1 <= task_number <= old(self)@.len(),
            ok ==> final(self)@ == spec_remove(old(self)@, task_number as int),
            !ok ==> final(self)@ == old(self)@,
            final(self).wf(),
    {
        if task_number == 0 || task_number > self.tasks.len() {
            return false;
        }
        self.tasks.remove(task_number - 1);
        let ghost mid = self.tasks@;
        let n = self.tasks.len();
        let mut i: usize = 0;
        while i < n
            invariant
                n == self.tasks@.len(),
                n == mid.len(),
                i <= n,
                forall|k: int| i <= k < n ==> self.tasks@[k] == mid[k],
                forall|k: int| 0 <= k < i ==> #[trigger] self.tasks@[k]@ == (TaskModel {
                    order_number: (k + 1) as nat,
                    ..mid[k]@
                }),
            decreases n - i,
        {
            self.tasks[i].order_number = i + 1;
            i = i + 1;
        }
        proof {
            assert(self@ =~= spec_remove(old(self)@, task_number as int));
        }
        true
    }

    /// Sets the completion flag of the task with the given 1-based order
    /// number; reports `false`, changing nothing, when no task has that
    /// number.
    pub fn mark_done(&mut self, task_number: usize) -> (ok: bool)
        requires
            old(self).wf(),
        ensures
            ok <==> 1 <= task_number <= old(self)@.len(),
            ok ==> final(self)@ == spec_mark_done(old(self)@, task_number as int),
            !ok ==> final(self)@ == old(self)@,
            final(self).wf(),
    {
        if task_number == 0 || task_number > self.tasks.len() {
            return false;
        }
        self.tasks[task_number - 1].done = true;
        proof {
            assert(self@ =~= spec_mark_done(old(self)@, task_number as int));
        }
        true
    }

    /// Renders the listing: one line per task in order, or the single
    /// informational line for an empty collection.
    pub fn list_lines(&self) -> (lines: Vec<String>)
        ensures
            lines@.len() == spec_lines(self@).len(),
            forall|i: int| 0 <= i < lines@.len() ==> #[trigger] lines@[i]@ == spec_lines(self@)[i],
    {
        let n = self.tasks.len();
        let mut lines: Vec<String> = Vec::new();
        if n == 0 {
            lines.push("No tasks to display.".to_owned());
            return lines;
        }
        let mut i: usize = 0;
        while i < n
            invariant
                0 < n == self@.len(),
                i <= n,
                lines@.len() == i,
                forall|k: int| 0 <= k < i ==> #[trigger] lines@[k]@ == spec_lines(self@)[k],
            decreases n - i,
        {
            let t = &self.tasks[i];
            let mut line = fmt_usize(t.order_number);
            line.append(": [");
            if t.done {
                line.append("Done");
            } else {
                line.append("Pending");
            }
            line.append("] ");
            line.append(t.description.as_str());
            proof {
                assert(line@ =~= spec_line(self@[i as int]));
            }
            lines.push(line);
            i = i + 1;
        }
        lines
    }
}

// --- laws ---

/// Removing task `n` keeps every earlier task in place and shifts every
/// later one down, renumbered contiguously; nothing else changes.
pub proof fn lemma_remove_renumbers(m: Seq<TaskModel>, n: int)
    requires
        1 <= n <= m.len(),
    ensures
        spec_remove(m, n).len() == m.len() - 1,
        wf_model(spec_remove(m, n)),
        forall|i: int| 0 <= i < n - 1 ==> (#[trigger] spec_remove(m, n)[i]).description
            == m[i].description && spec_remove(m, n)[i].done == m[i].done,
        forall|i: int| n - 1 <= i < m.len() - 1 ==> (#[trigger] spec_remove(m, n)[i]).description
            == m[i + 1].description && spec_remove(m, n)[i].done == m[i + 1].done,
{
}

/// Marking a task done twice is the same as marking it once: the flag stays
/// `true` and nothing toggles back.
pub proof fn lemma_mark_done_idempotent(m: Seq<TaskModel>, n: int)
    requires
        1 <= n <= m.len(),
    ensures
        spec_mark_done(spec_mark_done(m, n), n) == spec_mark_done(m, n),
{
    assert(spec_mark_done(spec_mark_done(m, n), n) =~= spec_mark_done(m, n));
}

/// Every operation keeps the order numbers equal to `1..length` by
/// position: adding to, removing from, or marking done in a well-formed
/// collection yields a well-formed collection.
pub proof fn lemma_ops_preserve_numbering(m: Seq<TaskModel>, d: Seq<char>, n: int)
    requires
        wf_model(m),
    ensures
        wf_model(spec_add(m, d)),
        1 <= n <= m.len() ==> wf_model(spec_remove(m, n)),
        1 <= n <= m.len() ==> wf_model(spec_mark_done(m, n)),
{
}

} // verus!
