//! The task type and its mathematical model.

use vstd::prelude::*;

verus! {

/// Mathematical value of one task: its order number, the characters of its
/// description, and its completion flag.
#[verifier::ext_equal]
pub struct TaskModel {
    pub order_number: nat,
    pub description: Seq<char>,
    pub done: bool,
}

/// One to-do item: a 1-based order number, a description, and a completion
/// flag.
pub struct Todo {
    pub order_number: usize,
    pub description: String,
    pub done: bool,
}

impl View for Todo {
    type V = TaskModel;

    open spec fn view(&self) -> TaskModel {
        TaskModel {
            order_number: self.order_number as nat,
            description: self.description@,
            done: self.done,
        }
    }
}

/// The models of a sequence of tasks, in order.
pub open spec fn models(ts: Seq<Todo>) -> Seq<TaskModel> {
    ts.map_values(|t: Todo| t@)
}

impl Todo {
    /// Makes a fresh, not yet completed task.
    pub fn new(order_number: usize, description: &str) -> (t: Todo)
        ensures
            t@ == (TaskModel {
                order_number: order_number as nat,
                description: description@,
                done: false,
            }),
    {
        Todo { order_number, description: description.to_owned(), done: false }
    }

    /// Sets the completion flag, whatever it was before.
    pub fn mark_done(&mut self)
        ensures
            final(self)@ == (TaskModel { done: true, ..old(self)@ }),
    {
        self.done = true;
    }

    /// Flips the completion flag.
    pub fn toggle_done(&mut self)
        ensures
            final(self)@ == (TaskModel { done: !old(self)@.done, ..old(self)@ }),
    {
        self.done = !self.done;
    }
}

} // verus!
