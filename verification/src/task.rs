//! A single task record and its mathematical model.

use vstd::prelude::*;

verus! {

/// What a task is, as a mathematical value.
pub struct TaskView {
    pub id: nat,
    pub description: Seq<char>,
    pub done: bool,
    pub priority: u8,
}

/// One unit of work.
#[derive(Debug, PartialEq, Eq)]
pub struct Task {
    /// Assigned by the store, never by a client.
    pub id: usize,
    pub description: String,
    pub done: bool,
    pub priority: u8,
}

impl View for Task {
    type V = TaskView;

    open spec fn view(&self) -> TaskView {
        TaskView {
            id: self.id as nat,
            description: self.description@,
            done: self.done,
            priority: self.priority,
        }
    }
}

impl DeepView for Task {
    type V = TaskView;

    open spec fn deep_view(&self) -> TaskView {
        self@
    }
}

impl Clone for Task {
    fn clone(&self) -> (copy: Task)
        ensures
            copy@ == self@,
    {
        Task {
            id: self.id,
            description: self.description.clone(),
            done: self.done,
            priority: self.priority,
        }
    }
}

} // verus!
