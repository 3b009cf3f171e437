//! The task store: one ordered collection of tasks and the four operations
//! on it.
//!
//! The store does no input or output. An operation that changes the
//! collection hands back, beside its reply, the snapshot that has to reach
//! durable storage; one that changes nothing hands back none. Every mutating
//! operation takes `&mut self`, so no two of them overlap and no reader sees
//! a collection half changed. A caller that shares one store between threads
//! keeps it behind a lock, and holds that lock until the snapshot is written.

use crate::history::{applied, loaded, written, Operation};
use crate::model::{
    added, flipped, has_id, lemma_added_well_formed, lemma_first_is_position, lemma_removed_len,
    lemma_removed_well_formed, lemma_toggled_well_formed, new_task, next_id, position, removed,
    survives, toggled, well_formed,
};
use crate::task::{Task, TaskView};
use vstd::prelude::*;

verus! {

/// Why an operation did nothing.
#[derive(Debug, Clone, Copy, PartialEq, Eq, Structural)]
pub enum StoreError {
    /// No task in the collection has the id that was asked for.
    NotFound,
}

/// What an operation hands back.
#[derive(Debug, PartialEq, Eq)]
pub struct Outcome<T> {
    /// The operation's answer to its caller.
    pub reply: T,
    /// The whole collection as it stands after the operation, where the
    /// operation changed it: the caller overwrites durable storage with it.
    /// `None` where nothing changed and nothing is to be written.
    pub persist: Option<Vec<Task>>,
}

/// The collection of tasks, in the order in which they were created.
pub struct TaskStore {
    tasks: Vec<Task>,
}

impl View for TaskStore {
    type V = Seq<TaskView>;

    closed spec fn view(&self) -> Seq<TaskView> {
        self.tasks.deep_view()
    }
}

impl TaskStore {
    /// A store without tasks.
    pub fn new() -> (store: TaskStore)
        ensures
            store@ == Seq::<TaskView>::empty(),
            well_formed(store@),
    {
        let store = TaskStore { tasks: Vec::new() };
        assert(store.tasks.deep_view() =~= Seq::<TaskView>::empty());
        store
    }

    /// The store at startup. `persisted` is what durable storage gave:
    /// the tasks that were read from it, or `None` where there was nothing to
    /// read, or what was there could not be read or understood. The store
    /// then starts empty; that is no failure.
    pub fn load_tasks(persisted: Option<Vec<Task>>) -> (store: TaskStore)
        ensures
            store@ == loaded(persisted.deep_view()),
    {
        match persisted {
            Some(tasks) => TaskStore { tasks },
            None => TaskStore::new(),
        }
    }

    /// A snapshot of the collection, in its current order. Nothing changes
    /// and nothing is to be written.
    pub fn list_tasks(&self) -> (snapshot: Vec<Task>)
        ensures
            snapshot.deep_view() == self@,
    {
        let mut snapshot: Vec<Task> = Vec::new();
        let mut i: usize = 0;
        while i < self.tasks.len()
            invariant
                i <= self.tasks.len(),
                snapshot.len() == i,
                forall|j: int| 0 <= j < i ==> snapshot@[j]@ == self.tasks@[j]@,
            decreases self.tasks.len() - i,
        {
            snapshot.push(self.tasks[i].clone());
            i += 1;
        }
        assert(snapshot.deep_view() =~= self.tasks.deep_view());
        snapshot
    }

    /// Whether the id that the next add would assign still fits the machine's
    /// word: the one thing `add_task` asks of its caller.
    pub fn can_add(&self) -> (fits: bool)
        ensures
            fits == (next_id(self@) <= usize::MAX),
    {
        let n = self.tasks.len();
        n == 0 || self.tasks[n - 1].id < usize::MAX
    }

    /// Creates a task and puts it at the end of the collection. Its id is one
    /// more than the id of the task that stood last, or 1 in an empty store;
    /// it is not done. The reply is the new task, and the new collection is
    /// to be written.
    pub fn add_task(&mut self, description: String, priority: u8) -> (out: Outcome<Task>)
        requires
            next_id(old(self)@) <= usize::MAX,
        ensures
            final(self)@ == applied(old(self)@, Operation::Add(description@, priority)),
            out.persist.deep_view() == written(old(self)@, Operation::Add(description@, priority)),
            out.reply@ == new_task(old(self)@, description@, priority),
            well_formed(old(self)@) ==> well_formed(final(self)@),
    {
        let id: usize = match self.tasks.last() {
            Some(last) => last.id + 1,
            None => 1,
        };
        let task = Task { id, description, done: false, priority };
        self.tasks.push(task.clone());
        proof {
            assert(self.tasks.deep_view() =~= added(old(self)@, description@, priority));
            if well_formed(old(self)@) {
                lemma_added_well_formed(old(self)@, description@, priority);
            }
        }
        let snapshot = self.list_tasks();
        Outcome { reply: task, persist: Some(snapshot) }
    }

    /// Inverts the completion flag of the first task with this id, in
    /// collection order. The reply is the task as it now stands, and the new
    /// collection is to be written. Where no task has the id, the reply is
    /// `NotFound`, the collection is unchanged and nothing is to be written.
    pub fn toggle_done(&mut self, id: usize) -> (out: Outcome<Result<Task, StoreError>>)
        ensures
            final(self)@ == applied(old(self)@, Operation::ToggleDone(id as nat)),
            out.persist.deep_view() == written(old(self)@, Operation::ToggleDone(id as nat)),
            match out.reply {
                Ok(task) => {
                    &&& has_id(old(self)@, id as nat)
                    &&& task@ == flipped(old(self)@[position(old(self)@, id as nat)])
                },
                Err(error) => error == StoreError::NotFound && !has_id(old(self)@, id as nat),
            },
            !has_id(old(self)@, id as nat) ==> final(self)@ == old(self)@,
            well_formed(old(self)@) ==> well_formed(final(self)@),
    {
        let mut i: usize = 0;
        while i < self.tasks.len()
            invariant
                i <= self.tasks.len(),
                *self == *old(self),
                forall|j: int| 0 <= j < i ==> self@[j].id != id,
            decreases self.tasks.len() - i,
        {
            if self.tasks[i].id == id {
                let done = !self.tasks[i].done;
                self.tasks[i].done = done;
                let task = self.tasks[i].clone();
                proof {
                    lemma_first_is_position(old(self)@, id as nat, i as int);
                    assert(self.tasks.deep_view() =~= toggled(old(self)@, id as nat));
                    if well_formed(old(self)@) {
                        lemma_toggled_well_formed(old(self)@, id as nat);
                    }
                }
                let snapshot = self.list_tasks();
                return Outcome { reply: Ok(task), persist: Some(snapshot) };
            }
            i += 1;
        }
        Outcome { reply: Err(StoreError::NotFound), persist: None }
    }

    /// Takes every task with this id out of the collection; the others keep
    /// their order. Where the collection became shorter, the reply is `Ok`
    /// and the new collection is to be written. Where no task has the id, the
    /// reply is `NotFound`, the collection is unchanged and nothing is to be
    /// written.
    pub fn remove_task(&mut self, id: usize) -> (out: Outcome<Result<(), StoreError>>)
        ensures
            final(self)@ == applied(old(self)@, Operation::Remove(id as nat)),
            out.persist.deep_view() == written(old(self)@, Operation::Remove(id as nat)),
            out.reply == if has_id(old(self)@, id as nat) {
                Ok::<(), StoreError>(())
            } else {
                Err(StoreError::NotFound)
            },
            !has_id(old(self)@, id as nat) ==> final(self)@ == old(self)@,
            well_formed(old(self)@) ==> well_formed(final(self)@),
    {
        let len_before = self.tasks.len();
        let ghost seen: int = 0;
        let mut i: usize = 0;
        while i < self.tasks.len()
            invariant
                0 <= seen <= old(self)@.len(),
                i <= self.tasks.len(),
                i == removed(old(self)@.take(seen), id as nat).len(),
                self@ == removed(old(self)@.take(seen), id as nat) + old(self)@.skip(seen),
            decreases self.tasks.len() - i,
        {
            proof {
                assert(self@[i as int] == old(self)@[seen]);
                assert(old(self)@.take(seen + 1) =~= old(self)@.take(seen).push(old(self)@[seen]));
                old(self)@.take(seen).lemma_filter_push(old(self)@[seen], survives(id as nat));
            }
            if self.tasks[i].id == id {
                let ghost before = self.tasks.deep_view();
                self.tasks.remove(i);
                proof {
                    assert(self.tasks.deep_view() =~= before.remove(i as int));
                    assert(self@ =~= removed(old(self)@.take(seen + 1), id as nat) + old(self)@.skip(
                        seen + 1,
                    ));
                    seen = seen + 1;
                }
            } else {
                i += 1;
                proof {
                    assert(self@ =~= removed(old(self)@.take(seen + 1), id as nat) + old(self)@.skip(
                        seen + 1,
                    ));
                    seen = seen + 1;
                }
            }
        }
        proof {
            assert(old(self)@.take(seen) =~= old(self)@);
            assert(self@ =~= removed(old(self)@, id as nat));
            lemma_removed_len(old(self)@, id as nat);
            if well_formed(old(self)@) {
                lemma_removed_well_formed(old(self)@, id as nat);
            }
        }
        if self.tasks.len() < len_before {
            let snapshot = self.list_tasks();
            Outcome { reply: Ok(()), persist: Some(snapshot) }
        } else {
            Outcome { reply: Err(StoreError::NotFound), persist: None }
        }
    }
}

} // verus!
