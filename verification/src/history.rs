//! The store as a state machine: what a mutating operation makes of the
//! collection, what it hands to durable storage, and what holds after any
//! number of operations.

use crate::model::{
    added, has_id, ids_unique, lemma_added_well_formed, lemma_position_is_first,
    lemma_removed_len, lemma_removed_well_formed, lemma_toggled_well_formed,
    lemma_well_formed_ids_unique, next_id, position, removed, toggled, well_formed,
};
use crate::task::TaskView;
use vstd::prelude::*;

verus! {

/// A mutating operation with its arguments.
pub enum Operation {
    /// Create a task with this description and priority.
    Add(Seq<char>, u8),
    /// Invert the completion flag of the first task with this id.
    ToggleDone(nat),
    /// Take out every task with this id.
    Remove(nat),
}

/// The collection after the operation.
pub open spec fn applied(tasks: Seq<TaskView>, op: Operation) -> Seq<TaskView> {
    match op {
        Operation::Add(description, priority) => added(tasks, description, priority),
        Operation::ToggleDone(id) => toggled(tasks, id),
        Operation::Remove(id) => removed(tasks, id),
    }
}

/// The operation finds what it works on: an add always does, a toggle and a
/// remove where some task has the id.
pub open spec fn takes_effect(tasks: Seq<TaskView>, op: Operation) -> bool {
    match op {
        Operation::Add(_, _) => true,
        Operation::ToggleDone(id) => has_id(tasks, id),
        Operation::Remove(id) => has_id(tasks, id),
    }
}

/// What the operation hands to durable storage: the whole new collection
/// where it takes effect, nothing where it does not.
pub open spec fn written(tasks: Seq<TaskView>, op: Operation) -> Option<Seq<TaskView>> {
    if takes_effect(tasks, op) {
        Some(applied(tasks, op))
    } else {
        None
    }
}

/// The collection that a store starts from: the tasks that durable storage
/// gave, or none where it gave nothing that could be read as tasks.
pub open spec fn loaded(persisted: Option<Seq<TaskView>>) -> Seq<TaskView> {
    match persisted {
        Some(tasks) => tasks,
        None => Seq::empty(),
    }
}

/// The collection after the operations of `ops`, carried out in order.
pub open spec fn replayed(tasks: Seq<TaskView>, ops: Seq<Operation>) -> Seq<TaskView>
    decreases ops.len(),
{
    if ops.len() == 0 {
        tasks
    } else {
        applied(replayed(tasks, ops.drop_last()), ops.last())
    }
}

/// What a load of durable storage gives after the operations of `ops`, where
/// it gave `tasks` before them and the caller carried out every write that
/// was handed to it, and no other.
pub open spec fn stored(tasks: Seq<TaskView>, ops: Seq<Operation>) -> Seq<TaskView>
    decreases ops.len(),
{
    if ops.len() == 0 {
        tasks
    } else {
        match written(replayed(tasks, ops.drop_last()), ops.last()) {
            Some(snapshot) => snapshot,
            None => stored(tasks, ops.drop_last()),
        }
    }
}

/// An operation hands something to durable storage exactly when it changes
/// the collection.
pub proof fn lemma_written_iff_changed(tasks: Seq<TaskView>, op: Operation)
    ensures
        written(tasks, op) is Some <==> applied(tasks, op) != tasks,
        written(tasks, op) is Some ==> written(tasks, op) == Some(applied(tasks, op)),
{
    match op {
        Operation::Add(description, priority) => {
            assert(applied(tasks, op).len() == tasks.len() + 1);
        },
        Operation::ToggleDone(id) => {
            if has_id(tasks, id) {
                lemma_position_is_first(tasks, id);
                let i = position(tasks, id);
                assert(applied(tasks, op)[i].done != tasks[i].done);
            }
        },
        Operation::Remove(id) => {
            lemma_removed_len(tasks, id);
        },
    }
}

/// A store that starts from what an operation wrote starts with the
/// collection as that operation left it: the same tasks with the same fields,
/// in the same order.
pub proof fn lemma_written_loads_back(tasks: Seq<TaskView>, op: Operation)
    requires
        takes_effect(tasks, op),
    ensures
        loaded(written(tasks, op)) == applied(tasks, op),
{
}

/// After any number of operations a load of durable storage gives the
/// collection as it stands in memory.
pub proof fn lemma_storage_mirrors_memory(tasks: Seq<TaskView>, ops: Seq<Operation>)
    ensures
        stored(tasks, ops) == replayed(tasks, ops),
        loaded(Some(stored(tasks, ops))) == replayed(tasks, ops),
    decreases ops.len(),
{
    if ops.len() > 0 {
        lemma_storage_mirrors_memory(tasks, ops.drop_last());
        lemma_written_iff_changed(replayed(tasks, ops.drop_last()), ops.last());
    }
}

/// Whatever came before it, an add puts one task at the end of the
/// collection, and that task's id is one more than the id of the task that
/// stood last just before it, or 1 where the collection was empty.
pub proof fn lemma_add_follows_last(tasks: Seq<TaskView>, ops: Seq<Operation>, k: int)
    requires
        0 <= k < ops.len(),
        ops[k] is Add,
    ensures
        ({
            let before = replayed(tasks, ops.take(k));
            let after = replayed(tasks, ops.take(k + 1));
            &&& after.len() == before.len() + 1
            &&& after.drop_last() == before
            &&& before.len() == 0 ==> after.last().id == 1
            &&& before.len() > 0 ==> after.last().id == before.last().id + 1
        }),
{
    assert(ops.take(k + 1).drop_last() =~= ops.take(k));
    assert(ops.take(k + 1).last() == ops[k]);
    let before = replayed(tasks, ops.take(k));
    let after = replayed(tasks, ops.take(k + 1));
    assert(after.drop_last() =~= before);
}

/// Adds in a row number their tasks upwards in steps of one: the first new
/// task gets `next_id` of the collection they started from, and each further
/// one the id of the one before it plus 1. The tasks that were there stay
/// as they were.
pub proof fn lemma_adds_count_up(tasks: Seq<TaskView>, ops: Seq<Operation>)
    requires
        forall|k: int| 0 <= k < ops.len() ==> ops[k] is Add,
    ensures
        replayed(tasks, ops).len() == tasks.len() + ops.len(),
        replayed(tasks, ops).take(tasks.len() as int) == tasks,
        forall|k: int|
            0 <= k < ops.len() ==> (#[trigger] replayed(tasks, ops)[tasks.len() + k]).id
                == next_id(tasks) + k,
    decreases ops.len(),
{
    if ops.len() == 0 {
        assert(replayed(tasks, ops).take(tasks.len() as int) =~= tasks);
    } else {
        let front = ops.drop_last();
        lemma_adds_count_up(tasks, front);
        let before = replayed(tasks, front);
        let after = replayed(tasks, ops);
        assert(ops.last() is Add);
        assert(after.take(tasks.len() as int) =~= before.take(tasks.len() as int));
        assert forall|k: int| 0 <= k < ops.len() implies (#[trigger] after[tasks.len() + k]).id
            == next_id(tasks) + k by {
            if k < front.len() {
                assert(after[tasks.len() + k] == before[tasks.len() + k]);
            } else if front.len() > 0 {
                assert(before.last() == before[tasks.len() + (k - 1)]);
            }
        }
    }
}

/// No operation takes a well-formed collection out of that shape.
pub proof fn lemma_applied_well_formed(tasks: Seq<TaskView>, op: Operation)
    requires
        well_formed(tasks),
    ensures
        well_formed(applied(tasks, op)),
{
    match op {
        Operation::Add(description, priority) => {
            lemma_added_well_formed(tasks, description, priority);
        },
        Operation::ToggleDone(id) => {
            lemma_toggled_well_formed(tasks, id);
        },
        Operation::Remove(id) => {
            lemma_removed_well_formed(tasks, id);
        },
    }
}

/// A collection that starts well-formed stays so through any number of
/// operations, and so never holds two tasks with one id.
pub proof fn lemma_history_keeps_ids_unique(tasks: Seq<TaskView>, ops: Seq<Operation>)
    requires
        well_formed(tasks),
    ensures
        well_formed(replayed(tasks, ops)),
        ids_unique(replayed(tasks, ops)),
    decreases ops.len(),
{
    if ops.len() > 0 {
        lemma_history_keeps_ids_unique(tasks, ops.drop_last());
        lemma_applied_well_formed(replayed(tasks, ops.drop_last()), ops.last());
    }
    lemma_well_formed_ids_unique(replayed(tasks, ops));
}

} // verus!
