//! The task collection as a mathematical sequence, and what each store
//! operation makes of it.
//!
//! Everything here is ghost code. The executable store states its contracts
//! over these functions, and the lemmas say what the functions mean.

use crate::task::TaskView;
use vstd::prelude::*;

verus! {

/// The id that the next added task receives: one more than the id of the task
/// that stands last, or 1 in an empty collection. It looks at the last
/// position only, never at the largest id.
pub open spec fn next_id(tasks: Seq<TaskView>) -> nat {
    if tasks.len() == 0 {
        1
    } else {
        tasks.last().id + 1
    }
}

/// The task that an add creates in `tasks`.
pub open spec fn new_task(tasks: Seq<TaskView>, description: Seq<char>, priority: u8) -> TaskView {
    TaskView { id: next_id(tasks), description, done: false, priority }
}

/// The collection after an add: the new task stands at the end.
pub open spec fn added(tasks: Seq<TaskView>, description: Seq<char>, priority: u8) -> Seq<
    TaskView,
> {
    tasks.push(new_task(tasks, description, priority))
}

/// Some task in the collection has this id.
pub open spec fn has_id(tasks: Seq<TaskView>, id: nat) -> bool {
    exists|i: int| 0 <= i < tasks.len() && tasks[i].id == id
}

/// Position `i` holds the first task with this id, in collection order.
pub open spec fn is_first_with_id(tasks: Seq<TaskView>, id: nat, i: int) -> bool {
    &&& 0 <= i < tasks.len()
    &&& tasks[i].id == id
    &&& forall|j: int| 0 <= j < i ==> tasks[j].id != id
}

/// The position of the first task with this id. It means something only
/// where `has_id` holds.
pub open spec fn position(tasks: Seq<TaskView>, id: nat) -> int {
    choose|i: int| is_first_with_id(tasks, id, i)
}

/// The same task with its completion flag inverted.
pub open spec fn flipped(task: TaskView) -> TaskView {
    TaskView { done: !task.done, ..task }
}

/// The collection after a toggle: the first task with this id is flipped in
/// place, and a collection without the id stays as it is.
pub open spec fn toggled(tasks: Seq<TaskView>, id: nat) -> Seq<TaskView> {
    if has_id(tasks, id) {
        let i = position(tasks, id);
        tasks.update(i, flipped(tasks[i]))
    } else {
        tasks
    }
}

/// The test that a remove applies to each task: it stays if its id differs.
pub open spec fn survives(id: nat) -> spec_fn(TaskView) -> bool {
    |task: TaskView| task.id != id
}

/// The collection after a remove: every task with this id is gone, the others
/// keep their order.
pub open spec fn removed(tasks: Seq<TaskView>, id: nat) -> Seq<TaskView> {
    tasks.filter(survives(id))
}

/// No two tasks share an id.
pub open spec fn ids_unique(tasks: Seq<TaskView>) -> bool {
    forall|i: int, j: int|
        0 <= i < tasks.len() && 0 <= j < tasks.len() && i != j ==> tasks[i].id != tasks[j].id
}

/// Ids are positive and grow strictly along the collection. A collection
/// that was only ever built by the store's operations, starting empty, is of
/// this shape; one that was loaded from elsewhere need not be.
pub open spec fn well_formed(tasks: Seq<TaskView>) -> bool {
    &&& forall|i: int| 0 <= i < tasks.len() ==> tasks[i].id >= 1
    &&& forall|i: int, j: int| 0 <= i < j < tasks.len() ==> tasks[i].id < tasks[j].id
}

/// Below any task with the id stands a first one.
pub proof fn lemma_first_with_id_exists(tasks: Seq<TaskView>, id: nat, k: int) -> (i: int)
    requires
        0 <= k < tasks.len(),
        tasks[k].id == id,
    ensures
        is_first_with_id(tasks, id, i),
        i <= k,
    decreases k,
{
    if forall|j: int| 0 <= j < k ==> tasks[j].id != id {
        k
    } else {
        let j = choose|j: int| 0 <= j < k && tasks[j].id == id;
        lemma_first_with_id_exists(tasks, id, j)
    }
}

/// Where the id occurs, `position` is the place of its first occurrence.
pub proof fn lemma_position_is_first(tasks: Seq<TaskView>, id: nat)
    requires
        has_id(tasks, id),
    ensures
        is_first_with_id(tasks, id, position(tasks, id)),
{
    let k = choose|k: int| 0 <= k < tasks.len() && tasks[k].id == id;
    let i = lemma_first_with_id_exists(tasks, id, k);
}

/// A first occurrence is the only one: it is what `position` names.
pub proof fn lemma_first_is_position(tasks: Seq<TaskView>, id: nat, i: int)
    requires
        is_first_with_id(tasks, id, i),
    ensures
        has_id(tasks, id),
        position(tasks, id) == i,
{
    lemma_position_is_first(tasks, id);
}

/// A toggle keeps every id, description and priority, and the length.
pub proof fn lemma_toggled_keeps_ids(tasks: Seq<TaskView>, id: nat)
    ensures
        toggled(tasks, id).len() == tasks.len(),
        forall|i: int|
            0 <= i < tasks.len() ==> {
                &&& (#[trigger] toggled(tasks, id)[i]).id == tasks[i].id
                &&& toggled(tasks, id)[i].description == tasks[i].description
                &&& toggled(tasks, id)[i].priority == tasks[i].priority
            },
        has_id(toggled(tasks, id), id) == has_id(tasks, id),
        next_id(toggled(tasks, id)) == next_id(tasks),
{
    if has_id(tasks, id) {
        lemma_position_is_first(tasks, id);
        let i = position(tasks, id);
        assert(toggled(tasks, id)[i].id == id);
    } else {
        assert(toggled(tasks, id) == tasks);
    }
}

/// A remove takes nothing but tasks with the id: what is left is as long as
/// before exactly when the id did not occur, and is then the same collection.
pub proof fn lemma_removed_len(tasks: Seq<TaskView>, id: nat)
    ensures
        removed(tasks, id).len() <= tasks.len(),
        removed(tasks, id).len() == tasks.len() <==> !has_id(tasks, id),
        !has_id(tasks, id) ==> removed(tasks, id) == tasks,
        !has_id(removed(tasks, id), id),
    decreases tasks.len(),
{
    reveal(Seq::filter);
    if tasks.len() > 0 {
        let front = tasks.drop_last();
        lemma_removed_len(front, id);
        if has_id(front, id) {
            let k = choose|k: int| 0 <= k < front.len() && front[k].id == id;
            assert(tasks[k].id == id);
        }
        if tasks.last().id == id {
            assert(tasks[tasks.len() - 1].id == id);
        }
        if has_id(tasks, id) {
            let k = choose|k: int| 0 <= k < tasks.len() && tasks[k].id == id;
            if k < front.len() {
                assert(front[k].id == id);
            }
        }
        if !has_id(tasks, id) {
            assert(removed(tasks, id) =~= tasks);
        }
        if has_id(removed(tasks, id), id) {
            let r = removed(tasks, id);
            let k = choose|k: int| 0 <= k < r.len() && r[k].id == id;
            if k < removed(front, id).len() {
                assert(removed(front, id)[k].id == id);
            }
        }
    }
}

/// Every task that a remove leaves was there before, at the same place or
/// further back, and the tasks that are left keep their order.
pub proof fn lemma_removed_is_subsequence(tasks: Seq<TaskView>, id: nat, k: int) -> (i: int)
    requires
        0 <= k < removed(tasks, id).len(),
    ensures
        k <= i < tasks.len(),
        tasks[i] == removed(tasks, id)[k],
        tasks[i].id != id,
        removed(tasks.take(i), id).len() == k,
    decreases tasks.len(),
{
    reveal(Seq::filter);
    let front = tasks.drop_last();
    let last = tasks.len() - 1;
    if tasks.last().id != id && k == removed(front, id).len() {
        assert(tasks.take(last) =~= front);
        last
    } else {
        let i = lemma_removed_is_subsequence(front, id, k);
        assert(front.take(i) =~= tasks.take(i));
        i
    }
}

/// Ids that grow strictly are unique.
pub proof fn lemma_well_formed_ids_unique(tasks: Seq<TaskView>)
    requires
        well_formed(tasks),
    ensures
        ids_unique(tasks),
{
    assert forall|i: int, j: int|
        0 <= i < tasks.len() && 0 <= j < tasks.len() && i != j implies tasks[i].id
        != tasks[j].id by {
        if i < j {
            assert(tasks[i].id < tasks[j].id);
        } else {
            assert(tasks[j].id < tasks[i].id);
        }
    }
}

/// An add keeps a well-formed collection well-formed: the new id lies above
/// every id in it.
pub proof fn lemma_added_well_formed(tasks: Seq<TaskView>, description: Seq<char>, priority: u8)
    requires
        well_formed(tasks),
    ensures
        well_formed(added(tasks, description, priority)),
        forall|i: int| 0 <= i < tasks.len() ==> tasks[i].id < next_id(tasks),
        !has_id(tasks, next_id(tasks)),
{
    let after = added(tasks, description, priority);
    assert forall|i: int| 0 <= i < tasks.len() implies tasks[i].id < next_id(tasks) by {
        if i < tasks.len() - 1 {
            assert(tasks[i].id < tasks[tasks.len() - 1].id);
        }
    }
    assert forall|i: int, j: int| 0 <= i < j < after.len() implies after[i].id < after[j].id by {
        if j < tasks.len() {
            assert(tasks[i].id < tasks[j].id);
        }
    }
}

/// A toggle keeps a well-formed collection well-formed.
pub proof fn lemma_toggled_well_formed(tasks: Seq<TaskView>, id: nat)
    requires
        well_formed(tasks),
    ensures
        well_formed(toggled(tasks, id)),
{
    lemma_toggled_keeps_ids(tasks, id);
    let after = toggled(tasks, id);
    assert forall|i: int, j: int| 0 <= i < j < after.len() implies after[i].id < after[j].id by {
        assert(tasks[i].id < tasks[j].id);
    }
}

/// A remove keeps a well-formed collection well-formed.
pub proof fn lemma_removed_well_formed(tasks: Seq<TaskView>, id: nat)
    requires
        well_formed(tasks),
    ensures
        well_formed(removed(tasks, id)),
{
    let after = removed(tasks, id);
    assert forall|i: int| 0 <= i < after.len() implies after[i].id >= 1 by {
        let a = lemma_removed_is_subsequence(tasks, id, i);
    }
    assert forall|i: int, j: int| 0 <= i < j < after.len() implies after[i].id < after[j].id by {
        let a = lemma_removed_is_subsequence(tasks, id, i);
        let b = lemma_removed_is_subsequence(tasks, id, j);
        if b <= a {
            lemma_removed_take_len_grows(tasks, id, b, a);
        }
        assert(tasks[a].id < tasks[b].id);
    }
}

/// A longer front of the collection leaves at least as many tasks.
pub proof fn lemma_removed_take_len_grows(tasks: Seq<TaskView>, id: nat, a: int, b: int)
    requires
        0 <= a <= b <= tasks.len(),
    ensures
        removed(tasks.take(a), id).len() <= removed(tasks.take(b), id).len(),
    decreases b - a,
{
    reveal(Seq::filter);
    if a < b {
        lemma_removed_take_len_grows(tasks, id, a, b - 1);
        assert(tasks.take(b).drop_last() =~= tasks.take(b - 1));
    }
}

/// In a well-formed collection a remove takes at most one task: the one at
/// the id's position.
pub proof fn lemma_removed_takes_one(tasks: Seq<TaskView>, id: nat)
    requires
        well_formed(tasks),
        has_id(tasks, id),
    ensures
        removed(tasks, id) == tasks.remove(position(tasks, id)),
    decreases tasks.len(),
{
    reveal(Seq::filter);
    lemma_position_is_first(tasks, id);
    let p = position(tasks, id);
    let front = tasks.drop_last();
    let last = tasks.len() - 1;
    if p == last {
        assert(!has_id(front, id)) by {
            if has_id(front, id) {
                let k = choose|k: int| 0 <= k < front.len() && front[k].id == id;
                assert(tasks[k].id == id);
            }
        }
        lemma_removed_len(front, id);
        assert(tasks.remove(p) =~= front);
    } else {
        assert(tasks[p].id < tasks[last].id);
        assert(is_first_with_id(front, id, p)) by {
            assert(front[p] == tasks[p]);
            assert forall|j: int| 0 <= j < p implies front[j].id != id by {
                assert(front[j] == tasks[j]);
            }
        }
        lemma_first_is_position(front, id, p);
        lemma_removed_takes_one(front, id);
        assert(tasks.remove(p) =~= front.remove(p).push(tasks.last()));
    }
}

/// Toggling the same id twice gives the collection back as it was: the
/// second toggle finds the task that the first one flipped, and flips it to
/// what it was at the start.
pub proof fn lemma_toggled_twice(tasks: Seq<TaskView>, id: nat)
    ensures
        toggled(toggled(tasks, id), id) == tasks,
        has_id(tasks, id) ==> {
            let once = toggled(tasks, id);
            &&& has_id(once, id)
            &&& position(once, id) == position(tasks, id)
            &&& once[position(once, id)].done != tasks[position(tasks, id)].done
            &&& flipped(once[position(once, id)]) == tasks[position(tasks, id)]
        },
{
    if has_id(tasks, id) {
        lemma_position_is_first(tasks, id);
        let i = position(tasks, id);
        let once = toggled(tasks, id);
        assert(is_first_with_id(once, id, i)) by {
            assert(once[i].id == id);
            assert forall|j: int| 0 <= j < i implies once[j].id != id by {
                assert(once[j] == tasks[j]);
            }
        }
        lemma_first_is_position(once, id, i);
        assert(flipped(flipped(tasks[i])) == tasks[i]);
        assert(toggled(once, id) =~= tasks);
    }
}

} // verus!
