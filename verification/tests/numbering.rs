use task_store::store::TaskStore;
use task_store::task::Task;

fn task(id: usize, description: &str, done: bool, priority: u8) -> Task {
    Task { id, description: description.to_string(), done, priority }
}

fn ids(store: &TaskStore) -> Vec<usize> {
    let mut out = Vec::new();
    for t in store.list_tasks() {
        out.push(t.id);
    }
    out
}

#[test]
fn adds_in_a_row_count_up_from_one() {
    let mut store = TaskStore::new();
    for expected in 1..=20usize {
        let out = store.add_task(format!("task {}", expected), 0);
        assert_eq!(out.reply.id, expected);
    }
    assert_eq!(ids(&store), (1..=20usize).collect::<Vec<usize>>());
}

#[test]
fn adds_continue_from_the_last_loaded_id() {
    let mut store = TaskStore::load_tasks(Some(vec![task(41, "x", false, 0)]));
    assert_eq!(store.add_task("y".to_string(), 0).reply.id, 42);
    assert_eq!(store.add_task("z".to_string(), 0).reply.id, 43);
}

#[test]
fn toggles_between_adds_do_not_disturb_numbering() {
    let mut store = TaskStore::new();
    assert_eq!(store.add_task("a".to_string(), 0).reply.id, 1);
    store.toggle_done(1);
    assert_eq!(store.add_task("b".to_string(), 0).reply.id, 2);
    store.toggle_done(1);
    store.toggle_done(2);
    store.toggle_done(9);
    assert_eq!(store.add_task("c".to_string(), 0).reply.id, 3);
}

#[test]
fn removing_an_inner_task_does_not_disturb_numbering() {
    let mut store = TaskStore::new();
    store.add_task("a".to_string(), 0);
    store.add_task("b".to_string(), 0);
    store.add_task("c".to_string(), 0);
    store.remove_task(2);
    assert_eq!(store.add_task("d".to_string(), 0).reply.id, 4);
    assert_eq!(ids(&store), vec![1, 3, 4]);
}

#[test]
fn removing_the_last_task_hands_its_id_to_the_next_add() {
    let mut store = TaskStore::new();
    store.add_task("a".to_string(), 0);
    store.add_task("b".to_string(), 0);
    store.add_task("c".to_string(), 0);
    store.remove_task(3);
    assert_eq!(store.add_task("d".to_string(), 0).reply.id, 3);
    assert_eq!(ids(&store), vec![1, 2, 3]);
}

#[test]
fn removing_every_task_starts_again_at_one() {
    let mut store = TaskStore::new();
    store.add_task("a".to_string(), 0);
    store.add_task("b".to_string(), 0);
    store.remove_task(1);
    store.remove_task(2);
    assert_eq!(store.add_task("c".to_string(), 0).reply, task(1, "c", false, 0));
}

#[test]
fn numbering_follows_the_last_position_not_the_largest_id() {
    let mut store =
        TaskStore::load_tasks(Some(vec![task(5, "five", false, 0), task(1, "one", false, 0)]));
    assert_eq!(store.add_task("next".to_string(), 0).reply.id, 2);
    assert_eq!(ids(&store), vec![5, 1, 2]);
}

#[test]
fn a_collection_loaded_out_of_order_can_come_to_hold_an_id_twice() {
    let mut store =
        TaskStore::load_tasks(Some(vec![task(2, "two", false, 0), task(1, "one", false, 0)]));
    assert_eq!(store.add_task("again".to_string(), 7).reply.id, 2);
    assert_eq!(ids(&store), vec![2, 1, 2]);

    let out = store.toggle_done(2);
    assert_eq!(out.reply, Ok(task(2, "two", true, 0)));
    assert_eq!(
        store.list_tasks(),
        vec![task(2, "two", true, 0), task(1, "one", false, 0), task(2, "again", false, 7)]
    );

    let out = store.remove_task(2);
    assert_eq!(out.reply, Ok(()));
    assert_eq!(out.persist, Some(vec![task(1, "one", false, 0)]));
    assert_eq!(store.list_tasks(), vec![task(1, "one", false, 0)]);
}

#[test]
fn ids_stay_unique_from_an_empty_start() {
    let mut store = TaskStore::new();
    for round in 0..30usize {
        store.add_task(format!("t{}", round), 1);
        if round % 3 == 0 {
            store.remove_task(round / 2 + 1);
        }
        if round % 4 == 1 {
            store.toggle_done(round);
        }
        let seen = ids(&store);
        for i in 0..seen.len() {
            assert!(seen[i] >= 1);
            for j in (i + 1)..seen.len() {
                assert!(seen[i] < seen[j]);
            }
        }
    }
}

#[test]
fn can_add_until_the_last_id_is_the_largest_number() {
    let store = TaskStore::load_tasks(Some(vec![task(usize::MAX - 1, "a", false, 0)]));
    assert!(store.can_add());
    let mut store = store;
    assert_eq!(store.add_task("b".to_string(), 0).reply.id, usize::MAX);
    assert!(!store.can_add());
    assert_eq!(store.remove_task(usize::MAX).reply, Ok(()));
    assert!(store.can_add());
}

#[test]
fn can_add_looks_at_the_last_task_only() {
    let store = TaskStore::load_tasks(Some(vec![
        task(usize::MAX, "big", false, 0),
        task(3, "small", false, 0),
    ]));
    assert!(store.can_add());
    let store = TaskStore::load_tasks(Some(vec![
        task(3, "small", false, 0),
        task(usize::MAX, "big", false, 0),
    ]));
    assert!(!store.can_add());
}
