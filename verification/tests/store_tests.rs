use tasker::CompleteResult;
use tasker::RemoveResult;
use tasker::TaskManager;
use tasker::UncompleteResult;

#[test]
fn scenario_add_remove_complete_clear() {
    let mut m = TaskManager::default();
    let id1 = m.add_task(String::from("buy milk"));
    assert_eq!(id1, 1);
    assert_eq!(m.tasks.len(), 1);
    assert_eq!(m.tasks[0].id, 1);
    assert_eq!(m.tasks[0].description, "buy milk");
    assert!(!m.tasks[0].done);

    let id2 = m.add_task(String::from("walk dog"));
    assert_eq!(id2, 2);

    assert_eq!(m.remove_task("1"), RemoveResult::Removed);
    assert_eq!(m.tasks.len(), 1);
    assert_eq!(m.tasks[0].id, 1);
    assert_eq!(m.tasks[0].description, "walk dog");

    assert_eq!(m.complete_task("1"), CompleteResult::Completed);
    assert!(m.tasks[0].done);

    let removed = m.clear_completed();
    assert_eq!(removed, 1);
    assert!(m.tasks.is_empty());
}

#[test]
fn complete_on_empty_store_is_not_found() {
    let mut m = TaskManager::default();
    assert_eq!(m.complete_task("99"), CompleteResult::NotFound);
    assert!(m.tasks.is_empty());
}

#[test]
fn remove_with_invalid_id_touches_nothing() {
    let mut m = TaskManager::default();
    m.add_task(String::from("a"));
    assert_eq!(m.remove_task("abc"), RemoveResult::InvalidId);
    assert_eq!(m.tasks.len(), 1);
    assert_eq!(m.tasks[0].id, 1);
    assert_eq!(m.tasks[0].description, "a");
}

#[test]
fn uncomplete_already_undone_is_reported_and_changes_nothing() {
    let mut m = TaskManager::default();
    m.add_task(String::from("a"));
    assert_eq!(m.mark_undone("1"), UncompleteResult::AlreadyUndone);
    assert!(!m.tasks[0].done);
    assert_eq!(m.tasks[0].id, 1);
    assert_eq!(m.tasks.len(), 1);
}

#[test]
fn uncomplete_after_complete_undoes() {
    let mut m = TaskManager::default();
    m.add_task(String::from("a"));
    assert_eq!(m.complete_task("1"), CompleteResult::Completed);
    assert!(m.tasks[0].done);
    assert_eq!(m.mark_undone("1"), UncompleteResult::MarkedUndone);
    assert!(!m.tasks[0].done);
}

#[test]
fn uncomplete_missing_and_invalid() {
    let mut m = TaskManager::default();
    assert_eq!(m.mark_undone("3"), UncompleteResult::NotFound);
    assert_eq!(m.mark_undone("x"), UncompleteResult::InvalidId);
    assert_eq!(m.complete_task(""), CompleteResult::InvalidId);
}

#[test]
fn adds_assign_contiguous_ids() {
    let mut m = TaskManager::default();
    for k in 1..=5u32 {
        let id = m.add_task(format!("task {}", k));
        assert_eq!(id, k);
    }
    for (i, t) in m.tasks.iter().enumerate() {
        assert_eq!(t.id as usize, i + 1);
    }
}

#[test]
fn removal_renumbers_survivors_in_order() {
    let mut m = TaskManager::default();
    m.add_task(String::from("first"));
    m.add_task(String::from("second"));
    m.add_task(String::from("third"));
    assert_eq!(m.remove_task("2"), RemoveResult::Removed);
    assert_eq!(m.tasks.len(), 2);
    assert_eq!(m.tasks[0].id, 1);
    assert_eq!(m.tasks[0].description, "first");
    assert_eq!(m.tasks[1].id, 2);
    assert_eq!(m.tasks[1].description, "third");
}

#[test]
fn remove_missing_id_is_not_found() {
    let mut m = TaskManager::default();
    m.add_task(String::from("a"));
    assert_eq!(m.remove_task("7"), RemoveResult::NotFound);
    assert_eq!(m.tasks.len(), 1);
}

#[test]
fn clear_completed_twice_removes_nothing_more() {
    let mut m = TaskManager::default();
    m.add_task(String::from("a"));
    m.add_task(String::from("b"));
    m.add_task(String::from("c"));
    m.complete_task("1");
    m.complete_task("3");
    assert_eq!(m.clear_completed(), 2);
    assert_eq!(m.tasks.len(), 1);
    assert_eq!(m.tasks[0].id, 1);
    assert_eq!(m.tasks[0].description, "b");
    assert_eq!(m.clear_completed(), 0);
    assert_eq!(m.tasks.len(), 1);
}

#[test]
fn clear_all_empties_and_counts() {
    let mut m = TaskManager::default();
    m.add_task(String::from("a"));
    m.add_task(String::from("b"));
    assert_eq!(m.clear_all(), 2);
    assert!(m.tasks.is_empty());
    assert_eq!(m.add_task(String::from("fresh")), 1);
}

#[test]
fn complete_is_idempotent_on_done_tasks() {
    let mut m = TaskManager::default();
    m.add_task(String::from("a"));
    assert_eq!(m.complete_task("1"), CompleteResult::Completed);
    assert_eq!(m.complete_task("1"), CompleteResult::Completed);
    assert!(m.tasks[0].done);
}

#[test]
fn textual_ids_follow_the_unsigned_parse() {
    let mut m = TaskManager::default();
    m.add_task(String::from("a"));
    assert_eq!(m.complete_task("+1"), CompleteResult::Completed);
    assert_eq!(m.complete_task("0"), CompleteResult::NotFound);
    assert_eq!(m.complete_task("4294967295"), CompleteResult::NotFound);
    assert_eq!(m.complete_task("4294967296"), CompleteResult::InvalidId);
    assert_eq!(m.complete_task("+"), CompleteResult::InvalidId);
    assert_eq!(m.complete_task("1 "), CompleteResult::InvalidId);
    assert_eq!(m.complete_task("-1"), CompleteResult::InvalidId);
}

#[test]
fn list_returns_the_collection_in_order() {
    let mut m = TaskManager::default();
    m.add_task(String::from("a"));
    m.add_task(String::from("b"));
    let listed = m.list_tasks();
    assert_eq!(listed.len(), 2);
    assert_eq!(listed[0].description, "a");
    assert_eq!(listed[1].description, "b");
}
