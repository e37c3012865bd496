use packet_router::task_manager::TaskManager;

#[test]
fn executes_by_priority_then_task_id() {
    let mut tm = TaskManager::new(vec![vec![1, 101, 10], vec![2, 102, 20], vec![3, 103, 15]]);
    tm.add(4, 104, 5);
    tm.edit(102, 8);
    assert_eq!(tm.exec_top(), 3);
    tm.rmv(101);
    tm.add(5, 105, 15);
    assert_eq!(tm.exec_top(), 5);
    assert_eq!(tm.exec_top(), 2);
    assert_eq!(tm.exec_top(), 4);
    assert_eq!(tm.exec_top(), -1);
}

#[test]
fn equal_priorities_prefer_higher_task_id() {
    let mut tm = TaskManager::new(vec![vec![1, 5, 7], vec![2, 9, 7], vec![3, 6, 7]]);
    assert_eq!(tm.exec_top(), 2);
    assert_eq!(tm.exec_top(), 3);
    assert_eq!(tm.exec_top(), 1);
}

#[test]
fn empty_manager_returns_minus_one() {
    let mut tm = TaskManager::new(vec![]);
    assert_eq!(tm.exec_top(), -1);
}

#[test]
fn stale_entries_are_skipped() {
    let mut tm = TaskManager::new(vec![vec![1, 1, 50]]);
    tm.edit(1, 10);
    tm.add(2, 2, 30);
    assert_eq!(tm.exec_top(), 2);
    assert_eq!(tm.exec_top(), 1);
    assert_eq!(tm.exec_top(), -1);
}

#[test]
fn edit_back_to_old_priority() {
    let mut tm = TaskManager::new(vec![vec![1, 1, 50], vec![2, 2, 40]]);
    tm.edit(1, 10);
    tm.edit(1, 50);
    assert_eq!(tm.exec_top(), 1);
    assert_eq!(tm.exec_top(), 2);
    assert_eq!(tm.exec_top(), -1);
}

#[test]
fn edit_and_remove_unknown_do_nothing() {
    let mut tm = TaskManager::new(vec![vec![3, 1, 5]]);
    tm.edit(99, 100);
    tm.rmv(98);
    assert_eq!(tm.exec_top(), 3);
    assert_eq!(tm.exec_top(), -1);
}

#[test]
fn later_row_replaces_same_task_id() {
    let mut tm = TaskManager::new(vec![vec![1, 7, 5], vec![2, 7, 9], vec![3, 8, 6]]);
    assert_eq!(tm.exec_top(), 2);
    assert_eq!(tm.exec_top(), 3);
    assert_eq!(tm.exec_top(), -1);
}

#[test]
fn removed_task_is_not_executed() {
    let mut tm = TaskManager::new(vec![vec![1, 1, 9], vec![2, 2, 3]]);
    tm.rmv(1);
    assert_eq!(tm.exec_top(), 2);
    assert_eq!(tm.exec_top(), -1);
}
