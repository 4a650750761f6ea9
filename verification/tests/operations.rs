use todo_tasks::store::TodoList;
use todo_tasks::task::Todo;

#[test]
fn add_appends_pending_task() {
    let mut list = TodoList::new();
    list.add("buy milk");
    assert_eq!(list.len(), 1);
    let t = list.task_at(0);
    assert_eq!(t.order_number, 1);
    assert_eq!(t.description, "buy milk");
    assert!(!t.done);
    list.add("call home");
    assert_eq!(list.len(), 2);
    let t = list.task_at(1);
    assert_eq!(t.order_number, 2);
    assert_eq!(t.description, "call home");
    assert!(!t.done);
}

#[test]
fn add_trims_surrounding_whitespace() {
    let mut list = TodoList::new();
    list.add("  buy milk \t\r\n");
    assert_eq!(list.task_at(0).description, "buy milk");
}

#[test]
fn remove_renumbers_contiguously() {
    let mut list = TodoList::new();
    list.add("a");
    list.add("b");
    list.add("c");
    assert!(list.remove(2));
    assert_eq!(list.len(), 2);
    assert_eq!(list.task_at(0).order_number, 1);
    assert_eq!(list.task_at(0).description, "a");
    assert_eq!(list.task_at(1).order_number, 2);
    assert_eq!(list.task_at(1).description, "c");
}

#[test]
fn remove_out_of_bounds_changes_nothing() {
    let mut list = TodoList::new();
    list.add("a");
    list.add("b");
    assert!(!list.remove(0));
    assert!(!list.remove(3));
    assert_eq!(list.len(), 2);
    assert_eq!(list.task_at(0).description, "a");
    assert_eq!(list.task_at(0).order_number, 1);
    assert_eq!(list.task_at(1).description, "b");
    assert_eq!(list.task_at(1).order_number, 2);
}

#[test]
fn mark_done_is_idempotent() {
    let mut list = TodoList::new();
    list.add("a");
    list.add("b");
    assert!(list.mark_done(2));
    assert!(list.task_at(1).done);
    assert!(list.mark_done(2));
    assert!(list.task_at(1).done);
    assert!(!list.task_at(0).done);
}

#[test]
fn mark_done_out_of_bounds_changes_nothing() {
    let mut list = TodoList::new();
    list.add("a");
    assert!(!list.mark_done(0));
    assert!(!list.mark_done(2));
    assert!(!list.task_at(0).done);
}

#[test]
fn listing_empty_collection_is_one_line() {
    let list = TodoList::new();
    let lines = list.list_lines();
    assert_eq!(lines.len(), 1);
    assert_eq!(lines[0], "No tasks to display.");
}

#[test]
fn listing_renders_status_and_description() {
    let mut list = TodoList::new();
    list.add("write spec");
    list.add("ship it");
    list.mark_done(1);
    let lines = list.list_lines();
    assert_eq!(lines.len(), 2);
    assert_eq!(lines[0], "1: [Done] write spec");
    assert_eq!(lines[1], "2: [Pending] ship it");
}

#[test]
fn todo_new_and_flags() {
    let mut t = Todo::new(7, "water plants");
    assert_eq!(t.order_number, 7);
    assert_eq!(t.description, "water plants");
    assert!(!t.done);
    t.mark_done();
    assert!(t.done);
    t.mark_done();
    assert!(t.done);
    t.toggle_done();
    assert!(!t.done);
    t.toggle_done();
    assert!(t.done);
}
