use todo_tasks::codec::{save_to_string, load_from_string, ParseError};
use todo_tasks::store::TodoList;

#[test]
fn empty_collection_saves_as_empty_array() {
    let list = TodoList::new();
    assert_eq!(save_to_string(&list), "[]");
}

#[test]
fn one_task_saves_in_canonical_form() {
    let mut list = TodoList::new();
    list.add("buy milk");
    assert_eq!(
        save_to_string(&list),
        "[{\"order_number\":1,\"description\":\"buy milk\",\"done\":false}]"
    );
}

#[test]
fn two_tasks_save_with_flags() {
    let mut list = TodoList::new();
    list.add("a");
    list.add("b");
    list.mark_done(2);
    assert_eq!(
        save_to_string(&list),
        "[{\"order_number\":1,\"description\":\"a\",\"done\":false},\
         {\"order_number\":2,\"description\":\"b\",\"done\":true}]"
    );
}

#[test]
fn round_trip_preserves_content_and_order() {
    let mut list = TodoList::new();
    list.add("write spec");
    list.add("review draft");
    list.add("ship it");
    list.mark_done(2);
    list.remove(1);
    let text = save_to_string(&list);
    let loaded = load_from_string(&text).expect("canonical document must load");
    assert_eq!(loaded.len(), list.len());
    for i in 0..list.len() {
        let a = list.task_at(i);
        let b = loaded.task_at(i);
        assert_eq!(a.order_number, b.order_number);
        assert_eq!(a.description, b.description);
        assert_eq!(a.done, b.done);
    }
}

#[test]
fn round_trip_preserves_escaped_characters() {
    let mut list = TodoList::new();
    list.add("say \"hi\" to C:\\tasks now");
    let text = save_to_string(&list);
    let loaded = load_from_string(&text).expect("canonical document must load");
    assert_eq!(loaded.task_at(0).description, "say \"hi\" to C:\\tasks now");
}

#[test]
fn end_to_end_from_fresh_store() {
    // A missing persisted file yields the empty collection; one session
    // adds a task and saves; a fresh session loads it back intact.
    let mut session = TodoList::new();
    assert_eq!(session.len(), 0);
    session.add("write spec");
    let persisted = save_to_string(&session);
    let fresh = load_from_string(&persisted).expect("saved document must load");
    assert_eq!(fresh.len(), 1);
    let t = fresh.task_at(0);
    assert_eq!(t.order_number, 1);
    assert_eq!(t.description, "write spec");
    assert!(!t.done);
}

#[test]
fn loading_the_empty_array_yields_the_empty_collection() {
    let loaded = load_from_string("[]").expect("the empty array must load");
    assert_eq!(loaded.len(), 0);
}

#[test]
fn malformed_documents_are_rejected() {
    for text in [
        "",
        "garbage",
        "[",
        "[]]",
        "[] ",
        " []",
        "{\"order_number\":1,\"description\":\"a\",\"done\":false}",
        "[{\"order_number\":1,\"description\":\"a\",\"done\":false},]",
        "[{\"order_number\":1,\"description\":\"a\",\"done\":maybe}]",
        "[{\"order_number\":01,\"description\":\"a\",\"done\":false}]",
        "[{\"order_number\":99999999999999999999999999999999,\"description\":\"a\",\"done\":false}]",
        "[{\"order_number\":1,\"description\":\"a\",\"done\":false}] ",
        "[{\"order_number\":1,\"description\":\"a\\x\",\"done\":false}]",
        "[{\"order_number\": 1,\"description\":\"a\",\"done\":false}]",
    ] {
        assert!(matches!(load_from_string(text), Err(ParseError::Malformed)), "text: {text}");
    }
}

#[test]
fn misnumbered_documents_are_rejected_distinctly() {
    let skewed = "[{\"order_number\":2,\"description\":\"a\",\"done\":false}]";
    assert!(matches!(load_from_string(skewed), Err(ParseError::Misnumbered)));
    let duplicated = "[{\"order_number\":1,\"description\":\"a\",\"done\":false},\
                      {\"order_number\":1,\"description\":\"b\",\"done\":false}]";
    assert!(matches!(load_from_string(duplicated), Err(ParseError::Misnumbered)));
}
