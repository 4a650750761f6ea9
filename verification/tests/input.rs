use todo_tasks::shell::{parse_input_number, parse_menu_choice, MenuChoice};
use todo_tasks::text::{fmt_usize, trim_text};

#[test]
fn menu_choices_by_number() {
    assert_eq!(parse_menu_choice("1"), MenuChoice::AddTask);
    assert_eq!(parse_menu_choice("2"), MenuChoice::RemoveTask);
    assert_eq!(parse_menu_choice("3"), MenuChoice::ViewTasks);
    assert_eq!(parse_menu_choice("4"), MenuChoice::MarkDone);
    assert_eq!(parse_menu_choice("5"), MenuChoice::Exit);
}

#[test]
fn menu_input_is_trimmed() {
    assert_eq!(parse_menu_choice(" 3 \r\n"), MenuChoice::ViewTasks);
}

#[test]
fn unreadable_menu_input_is_invalid_not_fatal() {
    assert_eq!(parse_menu_choice(""), MenuChoice::Invalid);
    assert_eq!(parse_menu_choice("   "), MenuChoice::Invalid);
    assert_eq!(parse_menu_choice("abc"), MenuChoice::Invalid);
    assert_eq!(parse_menu_choice("0"), MenuChoice::Invalid);
    assert_eq!(parse_menu_choice("6"), MenuChoice::Invalid);
    assert_eq!(parse_menu_choice("-1"), MenuChoice::Invalid);
    assert_eq!(parse_menu_choice("1.5"), MenuChoice::Invalid);
}

#[test]
fn task_numbers_read_as_plain_decimals() {
    assert_eq!(parse_input_number("42"), Some(42));
    assert_eq!(parse_input_number(" 10 \n"), Some(10));
    assert_eq!(parse_input_number("007"), Some(7));
    assert_eq!(parse_input_number("0"), Some(0));
}

#[test]
fn unreadable_task_numbers_read_as_nothing() {
    assert_eq!(parse_input_number(""), None);
    assert_eq!(parse_input_number("12a"), None);
    assert_eq!(parse_input_number("two"), None);
    assert_eq!(parse_input_number("1 2"), None);
    assert_eq!(parse_input_number("99999999999999999999999999"), None);
}

#[test]
fn numbers_render_in_decimal() {
    assert_eq!(fmt_usize(0), "0");
    assert_eq!(fmt_usize(7), "7");
    assert_eq!(fmt_usize(12345), "12345");
}

#[test]
fn trimming_strips_both_ends_only() {
    assert_eq!(trim_text("  a b  "), "a b");
    assert_eq!(trim_text("\t\r\n"), "");
    assert_eq!(trim_text("plain"), "plain");
}
