use tasklite::dates::PlainDate;
use tasklite::task::Task;

#[test]
fn new_task_normalizes_the_due_date_to_canonical_form() {
    // a different input format: year first — the stored form is DD-MM-YYYY
    let t = Task::new(
        1,
        "a".to_string(),
        false,
        Some("2030/01/02".to_string()),
        None,
        "%Y/%m/%d",
    )
    .unwrap();
    assert_eq!(t.due_date.as_deref(), Some("02-01-2030"));
    assert!(!t.done);
    assert!(t.updated_at.is_none());
}

#[test]
fn new_task_rejects_text_that_does_not_parse() {
    let got = Task::new(1, "a".to_string(), false, Some("02-01-2030".to_string()), None, "%Y/%m/%d");
    match got {
        Err(tasklite::errors::TodoError::InvalidDueDate(f)) => assert_eq!(f, "%Y/%m/%d"),
        _ => panic!("expected an invalid due date failure"),
    }
}

#[test]
fn due_comparison_is_on_or_before() {
    let t = Task::new(
        1,
        "a".to_string(),
        false,
        Some("15-06-2030".to_string()),
        None,
        "%d-%m-%Y",
    )
    .unwrap();
    assert!(t.is_due_before_given_date(&PlainDate { year: 2030, month: 6, day: 15 }));
    assert!(t.is_due_before_given_date(&PlainDate { year: 2031, month: 1, day: 1 }));
    assert!(!t.is_due_before_given_date(&PlainDate { year: 2030, month: 6, day: 14 }));
}

#[test]
fn undated_task_is_never_due() {
    let t = Task::new(1, "a".to_string(), false, None, None, "%d-%m-%Y").unwrap();
    assert!(!t.is_due_before_given_date(&PlainDate { year: 9999, month: 12, day: 31 }));
    assert!(t.get_parsed_due_date().is_none());
    assert!(!t.is_due_today());
}

#[test]
fn parsed_due_date_matches_the_stored_text() {
    let t = Task::new(
        1,
        "a".to_string(),
        false,
        Some("05-11-2031".to_string()),
        None,
        "%d-%m-%Y",
    )
    .unwrap();
    let d = t.get_parsed_due_date().unwrap();
    assert_eq!((d.year, d.month, d.day), (2031, 11, 5));
}

#[test]
fn edit_sets_updated_at_even_without_changes() {
    let mut t = Task::new(1, "a".to_string(), false, None, None, "%d-%m-%Y").unwrap();
    t.edit(None, None, None, None, None, "%d-%m-%Y").unwrap();
    assert!(t.updated_at.is_some());
    assert_eq!(t.name, "a");
}

#[test]
fn long_overdue_task_is_due_today() {
    let t = Task::new(
        1,
        "a".to_string(),
        false,
        Some("01-01-2000".to_string()),
        None,
        "%d-%m-%Y",
    )
    .unwrap();
    assert!(t.is_due_today());
}

#[test]
fn far_future_task_is_not_due_today() {
    let t = Task::new(
        1,
        "a".to_string(),
        false,
        Some("31-12-9999".to_string()),
        None,
        "%d-%m-%Y",
    )
    .unwrap();
    assert!(!t.is_due_today());
}
