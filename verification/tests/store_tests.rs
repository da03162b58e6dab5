use tasklite::store::AppData;
use tasklite::store::TaskManager;

fn manager() -> TaskManager {
    TaskManager::new(AppData::initial())
}

#[test]
fn ids_are_allocated_in_order_and_never_reused() {
    let mut tm = manager();
    tm.add_task("one".to_string(), false, None, None).unwrap();
    tm.add_task("two".to_string(), false, None, None).unwrap();
    tm.add_task("three".to_string(), false, None, None).unwrap();
    let ids: Vec<usize> = tm.app_data.tasks.iter().map(|t| t.id).collect();
    assert_eq!(ids, vec![1, 2, 3]);
    assert_eq!(tm.app_data.next_id, 4);

    tm.remove_task(2).unwrap();
    tm.add_task("four".to_string(), false, None, None).unwrap();
    let ids: Vec<usize> = tm.app_data.tasks.iter().map(|t| t.id).collect();
    assert_eq!(ids, vec![1, 3, 4]);
    assert_eq!(tm.app_data.next_id, 5);
}

#[test]
fn tag_index_tracks_tasks_and_remove_scrubs_it() {
    let mut tm = manager();
    tm.add_task("a".to_string(), false, None, Some(vec!["Home".to_string()])).unwrap();
    tm.add_task("b".to_string(), false, None, Some(vec!["home".to_string(), "work".to_string()]))
        .unwrap();
    // the index is keyed by the lowercased tag
    let tags = tm.list_tags();
    assert_eq!(tags, vec!["home".to_string(), "work".to_string()]);
    assert_eq!(tm.app_data.tags[0].ids, vec![1, 2]);
    assert_eq!(tm.app_data.tags[1].ids, vec![2]);

    // every listed id is a live task carrying the tag
    for entry in &tm.app_data.tags {
        for id in &entry.ids {
            let task = tm.app_data.tasks.iter().find(|t| t.id == *id).unwrap();
            let carried = task
                .tags
                .as_ref()
                .unwrap()
                .iter()
                .any(|t| t.to_lowercase() == entry.tag);
            assert!(carried);
        }
    }

    tm.remove_task(2).unwrap();
    // no entry lists the removed id, and emptied entries are gone
    assert_eq!(tm.list_tags(), vec!["home".to_string()]);
    assert_eq!(tm.app_data.tags[0].ids, vec![1]);
}

#[test]
fn filter_priority_only_returns_exactly_the_priority_subset() {
    let mut tm = manager();
    tm.add_task("a".to_string(), true, None, None).unwrap();
    tm.add_task("b".to_string(), false, None, None).unwrap();
    tm.add_task("c".to_string(), true, None, None).unwrap();
    let got = tm.filter_tasks(true, None, None).unwrap();
    let ids: Vec<usize> = got.iter().map(|t| t.id).collect();
    assert_eq!(ids, vec![1, 3]);
}

#[test]
fn filter_unknown_tag_returns_empty() {
    let mut tm = manager();
    tm.add_task("a".to_string(), false, None, Some(vec!["home".to_string()])).unwrap();
    let got = tm.filter_tasks(false, None, Some(vec!["x".to_string()])).unwrap();
    assert!(got.is_empty());
}

#[test]
fn filter_tags_requires_every_given_tag() {
    let mut tm = manager();
    tm.add_task("a".to_string(), false, None, Some(vec!["a".to_string()])).unwrap();
    tm.add_task("b".to_string(), false, None, Some(vec!["b".to_string()])).unwrap();
    tm.add_task("ab".to_string(), false, None, Some(vec!["a".to_string(), "b".to_string()]))
        .unwrap();
    let got = tm.filter_tasks(false, None, Some(vec!["a".to_string(), "b".to_string()])).unwrap();
    let ids: Vec<usize> = got.iter().map(|t| t.id).collect();
    assert_eq!(ids, vec![3]);
}

#[test]
fn filter_on_empty_index_with_tags_returns_empty() {
    let mut tm = manager();
    tm.add_task("a".to_string(), false, None, None).unwrap();
    let got = tm.filter_tasks(false, None, Some(vec!["a".to_string()])).unwrap();
    assert!(got.is_empty());
}

#[test]
fn filter_without_criteria_returns_every_task() {
    let mut tm = manager();
    tm.add_task("a".to_string(), false, None, None).unwrap();
    tm.add_task("b".to_string(), true, None, None).unwrap();
    let got = tm.filter_tasks(false, None, None).unwrap();
    assert_eq!(got.len(), 2);
}

#[test]
fn filter_due_before_keeps_tasks_due_on_or_before_the_date() {
    let mut tm = manager();
    tm.add_task("early".to_string(), false, Some("01-01-2030".to_string()), None).unwrap();
    tm.add_task("late".to_string(), false, Some("01-01-2031".to_string()), None).unwrap();
    tm.add_task("undated".to_string(), false, None, None).unwrap();
    let got = tm.filter_tasks(false, Some("30-06-2030".to_string()), None).unwrap();
    let ids: Vec<usize> = got.iter().map(|t| t.id).collect();
    assert_eq!(ids, vec![1]);
}

#[test]
fn filter_with_unparsable_due_date_fails() {
    let tm = manager();
    let got = tm.filter_tasks(false, Some("not a date".to_string()), None);
    match got {
        Err(tasklite::errors::TodoError::InvalidDueDate(f)) => assert_eq!(f, "%d-%m-%Y"),
        _ => panic!("expected an invalid due date failure"),
    }
}

#[test]
fn reset_clears_everything_and_restarts_the_counter() {
    let mut tm = manager();
    tm.add_task("a".to_string(), true, Some("01-01-2030".to_string()), Some(vec![
        "home".to_string(),
    ]))
    .unwrap();
    tm.add_task("b".to_string(), false, None, None).unwrap();
    tm.reset_tasks().unwrap();
    assert!(tm.app_data.tasks.is_empty());
    assert!(tm.app_data.tags.is_empty());
    assert_eq!(tm.app_data.next_id, 1);
}

#[test]
fn add_buy_milk_scenario() {
    let mut tm = manager();
    tm.add_task(
        "Buy milk".to_string(),
        true,
        Some("01-01-2030".to_string()),
        Some(vec!["home".to_string()]),
    )
    .unwrap();
    let task = &tm.app_data.tasks[0];
    assert_eq!(task.id, 1);
    assert!(!task.done);
    assert_eq!(task.due_date.as_deref(), Some("01-01-2030"));
    assert!(task.updated_at.is_none());
    let tags = tm.list_tags();
    assert!(tags.contains(&"home".to_string()));
    assert_eq!(tm.app_data.tags[0].tag, "home");
    assert_eq!(tm.app_data.tags[0].ids, vec![1]);
}

#[test]
fn remove_missing_task_fails_and_changes_nothing() {
    let mut tm = manager();
    let got = tm.remove_task(999);
    assert_eq!(got, Err(tasklite::errors::TodoError::TaskNotFound(999)));
    assert!(tm.app_data.tasks.is_empty());
    assert!(tm.app_data.tags.is_empty());
    assert_eq!(tm.app_data.next_id, 1);
}

#[test]
fn mark_done_sets_done_and_leaves_updated_at_unset() {
    let mut tm = manager();
    tm.add_task("a".to_string(), false, None, None).unwrap();
    tm.mark_done(1).unwrap();
    let task = &tm.app_data.tasks[0];
    assert!(task.done);
    assert!(task.updated_at.is_none());
}

#[test]
fn mark_done_missing_task_fails() {
    let mut tm = manager();
    assert_eq!(tm.mark_done(7), Err(tasklite::errors::TodoError::TaskNotFound(7)));
}

#[test]
fn edit_changes_only_supplied_fields_and_stamps_updated_at() {
    let mut tm = manager();
    tm.add_task("old".to_string(), false, Some("01-01-2030".to_string()), None).unwrap();
    tm.edit_task(1, Some("new".to_string()), Some(true), None, None, None).unwrap();
    let task = &tm.app_data.tasks[0];
    assert_eq!(task.name, "new");
    assert!(task.priority);
    assert_eq!(task.due_date.as_deref(), Some("01-01-2030"));
    assert!(task.updated_at.is_some());
}

#[test]
fn edit_missing_task_fails() {
    let mut tm = manager();
    assert_eq!(
        tm.edit_task(3, None, None, None, None, None),
        Err(tasklite::errors::TodoError::TaskNotFound(3))
    );
}

#[test]
fn edit_with_bad_due_date_fails_and_changes_nothing() {
    let mut tm = manager();
    tm.add_task("a".to_string(), false, None, None).unwrap();
    let got = tm.edit_task(1, Some("renamed".to_string()), None, Some("nope".to_string()), None, None);
    match got {
        Err(tasklite::errors::TodoError::InvalidDueDate(f)) => assert_eq!(f, "%d-%m-%Y"),
        _ => panic!("expected an invalid due date failure"),
    }
    assert_eq!(tm.app_data.tasks[0].name, "a");
}

#[test]
fn edit_accumulates_tag_entries() {
    let mut tm = manager();
    tm.add_task("a".to_string(), false, None, Some(vec!["old".to_string()])).unwrap();
    tm.edit_task(1, None, None, None, Some(vec!["new".to_string()]), None).unwrap();
    // the new tag is indexed, the old entry deliberately stays behind
    assert_eq!(tm.list_tags(), vec!["old".to_string(), "new".to_string()]);
    assert_eq!(tm.app_data.tags[0].ids, vec![1]);
    assert_eq!(tm.app_data.tags[1].ids, vec![1]);
}

#[test]
fn duplicate_tags_accumulate_duplicate_ids() {
    let mut tm = manager();
    tm.add_task("a".to_string(), false, None, Some(vec![
        "Home".to_string(),
        "HOME".to_string(),
    ]))
    .unwrap();
    assert_eq!(tm.list_tags(), vec!["home".to_string()]);
    assert_eq!(tm.app_data.tags[0].ids, vec![1, 1]);
}

#[test]
fn add_with_unparsable_due_date_fails_with_the_format() {
    let mut tm = manager();
    let got = tm.add_task("a".to_string(), false, Some("2030-01-01x".to_string()), None);
    match got {
        Err(e) => {
            assert_eq!(e, tasklite::errors::TodoError::InvalidDueDate("%d-%m-%Y".to_string()));
            assert_eq!(
                e.message(),
                "Invalid due date. Date should be in this format: %d-%m-%Y"
            );
        },
        Ok(_) => panic!("expected a failure"),
    }
    assert!(tm.app_data.tasks.is_empty());
}

#[test]
fn task_not_found_message_names_the_id() {
    let e = tasklite::errors::TodoError::TaskNotFound(42);
    assert_eq!(e.message(), "task with id 42 not found");
}

#[test]
fn list_tasks_by_tags_resolves_ids_in_entry_order() {
    let mut tm = manager();
    tm.add_task("a".to_string(), false, None, Some(vec!["x".to_string()])).unwrap();
    tm.add_task("b".to_string(), false, None, Some(vec!["x".to_string(), "y".to_string()]))
        .unwrap();
    let got = tm.list_tasks_by_tags(&["x".to_string(), "y".to_string()]);
    let ids: Vec<usize> = got.iter().map(|t| t.id).collect();
    assert_eq!(ids, vec![1, 2, 2]);
}
