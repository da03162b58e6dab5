use tasklite::codec::decode_store;
use tasklite::codec::encode_store;
use tasklite::store::AppData;
use tasklite::store::TaskManager;

#[test]
fn round_trip_of_a_populated_store() {
    let mut tm = TaskManager::new(AppData::initial());
    tm.add_task(
        "Buy milk".to_string(),
        true,
        Some("01-01-2030".to_string()),
        Some(vec!["Home".to_string(), "errands".to_string()]),
    )
    .unwrap();
    tm.add_task("Write report".to_string(), false, None, Some(vec!["work".to_string()]))
        .unwrap();
    tm.edit_task(2, None, Some(true), None, None, None).unwrap();
    tm.mark_done(1).unwrap();

    let text = encode_store(&tm.app_data);
    let back = decode_store(text.as_str()).expect("a written store must read back");

    assert_eq!(back.next_id, tm.app_data.next_id);
    assert_eq!(back.config.date_format, tm.app_data.config.date_format);
    assert_eq!(back.tasks.len(), tm.app_data.tasks.len());
    for (a, b) in back.tasks.iter().zip(tm.app_data.tasks.iter()) {
        assert_eq!(a.id, b.id);
        assert_eq!(a.name, b.name);
        assert_eq!(a.priority, b.priority);
        assert_eq!(a.due_date, b.due_date);
        assert_eq!(a.tags, b.tags);
        assert_eq!(a.done, b.done);
        assert_eq!(a.created_at, b.created_at);
        assert_eq!(a.updated_at, b.updated_at);
    }
    assert_eq!(back.tags.len(), tm.app_data.tags.len());
    for (a, b) in back.tags.iter().zip(tm.app_data.tags.iter()) {
        assert_eq!(a.tag, b.tag);
        assert_eq!(a.ids, b.ids);
    }
    assert!(back.well_formed());
}

#[test]
fn round_trip_of_the_initial_store() {
    let d = AppData::initial();
    let text = encode_store(&d);
    let back = decode_store(text.as_str()).unwrap();
    assert!(back.tasks.is_empty());
    assert!(back.tags.is_empty());
    assert_eq!(back.next_id, 1);
    assert_eq!(back.config.date_format, "%d-%m-%Y");
}

#[test]
fn strings_with_separators_and_digits_survive_the_trip() {
    let mut tm = TaskManager::new(AppData::initial());
    tm.add_task("7;8;\"x\" 99;".to_string(), false, None, Some(vec!["1;2".to_string()]))
        .unwrap();
    let text = encode_store(&tm.app_data);
    let back = decode_store(text.as_str()).unwrap();
    assert_eq!(back.tasks[0].name, "7;8;\"x\" 99;");
    assert_eq!(back.tags[0].tag, "1;2");
}

#[test]
fn trailing_text_is_rejected() {
    let d = AppData::initial();
    let mut text = encode_store(&d);
    text.push(' ');
    assert!(decode_store(text.as_str()).is_none());
}

#[test]
fn garbage_is_rejected() {
    assert!(decode_store("").is_none());
    assert!(decode_store("hello").is_none());
    assert!(decode_store("12").is_none());
    assert!(decode_store("999999999999999999999999999999;").is_none());
}
