use tasklite::order::display_order;
use tasklite::order::sort_tasks;
use tasklite::store::AppData;
use tasklite::store::TaskManager;
use tasklite::task::Task;

fn sample() -> Vec<Task> {
    let mut tm = TaskManager::new(AppData::initial());
    // 1: pending, ordinary, due early
    tm.add_task("early".to_string(), false, Some("01-01-2030".to_string()), None).unwrap();
    // 2: pending, ordinary, due late
    tm.add_task("late".to_string(), false, Some("05-01-2030".to_string()), None).unwrap();
    // 3: pending, priority, no due date
    tm.add_task("urgent".to_string(), true, None, None).unwrap();
    // 4: completed
    tm.add_task("finished".to_string(), false, None, None).unwrap();
    tm.mark_done(4).unwrap();
    tm.app_data.tasks
}

#[test]
fn ranking_orders_pending_first_then_priority_then_due_descending() {
    let sorted = sort_tasks(sample());
    let ids: Vec<usize> = sorted.iter().map(|t| t.id).collect();
    // pending ordinary by due date descending, then pending priority
    // (missing dates rank as year 9999), then completed
    assert_eq!(ids, vec![2, 1, 3, 4]);
}

#[test]
fn display_order_is_the_ranking_reversed() {
    let shown = display_order(sample());
    let ids: Vec<usize> = shown.iter().map(|t| t.id).collect();
    assert_eq!(ids, vec![4, 3, 1, 2]);
}

#[test]
fn due_dates_compare_across_months_and_years() {
    let mut tm = TaskManager::new(AppData::initial());
    tm.add_task("a".to_string(), false, Some("31-12-2029".to_string()), None).unwrap();
    tm.add_task("b".to_string(), false, Some("01-01-2030".to_string()), None).unwrap();
    let sorted = sort_tasks(tm.app_data.tasks);
    let ids: Vec<usize> = sorted.iter().map(|t| t.id).collect();
    // later date first in the ranking
    assert_eq!(ids, vec![2, 1]);
}
