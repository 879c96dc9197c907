use loki_core::todo::{TodoList, TodoStatus};

#[test]
fn test_new_and_add() {
    let mut list = TodoList::new("Map Labs");
    assert_eq!(list.add("Discover"), 1);
    assert_eq!(list.add("Map columns"), 2);
    assert_eq!(list.todos.len(), 2);
    assert!(list.has_incomplete());
}

#[test]
fn test_mark_done() {
    let mut list = TodoList::new("Test");
    list.add("Task 1");
    list.add("Task 2");
    assert!(list.mark_done(1));
    assert!(!list.mark_done(99));
    assert_eq!(list.completed_count(), 1);
    assert_eq!(list.incomplete_count(), 1);
}

#[test]
fn test_empty_list() {
    let list = TodoList::default();
    assert!(!list.has_incomplete());
    assert!(list.is_empty());
}

#[test]
fn test_all_done() {
    let mut list = TodoList::new("Test");
    list.add("Done task");
    list.mark_done(1);
    assert!(!list.has_incomplete());
}

#[test]
fn test_render_for_model() {
    let mut list = TodoList::new("Map Labs");
    list.add("Discover");
    list.add("Map");
    list.mark_done(1);
    let rendered = list.render_for_model();
    assert!(rendered.contains("Goal: Map Labs"));
    assert!(rendered.contains("Progress: 1/2 completed"));
    assert!(rendered.contains("✓ 1. Discover"));
    assert!(rendered.contains("○ 2. Map"));
}

#[test]
fn render_exact_text() {
    let mut list = TodoList::new("Ship");
    list.add("Build");
    list.add("Test");
    list.mark_done(2);
    assert_eq!(
        list.render_for_model(),
        "Goal: Ship\nProgress: 1/2 completed\n  ○ 1. Build\n  ✓ 2. Test"
    );
}

#[test]
fn render_without_goal_or_items() {
    let list = TodoList::new("");
    assert_eq!(list.render_for_model(), "Progress: 0/0 completed");
}

#[test]
fn render_two_digit_ids() {
    let mut list = TodoList::new("");
    for i in 0..12 {
        list.add(&format!("step {}", i));
    }
    list.mark_done(10);
    let rendered = list.render_for_model();
    assert!(rendered.starts_with("Progress: 1/12 completed\n"));
    assert!(rendered.contains("  ✓ 10. step 9\n"));
    assert!(rendered.ends_with("  ○ 12. step 11"));
}

#[test]
fn ids_follow_the_largest_id() {
    let mut list = TodoList::new("g");
    list.add("a");
    list.add("b");
    list.todos.remove(0);
    assert_eq!(list.add("c"), 3);
    let ids: Vec<usize> = list.todos.iter().map(|t| t.id).collect();
    assert_eq!(ids, vec![2, 3]);
}

#[test]
fn mark_done_twice_is_still_found() {
    let mut list = TodoList::new("g");
    list.add("a");
    assert!(list.mark_done(1));
    assert!(list.mark_done(1));
    assert_eq!(list.completed_count(), 1);
    assert_eq!(list.goal, "g");
}

#[test]
fn counts_add_up_to_length() {
    let mut list = TodoList::new("g");
    for i in 0..7 {
        list.add(&format!("t{}", i));
    }
    list.mark_done(2);
    list.mark_done(5);
    list.mark_done(7);
    assert_eq!(list.completed_count(), 3);
    assert_eq!(list.incomplete_count(), 4);
    assert_eq!(list.completed_count() + list.incomplete_count(), list.todos.len());
    let ids: Vec<usize> = list.todos.iter().map(|t| t.id).collect();
    assert!(ids.windows(2).all(|w| w[0] < w[1]));
}

#[test]
fn status_icons() {
    assert_eq!(TodoStatus::Done.icon(), "✓");
    assert_eq!(TodoStatus::Pending.icon(), "○");
}
