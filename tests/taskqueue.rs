use loki_core::taskqueue::{TaskError, TaskQueue, TaskStatus};

#[test]
fn test_create_and_list() {
    let mut queue = TaskQueue::new();
    let id1 = queue.create("Research".into(), "Research auth patterns".into(), None, None);
    let id2 = queue.create("Implement".into(), "Write the code".into(), None, None);

    assert_eq!(id1, "1");
    assert_eq!(id2, "2");
    assert_eq!(queue.list().len(), 2);
}

#[test]
fn test_dependency_and_completion() {
    let mut queue = TaskQueue::new();
    let id1 = queue.create("Step 1".into(), "".into(), None, None);
    let id2 = queue.create("Step 2".into(), "".into(), None, None);

    queue.add_dependency(&id2, &id1).unwrap();

    assert!(queue.get(&id1).unwrap().is_runnable());
    assert!(!queue.get(&id2).unwrap().is_runnable());
    assert_eq!(queue.get(&id2).unwrap().status, TaskStatus::Blocked);

    let unblocked = queue.complete(&id1);
    assert_eq!(unblocked, vec![id2.clone()]);
    assert!(queue.get(&id2).unwrap().is_runnable());
}

#[test]
fn test_fan_in_dependency() {
    let mut queue = TaskQueue::new();
    let id1 = queue.create("A".into(), "".into(), None, None);
    let id2 = queue.create("B".into(), "".into(), None, None);
    let id3 = queue.create("C (needs A and B)".into(), "".into(), None, None);

    queue.add_dependency(&id3, &id1).unwrap();
    queue.add_dependency(&id3, &id2).unwrap();

    assert!(!queue.get(&id3).unwrap().is_runnable());

    let unblocked = queue.complete(&id1);
    assert!(unblocked.is_empty());
    assert!(!queue.get(&id3).unwrap().is_runnable());

    let unblocked = queue.complete(&id2);
    assert_eq!(unblocked, vec![id3.clone()]);
    assert!(queue.get(&id3).unwrap().is_runnable());
}

#[test]
fn test_cycle_detection() {
    let mut queue = TaskQueue::new();
    let id1 = queue.create("A".into(), "".into(), None, None);
    let id2 = queue.create("B".into(), "".into(), None, None);

    queue.add_dependency(&id2, &id1).unwrap();
    let result = queue.add_dependency(&id1, &id2);
    assert!(result.is_err());
    assert!(result.unwrap_err().message().contains("cycle"));
}

#[test]
fn test_self_dependency_rejected() {
    let mut queue = TaskQueue::new();
    let id1 = queue.create("A".into(), "".into(), None, None);
    let result = queue.add_dependency(&id1, &id1);
    assert!(result.is_err());
}

#[test]
fn test_claim() {
    let mut queue = TaskQueue::new();
    let id1 = queue.create("Task".into(), "".into(), None, None);

    assert!(queue.claim(&id1, "worker-1"));
    assert!(!queue.claim(&id1, "worker-2"));
    assert_eq!(queue.get(&id1).unwrap().status, TaskStatus::InProgress);
}

#[test]
fn three_step_cycle_is_rejected() {
    let mut queue = TaskQueue::new();
    let t1 = queue.create("A".into(), "".into(), None, None);
    let t2 = queue.create("B".into(), "".into(), None, None);
    let t3 = queue.create("C".into(), "".into(), None, None);
    queue.add_dependency(&t2, &t1).unwrap();
    queue.add_dependency(&t3, &t2).unwrap();
    assert_eq!(queue.add_dependency(&t1, &t3), Err(TaskError::CycleDetected));
    assert!(queue.get(&t1).unwrap().blocked_by.is_empty());
}

#[test]
fn error_kinds() {
    let mut queue = TaskQueue::new();
    let t1 = queue.create("A".into(), "".into(), None, None);
    assert_eq!(queue.add_dependency(&t1, &t1), Err(TaskError::SelfDependency));
    assert_eq!(queue.add_dependency(&t1, "7"), Err(TaskError::UnknownTask));
    assert_eq!(queue.add_dependency("7", &t1), Err(TaskError::UnknownTask));
    assert_eq!(queue.add_dependency("01", &t1), Err(TaskError::UnknownTask));
    assert_eq!(TaskError::SelfDependency.message(), "A task cannot depend on itself");
    assert_eq!(TaskError::UnknownTask.message(), "Task does not exist");
}

#[test]
fn dependency_twice_is_idempotent() {
    let mut queue = TaskQueue::new();
    let t1 = queue.create("A".into(), "".into(), None, None);
    let t2 = queue.create("B".into(), "".into(), None, None);
    assert_eq!(queue.add_dependency(&t2, &t1), Ok(()));
    assert_eq!(queue.add_dependency(&t2, &t1), Ok(()));
    assert_eq!(queue.get(&t2).unwrap().blocked_by, vec![1]);
    assert_eq!(queue.get(&t1).unwrap().blocks, vec![2]);
    assert_eq!(queue.get(&t2).unwrap().status, TaskStatus::Blocked);
}

#[test]
fn complete_twice_returns_nothing() {
    let mut queue = TaskQueue::new();
    let t1 = queue.create("A".into(), "".into(), None, None);
    let t2 = queue.create("B".into(), "".into(), None, None);
    queue.add_dependency(&t2, &t1).unwrap();
    assert_eq!(queue.complete(&t1), vec!["2".to_string()]);
    assert!(queue.complete(&t1).is_empty());
    assert_eq!(queue.get(&t1).unwrap().status, TaskStatus::Completed);
    assert!(queue.complete("42").is_empty());
}

#[test]
fn edges_stay_mirrored_after_complete() {
    let mut queue = TaskQueue::new();
    let t1 = queue.create("A".into(), "".into(), None, None);
    let t2 = queue.create("B".into(), "".into(), None, None);
    let t3 = queue.create("C".into(), "".into(), None, None);
    queue.add_dependency(&t2, &t1).unwrap();
    queue.add_dependency(&t3, &t1).unwrap();
    assert_eq!(queue.get(&t1).unwrap().blocks, vec![2, 3]);
    assert_eq!(queue.complete(&t1), vec!["2".to_string(), "3".to_string()]);
    assert!(queue.get(&t1).unwrap().blocks.is_empty());
    assert!(queue.get(&t2).unwrap().blocked_by.is_empty());
    assert!(queue.get(&t3).unwrap().blocked_by.is_empty());
}

#[test]
fn fail_keeps_dependents_blocked() {
    let mut queue = TaskQueue::new();
    let t1 = queue.create("A".into(), "".into(), None, None);
    let t2 = queue.create("B".into(), "".into(), None, None);
    queue.add_dependency(&t2, &t1).unwrap();
    queue.fail(&t1);
    assert_eq!(queue.get(&t1).unwrap().status, TaskStatus::Failed);
    assert_eq!(queue.get(&t2).unwrap().status, TaskStatus::Blocked);
    assert!(queue.runnable_tasks().is_empty());
}

#[test]
fn runnable_and_list_orders() {
    let mut queue = TaskQueue::new();
    for i in 0..11 {
        queue.create(format!("t{}", i), "".into(), None, None);
    }
    queue.add_dependency("10", "11").unwrap();
    let ids: Vec<String> = queue.list().iter().map(|t| t.id.clone()).collect();
    assert_eq!(ids[9], "10");
    assert_eq!(ids[10], "11");
    let runnable: Vec<String> = queue.runnable_tasks().iter().map(|t| t.id.clone()).collect();
    assert_eq!(runnable.len(), 10);
    assert!(!runnable.contains(&"10".to_string()));
}

#[test]
fn create_keeps_dispatch_payload() {
    let mut queue = TaskQueue::new();
    let t = queue.create(
        "explore".into(),
        "d".into(),
        Some("explore".into()),
        Some("find X".into()),
    );
    let node = queue.get(&t).unwrap();
    assert_eq!(node.dispatch_agent.as_deref(), Some("explore"));
    assert_eq!(node.prompt.as_deref(), Some("find X"));
    assert_eq!(node.status, TaskStatus::Pending);
    assert!(node.owner.is_none());
}
