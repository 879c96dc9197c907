use loki_core::handler::ToolCall;
use loki_core::modes::{AssertState, WorkingMode, STATE_AGENT, STATE_ROLE, STATE_SESSION};
use loki_core::stream::JsonStream;
use loki_core::supervisor::{agent_id_from, new_agent_id, AgentHandle, Supervisor, SupervisorError};
use loki_core::taskqueue::{DispatchOrder, TaskError, TaskQueue, TaskStatus};
use loki_core::todo::{apply_todo_action, TodoAction, TodoList, TodoOutcome};
use loki_core::tools::{has_prefix, route, tool_family, ToolFamily};
use loki_core::supervisor::AgentExitStatus;
use loki_core::turns::{
    needs_summary, next_turn, should_auto_continue, LoopState, TurnAction, TurnEvent,
    DEFAULT_SUMMARIZATION_THRESHOLD,
};

#[test]
fn auto_dispatch_scenario() {
    let mut sup: Supervisor<()> = Supervisor::new(4, 3);
    let other = sup.task_queue_mut().create("other".into(), "".into(), None, None);
    let t1 = sup.task_queue_mut().create(
        "explore".into(),
        "".into(),
        Some("explore".into()),
        Some("find X".into()),
    );
    sup.task_queue_mut().add_dependency(&t1, &other).unwrap();
    let (freed, orders) = sup.task_queue_mut().complete_and_dispatch(&other);
    assert_eq!(freed, vec![t1.clone()]);
    assert_eq!(
        orders,
        vec![DispatchOrder { task_id: t1.clone(), agent: "explore".into(), prompt: "find X".into() }]
    );
    let node = sup.task_queue().get(&t1).unwrap();
    assert_eq!(node.status, TaskStatus::InProgress);
    assert_eq!(node.owner.as_deref(), Some("auto:explore"));

    let depth = sup.spawn_depth(0).unwrap();
    let id = new_agent_id(&orders[0].agent);
    sup.register(AgentHandle { id: id.clone(), agent_name: "explore".into(), depth, runtime: () })
        .unwrap();
    assert!(sup.list_agents().iter().any(|(a, _)| *a == id));
}

#[test]
fn dispatch_skips_tasks_without_agent() {
    let mut sup: Supervisor<()> = Supervisor::new(4, 3);
    let q = sup.task_queue_mut();
    let a = q.create("a".into(), "".into(), None, None);
    let b = q.create("b".into(), "".into(), None, None);
    let c = q.create("c".into(), "".into(), Some("coder".into()), Some("write".into()));
    q.add_dependency(&b, &a).unwrap();
    q.add_dependency(&c, &a).unwrap();
    let (freed, orders) = q.complete_and_dispatch(&a);
    assert_eq!(freed, vec![b.clone(), c.clone()]);
    assert_eq!(orders.len(), 1);
    assert_eq!(orders[0].task_id, c);
    assert!(q.claim_for_dispatch(&c).is_none());
    assert!(q.claim_for_dispatch(&b).is_none());
    assert_eq!(q.get(&b).unwrap().status, TaskStatus::Pending);
}

#[test]
fn spawn_gate() {
    let mut sup: Supervisor<()> = Supervisor::new(1, 2);
    assert_eq!(sup.spawn_depth(0), Ok(1));
    assert_eq!(sup.spawn_depth(1), Ok(2));
    assert_eq!(sup.spawn_depth(2), Err(SupervisorError::MaxDepthExceeded));
    sup.register(AgentHandle { id: "a".into(), agent_name: "n".into(), depth: 1, runtime: () })
        .unwrap();
    assert_eq!(sup.spawn_depth(0), Err(SupervisorError::AtCapacity));
}

#[test]
fn agent_ids() {
    assert_eq!(
        agent_id_from("explore", "67e55044-10b1-426f-9247-bb680e5fe0c8"),
        "agent_explore_67e55044"
    );
    let id = new_agent_id("coder");
    assert_eq!(id.len(), "agent_coder_".len() + 8);
    assert!(id.starts_with("agent_coder_"));
}

#[test]
fn summary_threshold() {
    assert_eq!(DEFAULT_SUMMARIZATION_THRESHOLD, 4000);
    assert!(!needs_summary(&"x".repeat(4000), 4000));
    assert!(needs_summary(&"x".repeat(4001), 4000));
    assert!(!needs_summary(&"é".repeat(4000), 4000));
}

#[test]
fn auto_continue_policy() {
    assert!(should_auto_continue(true, true, 0, 10, "out", None));
    assert!(!should_auto_continue(false, true, 0, 10, "out", None));
    assert!(!should_auto_continue(true, false, 0, 10, "out", None));
    assert!(!should_auto_continue(true, true, 10, 10, "out", None));
    assert!(!should_auto_continue(true, true, 1, 10, "same", Some("same")));
    assert!(should_auto_continue(true, true, 1, 10, "new", Some("old")));
}

#[test]
fn tool_routing() {
    assert_eq!(tool_family("todo__add"), ToolFamily::Todo);
    assert_eq!(tool_family("agent__spawn"), ToolFamily::Supervisor);
    assert_eq!(tool_family("user__ask"), ToolFamily::User);
    assert_eq!(tool_family("mcp_invoke_github"), ToolFamily::McpInvoke);
    assert_eq!(tool_family("mcp_search_github"), ToolFamily::McpSearch);
    assert_eq!(tool_family("mcp_describe_github"), ToolFamily::McpDescribe);
    assert_eq!(tool_family("fs_cat"), ToolFamily::UserDefined);
    assert_eq!(tool_family("agent_"), ToolFamily::UserDefined);
    assert_eq!(route("agent__task_complete"), (ToolFamily::Supervisor, "task_complete"));
    assert_eq!(route("mcp_invoke_github"), (ToolFamily::McpInvoke, "github"));
    assert_eq!(route("web_search"), (ToolFamily::UserDefined, "web_search"));
    assert!(has_prefix("ab", ""));
    assert!(!has_prefix("a", "ab"));
}

fn call(name: &str, id: Option<&str>) -> ToolCall {
    ToolCall::new(name.into(), "{}".into(), id.map(|s| s.to_string()))
}

#[test]
fn dedup_keeps_last_per_id() {
    let calls = vec![
        call("a", Some("1")),
        call("b", None),
        call("c", Some("2")),
        call("d", Some("1")),
        call("e", None),
        call("f", Some("2")),
    ];
    let names: Vec<String> = ToolCall::dedup(calls).into_iter().map(|c| c.name).collect();
    assert_eq!(names, vec!["b", "d", "e", "f"]);
    assert!(ToolCall::dedup(vec![]).is_empty());
}

#[test]
fn json_stream_bytes_split_inside_character() {
    let text = "{\"k\":\"é✓\"}\n{\"k\":2}";
    let bytes = text.as_bytes();
    for cut in 1..bytes.len() {
        let mut s = JsonStream::new();
        let mut out = s.feed(&bytes[..cut]);
        out.extend(s.feed(&bytes[cut..]));
        out.extend(s.finish().unwrap());
        assert_eq!(out, vec!["{\"k\":\"é✓\"}", "{\"k\":2}"]);
    }
}

#[test]
fn json_stream_invalid_tail_is_error() {
    let mut s = JsonStream::new();
    assert_eq!(s.feed(b"{\"a\":1}"), vec!["{\"a\":1}"]);
    assert!(s.feed(&[0xE2, 0x9C]).is_empty());
    assert!(s.finish().is_err());
}

#[test]
fn assert_states() {
    assert!(AssertState::pass().check(STATE_ROLE | STATE_AGENT));
    assert!(AssertState::bare().check(0));
    assert!(!AssertState::bare().check(STATE_ROLE));
    assert!(AssertState::True(STATE_ROLE).check(STATE_ROLE | STATE_SESSION));
    assert!(!AssertState::True(STATE_AGENT).check(STATE_ROLE));
    assert!(AssertState::TrueFalse(STATE_ROLE, STATE_AGENT).check(STATE_ROLE));
    assert!(!AssertState::TrueFalse(STATE_ROLE, STATE_AGENT).check(STATE_ROLE | STATE_AGENT));
    assert!(WorkingMode::Cmd.is_cmd());
    assert!(WorkingMode::Repl.is_repl());
    assert!(!WorkingMode::Repl.is_cmd());
}

#[test]
fn create_with_dependencies_collects_errors() {
    let mut q = TaskQueue::new();
    let a = q.create("a".into(), "".into(), None, None);
    let deps = vec![a.clone(), "9".to_string(), a.clone()];
    let (id, errors) = q.create_with_dependencies("b".into(), "d".into(), &deps, None, None);
    assert_eq!(id, "2");
    assert_eq!(errors, vec![TaskError::UnknownTask]);
    assert_eq!(q.get(&id).unwrap().blocked_by, vec![1]);
    assert_eq!(q.get(&id).unwrap().status, TaskStatus::Blocked);
    let (id3, errors) = q.create_with_dependencies("c".into(), "".into(), &vec![], None, None);
    assert_eq!(id3, "3");
    assert!(errors.is_empty());
}

#[test]
fn todo_actions() {
    let mut list = TodoList::default();
    assert_eq!(apply_todo_action(&mut list, TodoAction::Init("Goal".into())), TodoOutcome::Initialized);
    assert_eq!(list.goal, "Goal");
    assert_eq!(apply_todo_action(&mut list, TodoAction::Add("".into())), TodoOutcome::MissingTask);
    assert_eq!(apply_todo_action(&mut list, TodoAction::Add("one".into())), TodoOutcome::Added(1));
    assert_eq!(apply_todo_action(&mut list, TodoAction::Add("two".into())), TodoOutcome::Added(2));
    assert_eq!(apply_todo_action(&mut list, TodoAction::Done(Some(2))), TodoOutcome::Marked(2));
    assert_eq!(apply_todo_action(&mut list, TodoAction::Done(Some(5))), TodoOutcome::NotFound(5));
    assert_eq!(apply_todo_action(&mut list, TodoAction::Done(None)), TodoOutcome::MissingId);
    assert_eq!(apply_todo_action(&mut list, TodoAction::List), TodoOutcome::Listed);
    assert_eq!(list.completed_count(), 1);
    assert_eq!(list.largest_id(), 2);
    list.todos[1].id = usize::MAX;
    assert_eq!(apply_todo_action(&mut list, TodoAction::Add("three".into())), TodoOutcome::IdsExhausted);
    assert_eq!(apply_todo_action(&mut list, TodoAction::Init("New".into())), TodoOutcome::Initialized);
    assert!(list.is_empty());
}

#[test]
fn turn_state_machine() {
    let answered = |output: &str, tools: usize, open: bool| TurnEvent::Answered {
        output: output.to_string(),
        tool_results: tools,
        has_incomplete_todos: open,
    };
    let mut state = LoopState::new(true, 2);
    assert_eq!(next_turn(&mut state, false, answered("a", 1, true)), TurnAction::RunTools);
    assert_eq!(next_turn(&mut state, false, answered("a", 0, true)), TurnAction::Continue);
    assert_eq!(state.continues, 1);
    assert_eq!(
        next_turn(&mut state, false, answered("a", 0, true)),
        TurnAction::Finish(AgentExitStatus::Completed)
    );
    assert_eq!(next_turn(&mut state, false, answered("b", 0, true)), TurnAction::Continue);
    assert_eq!(
        next_turn(&mut state, false, answered("c", 0, true)),
        TurnAction::Finish(AgentExitStatus::Completed)
    );
    assert_eq!(
        next_turn(&mut state, true, answered("d", 3, true)),
        TurnAction::Finish(AgentExitStatus::Cancelled)
    );
    assert_eq!(
        next_turn(&mut state, false, TurnEvent::Failed("boom".into())),
        TurnAction::Finish(AgentExitStatus::Failed("boom".into()))
    );
    let mut off = LoopState::new(false, 10);
    assert_eq!(
        next_turn(&mut off, false, answered("x", 0, true)),
        TurnAction::Finish(AgentExitStatus::Completed)
    );
}
