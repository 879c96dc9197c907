use loki_core::escalation::{escalation_id_from, new_escalation_id, EscalationQueue, EscalationRequest};
use loki_core::mailbox::{Envelope, EnvelopePayload, Inbox};
use loki_core::supervisor::{AgentHandle, Supervisor, SupervisorError};

fn envelope(payload: EnvelopePayload, at: i64) -> Envelope {
    Envelope { from: "a".into(), to: "b".into(), payload, timestamp: at }
}

fn text(content: &str, at: i64) -> Envelope {
    envelope(EnvelopePayload::Text { content: content.into() }, at)
}

#[test]
fn drain_orders_control_plane_first() {
    let mut inbox = Inbox::new();
    inbox.deliver(text("hello", 1));
    inbox.deliver(envelope(
        EnvelopePayload::TaskCompleted { task_id: "3".into(), summary: "done".into() },
        2,
    ));
    inbox.deliver(text("again", 3));
    inbox.deliver(envelope(EnvelopePayload::ShutdownRequest { reason: "stop".into() }, 4));
    inbox.deliver(envelope(EnvelopePayload::ShutdownApproved, 5));
    assert_eq!(inbox.pending_count(), 5);
    let order: Vec<i64> = inbox.drain().iter().map(|e| e.timestamp).collect();
    assert_eq!(order, vec![4, 5, 2, 1, 3]);
    assert_eq!(inbox.pending_count(), 0);
}

#[test]
fn drain_on_empty_inbox_is_empty() {
    let mut inbox = Inbox::new();
    assert!(inbox.drain().is_empty());
    assert!(inbox.drain().is_empty());
    inbox.deliver(text("x", 1));
    assert_eq!(inbox.drain().len(), 1);
    assert!(inbox.drain().is_empty());
}

fn handle(id: &str, depth: usize) -> AgentHandle<()> {
    AgentHandle { id: id.into(), agent_name: "explore".into(), depth, runtime: () }
}

#[test]
fn register_checks_capacity_and_depth() {
    let mut sup: Supervisor<()> = Supervisor::new(2, 1);
    assert_eq!(sup.register(handle("agent_a", 1)), Ok(()));
    assert_eq!(sup.register(handle("agent_b", 2)), Err(SupervisorError::MaxDepthExceeded));
    assert_eq!(sup.register(handle("agent_b", 0)), Ok(()));
    assert_eq!(sup.register(handle("agent_c", 0)), Err(SupervisorError::AtCapacity));
    assert_eq!(sup.active_count(), 2);
    assert_eq!(sup.max_concurrent(), 2);
    assert_eq!(sup.max_depth(), 1);
    let agents = sup.list_agents();
    assert_eq!(agents, vec![("agent_a", "explore"), ("agent_b", "explore")]);
}

#[test]
fn register_same_id_replaces() {
    let mut sup: Supervisor<u32> = Supervisor::new(3, 3);
    let mut h = handle("agent_a", 1);
    let h2 = AgentHandle { id: h.id.clone(), agent_name: "coder".into(), depth: 2, runtime: 7u32 };
    sup.register(AgentHandle { id: std::mem::take(&mut h.id), agent_name: h.agent_name, depth: 1, runtime: 1u32 })
        .unwrap();
    sup.register(h2).unwrap();
    assert_eq!(sup.active_count(), 1);
    assert_eq!(sup.get("agent_a").unwrap().runtime, 7);
}

#[test]
fn take_removes_handle() {
    let mut sup: Supervisor<()> = Supervisor::new(4, 3);
    sup.register(handle("x", 1)).unwrap();
    sup.register(handle("y", 1)).unwrap();
    assert_eq!(sup.take("x").map(|h| h.id), Some("x".to_string()));
    assert!(sup.take("x").is_none());
    assert!(sup.get("x").is_none());
    assert_eq!(sup.active_count(), 1);
}

#[test]
fn refusal_messages() {
    assert_eq!(
        SupervisorError::AtCapacity.message(4, 4),
        "Cannot spawn agent: at capacity (4/4)"
    );
    assert_eq!(
        SupervisorError::MaxDepthExceeded.message(4, 3),
        "Cannot spawn agent: max depth exceeded (4/3)"
    );
}

#[test]
fn supervisor_owns_task_queue() {
    let mut sup: Supervisor<()> = Supervisor::new(4, 3);
    let id = sup.task_queue_mut().create("A".into(), "".into(), None, None);
    assert_eq!(sup.task_queue().get(&id).unwrap().subject, "A");
}

fn request(id: &str, options: Option<Vec<String>>) -> EscalationRequest<u8> {
    EscalationRequest {
        id: id.into(),
        from_agent_id: "agent_x_1".into(),
        from_agent_name: "x".into(),
        question: "pick".into(),
        options,
        reply_tx: 0,
    }
}

#[test]
fn escalation_submit_take_summary() {
    let mut q: EscalationQueue<u8> = EscalationQueue::new();
    assert!(!q.has_pending());
    assert_eq!(q.submit(request("esc_1", Some(vec!["a".into(), "b".into()]))), "esc_1");
    q.submit(request("esc_2", None));
    assert!(q.has_pending());
    let summary = q.pending_summary();
    assert_eq!(summary.len(), 2);
    assert_eq!(summary[0].escalation_id, "esc_1");
    assert_eq!(summary[0].options, Some(vec!["a".to_string(), "b".to_string()]));
    assert_eq!(summary[1].options, None);
    assert_eq!(summary[1].question, "pick");
    assert_eq!(q.take("esc_1").map(|r| r.id), Some("esc_1".to_string()));
    assert!(q.take("esc_1").is_none());
    assert!(q.take("esc_2").is_some());
    assert!(!q.has_pending());
}

#[test]
fn escalation_ids() {
    assert_eq!(escalation_id_from("67e55044-10b1-426f-9247-bb680e5fe0c8"), "esc_67e55044");
    let id = new_escalation_id();
    assert_eq!(id.len(), 12);
    assert!(id.starts_with("esc_"));
    assert!(id[4..].chars().all(|c| c.is_ascii_hexdigit()));
}

#[test]
fn inbox_clone_is_deep() {
    let mut inbox = Inbox::new();
    inbox.deliver(text("one", 1));
    inbox.deliver(envelope(EnvelopePayload::ShutdownApproved, 2));
    let mut copy = inbox.clone();
    assert_eq!(inbox.drain().len(), 2);
    assert_eq!(copy.pending_count(), 2);
    let order: Vec<i64> = copy.drain().iter().map(|e| e.timestamp).collect();
    assert_eq!(order, vec![2, 1]);
}

#[test]
fn escalation_queue_default_is_empty() {
    let q: EscalationQueue<()> = EscalationQueue::default();
    assert!(!q.has_pending());
    assert!(q.pending_summary().is_empty());
}
