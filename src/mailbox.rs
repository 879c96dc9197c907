//! Per-agent inboxes of typed envelopes.
use vstd::prelude::*;

verus! {

/// The content of a message between agents.
///
/// Shutdown signals and task events form the control plane and are handed
/// out before free text, the data plane.
#[derive(Debug, Clone)]
pub enum EnvelopePayload {
    Text { content: String },
    TaskCompleted { task_id: String, summary: String },
    ShutdownRequest { reason: String },
    ShutdownApproved,
}

/// A message routed from one agent to another.
#[derive(Debug, Clone)]
pub struct Envelope {
    pub from: String,
    pub to: String,
    pub payload: EnvelopePayload,
    /// Milliseconds since the Unix epoch, UTC.
    pub timestamp: i64,
}

/// The rank of a payload in a drain: shutdown first, then task events, then text.
pub open spec fn priority(p: EnvelopePayload) -> int {
    match p {
        EnvelopePayload::ShutdownRequest { .. } => 0,
        EnvelopePayload::ShutdownApproved => 0,
        EnvelopePayload::TaskCompleted { .. } => 1,
        EnvelopePayload::Text { .. } => 2,
    }
}

/// The envelopes of rank `k`, in arrival order.
pub open spec fn of_rank(s: Seq<Envelope>, k: int) -> Seq<Envelope> {
    s.filter(|e: Envelope| priority(e.payload) == k)
}

/// The envelopes sorted by rank, keeping arrival order within a rank.
pub open spec fn by_priority(s: Seq<Envelope>) -> Seq<Envelope> {
    of_rank(s, 0) + of_rank(s, 1) + of_rank(s, 2)
}

fn rank(p: &EnvelopePayload) -> (r: usize)
    ensures
        r == priority(*p),
{
    match p {
        EnvelopePayload::ShutdownRequest { .. } => 0,
        EnvelopePayload::ShutdownApproved => 0,
        EnvelopePayload::TaskCompleted { .. } => 1,
        EnvelopePayload::Text { .. } => 2,
    }
}

/// The messages waiting for one agent.
#[derive(Debug)]
pub struct Inbox {
    messages: Vec<Envelope>,
}

impl View for Inbox {
    type V = Seq<Envelope>;

    closed spec fn view(&self) -> Seq<Envelope> {
        self.messages@
    }
}

impl Inbox {
    pub fn new() -> (r: Self)
        ensures
            r@.len() == 0,
    {
        Inbox { messages: Vec::new() }
    }

    pub fn deliver(&mut self, envelope: Envelope)
        ensures
            final(self)@ == old(self)@.push(envelope),
    {
        self.messages.push(envelope);
    }

    /// Takes every waiting message, control plane first, arrival order kept within a rank.
    pub fn drain(&mut self) -> (r: Vec<Envelope>)
        ensures
            final(self)@.len() == 0,
            r@ == by_priority(old(self)@),
    {
        let ghost all = self.messages@;
        let mut reversed: Vec<Envelope> = Vec::new();
        while self.messages.len() > 0
            invariant
                self.messages@ == all.take(self.messages@.len() as int),
                reversed@.len() + self.messages@.len() == all.len(),
                forall|k: int|
                    0 <= k < reversed@.len() ==> #[trigger] reversed@[k] == all[all.len() - 1 - k],
            decreases self.messages@.len(),
        {
            let e = self.messages.pop().unwrap();
            reversed.push(e);
            proof {
                assert(self.messages@ =~= all.take(self.messages@.len() as int));
            }
        }
        let mut control: Vec<Envelope> = Vec::new();
        let mut events: Vec<Envelope> = Vec::new();
        let mut text: Vec<Envelope> = Vec::new();
        while reversed.len() > 0
            invariant
                reversed@.len() <= all.len(),
                forall|k: int|
                    0 <= k < reversed@.len() ==> #[trigger] reversed@[k] == all[all.len() - 1 - k],
                control@ == of_rank(all.take(all.len() - reversed@.len()), 0),
                events@ == of_rank(all.take(all.len() - reversed@.len()), 1),
                text@ == of_rank(all.take(all.len() - reversed@.len()), 2),
            decreases reversed@.len(),
        {
            let ghost i = all.len() - reversed@.len();
            let e = reversed.pop().unwrap();
            proof {
                assert(e == all[i]);
                let t = all.take(i + 1);
                assert(t.drop_last() =~= all.take(i));
                assert(t.last() == e);
                reveal_with_fuel(Seq::filter, 1);
            }
            let k = rank(&e.payload);
            if k == 0 {
                control.push(e);
            } else if k == 1 {
                events.push(e);
            } else {
                text.push(e);
            }
        }
        proof {
            assert(all.take(all.len() as int) =~= all);
        }
        control.append(&mut events);
        control.append(&mut text);
        control
    }

    pub fn pending_count(&self) -> (r: usize)
        ensures
            r == self@.len(),
    {
        self.messages.len()
    }
}

impl EnvelopePayload {
    /// A copy of the payload.
    pub fn copy(&self) -> (r: Self)
        ensures
            r == *self,
    {
        match self {
            EnvelopePayload::Text { content } => EnvelopePayload::Text { content: content.clone() },
            EnvelopePayload::TaskCompleted { task_id, summary } => EnvelopePayload::TaskCompleted {
                task_id: task_id.clone(),
                summary: summary.clone(),
            },
            EnvelopePayload::ShutdownRequest { reason } => EnvelopePayload::ShutdownRequest {
                reason: reason.clone(),
            },
            EnvelopePayload::ShutdownApproved => EnvelopePayload::ShutdownApproved,
        }
    }
}

impl Envelope {
    /// A copy of the envelope.
    pub fn copy(&self) -> (r: Self)
        ensures
            r == *self,
    {
        Envelope {
            from: self.from.clone(),
            to: self.to.clone(),
            payload: self.payload.copy(),
            timestamp: self.timestamp,
        }
    }
}

impl Clone for Inbox {
    /// A deep copy of the waiting messages.
    fn clone(&self) -> (r: Self)
        ensures
            r@ == self@,
    {
        let mut messages: Vec<Envelope> = Vec::new();
        let mut i: usize = 0;
        while i < self.messages.len()
            invariant
                0 <= i <= self.messages@.len(),
                messages@ == self.messages@.take(i as int),
            decreases self.messages@.len() - i,
        {
            messages.push(self.messages[i].copy());
            i += 1;
            proof {
                assert(messages@ =~= self.messages@.take(i as int));
            }
        }
        proof {
            assert(self.messages@.take(i as int) =~= self.messages@);
        }
        Inbox { messages }
    }
}

/// Draining an empty inbox hands out nothing; since a drain empties the
/// inbox, a second drain right after the first hands out nothing either.
pub proof fn lemma_drain_empty()
    ensures
        by_priority(Seq::<Envelope>::empty()) == Seq::<Envelope>::empty(),
{
    reveal_with_fuel(Seq::filter, 1);
    assert(by_priority(Seq::<Envelope>::empty()) =~= Seq::<Envelope>::empty());
}

} // verus!
