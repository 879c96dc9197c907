//! The registry of running child agents, with capacity and depth gates.
//!
//! A handle carries the runtime parts of an agent (its join handle, abort
//! signal and shared inbox) as an opaque `R`: the registry decides only on
//! ids, names and depths.
use vstd::prelude::*;

use crate::escalation::random_uuid_text;
use crate::taskqueue::TaskQueue;
use crate::text::{decimal, decimal_string, push_text};

verus! {

#[derive(Debug, Clone, PartialEq, Eq)]
pub enum AgentExitStatus {
    Completed,
    Cancelled,
    Failed(String),
}

pub struct AgentResult {
    pub id: String,
    pub agent_name: String,
    pub output: String,
    pub exit_status: AgentExitStatus,
}

pub struct AgentHandle<R> {
    pub id: String,
    pub agent_name: String,
    pub depth: usize,
    pub runtime: R,
}

/// Why an agent could not be registered.
#[derive(Debug, Clone, Copy, PartialEq, Eq, Structural)]
pub enum SupervisorError {
    AtCapacity,
    MaxDepthExceeded,
}

pub struct Supervisor<R> {
    handles: Vec<AgentHandle<R>>,
    task_queue: TaskQueue,
    max_concurrent: usize,
    max_depth: usize,
}

/// The position of the handle with id `id`, if there is one.
pub open spec fn handle_position<R>(hs: Seq<AgentHandle<R>>, id: Seq<char>) -> Option<int> {
    if exists|k: int| 0 <= k < hs.len() && #[trigger] hs[k].id@ == id {
        Some(choose|k: int| 0 <= k < hs.len() && #[trigger] hs[k].id@ == id)
    } else {
        None
    }
}

/// No two handles share an id.
pub open spec fn ids_distinct<R>(hs: Seq<AgentHandle<R>>) -> bool {
    forall|i: int, j: int|
        0 <= i < hs.len() && 0 <= j < hs.len() && i != j ==> #[trigger] hs[i].id@ != #[trigger] hs[j].id@
}

/// The text of a refused registration, with the numbers it refers to.
pub open spec fn refusal_text(e: SupervisorError, count: nat, limit: nat) -> Seq<char> {
    match e {
        SupervisorError::AtCapacity => "Cannot spawn agent: at capacity ("@ + decimal(count) + "/"@
            + decimal(limit) + ")"@,
        SupervisorError::MaxDepthExceeded => "Cannot spawn agent: max depth exceeded ("@ + decimal(
            count,
        ) + "/"@ + decimal(limit) + ")"@,
    }
}

impl SupervisorError {
    /// Describes the refusal; `count` is the active count or the depth asked for.
    pub fn message(&self, count: usize, limit: usize) -> (r: String)
        ensures
            r@ == refusal_text(*self, count as nat, limit as nat),
    {
        let mut s = String::new();
        match self {
            SupervisorError::AtCapacity => push_text(&mut s, "Cannot spawn agent: at capacity ("),
            SupervisorError::MaxDepthExceeded => push_text(
                &mut s,
                "Cannot spawn agent: max depth exceeded (",
            ),
        }
        let c = decimal_string(count);
        push_text(&mut s, c.as_str());
        push_text(&mut s, "/");
        let l = decimal_string(limit);
        push_text(&mut s, l.as_str());
        push_text(&mut s, ")");
        s
    }
}

impl<R> Supervisor<R> {
    pub closed spec fn agents(&self) -> Seq<AgentHandle<R>> {
        self.handles@
    }

    pub closed spec fn queue(&self) -> TaskQueue {
        self.task_queue
    }

    pub closed spec fn capacity(&self) -> nat {
        self.max_concurrent as nat
    }

    pub closed spec fn depth_limit(&self) -> nat {
        self.max_depth as nat
    }

    /// Within capacity, within depth, distinct ids, and a well-formed task queue.
    pub open spec fn wf(&self) -> bool {
        &&& self.agents().len() <= self.capacity()
        &&& forall|i: int| 0 <= i < self.agents().len() ==> #[trigger] self.agents()[i].depth
            <= self.depth_limit()
        &&& ids_distinct(self.agents())
        &&& self.queue().wf()
    }

    pub fn new(max_concurrent: usize, max_depth: usize) -> (r: Self)
        ensures
            r.wf(),
            r.agents().len() == 0,
            r.queue()@.len() == 0,
            r.capacity() == max_concurrent,
            r.depth_limit() == max_depth,
    {
        Supervisor { handles: Vec::new(), task_queue: TaskQueue::new(), max_concurrent, max_depth }
    }

    pub fn active_count(&self) -> (r: usize)
        ensures
            r == self.agents().len(),
    {
        self.handles.len()
    }

    pub fn max_concurrent(&self) -> (r: usize)
        ensures
            r == self.capacity(),
    {
        self.max_concurrent
    }

    pub fn max_depth(&self) -> (r: usize)
        ensures
            r == self.depth_limit(),
    {
        self.max_depth
    }

    pub fn task_queue(&self) -> (r: &TaskQueue)
        ensures
            *r == self.queue(),
    {
        &self.task_queue
    }

    pub fn task_queue_mut(&mut self) -> (r: &mut TaskQueue)
        ensures
            *r == old(self).queue(),
            final(self).queue() == *final(r),
            final(self).agents() == old(self).agents(),
            final(self).capacity() == old(self).capacity(),
            final(self).depth_limit() == old(self).depth_limit(),
    {
        &mut self.task_queue
    }

    fn find(&self, id: &str) -> (r: Option<usize>)
        requires
            ids_distinct(self.agents()),
        ensures
            r matches Some(k) ==> handle_position(self.agents(), id@) == Some(k as int),
            r is None ==> handle_position(self.agents(), id@) is None,
    {
        let key = id.to_owned();
        let mut i: usize = 0;
        while i < self.handles.len()
            invariant
                0 <= i <= self.handles@.len(),
                key@ == id@,
                ids_distinct(self.agents()),
                forall|j: int| 0 <= j < i ==> self.handles@[j].id@ != id@,
            decreases self.handles@.len() - i,
        {
            if self.handles[i].id == key {
                proof {
                    let c = choose|k: int|
                        0 <= k < self.handles@.len() && #[trigger] self.handles@[k].id@ == id@;
                    assert(self.handles@[i as int].id@ == id@);
                    if c != i {
                        assert(self.handles@[c].id@ != self.handles@[i as int].id@);
                    }
                }
                return Some(i);
            }
            i += 1;
        }
        None
    }

    /// Registers a child agent; a handle with the same id is replaced.
    pub fn register(&mut self, handle: AgentHandle<R>) -> (r: Result<(), SupervisorError>)
        requires
            old(self).wf(),
        ensures
            final(self).wf(),
            final(self).queue() == old(self).queue(),
            final(self).capacity() == old(self).capacity(),
            final(self).depth_limit() == old(self).depth_limit(),
            old(self).agents().len() >= old(self).capacity() ==> r == Err::<(), SupervisorError>(
                SupervisorError::AtCapacity,
            ),
            old(self).agents().len() < old(self).capacity() && handle.depth > old(self).depth_limit()
                ==> r == Err::<(), SupervisorError>(SupervisorError::MaxDepthExceeded),
            r is Err ==> final(self).agents() == old(self).agents(),
            r is Ok <==> (old(self).agents().len() < old(self).capacity() && handle.depth <= old(
                self,
            ).depth_limit()),
            r is Ok ==> final(self).agents() == match handle_position(old(self).agents(), handle.id@) {
                Some(k) => old(self).agents().update(k, handle),
                None => old(self).agents().push(handle),
            },
    {
        if self.handles.len() >= self.max_concurrent {
            return Err(SupervisorError::AtCapacity);
        }
        if handle.depth > self.max_depth {
            return Err(SupervisorError::MaxDepthExceeded);
        }
        let ghost old_handles = self.handles@;
        let ghost h = handle;
        match self.find(handle.id.as_str()) {
            Some(k) => {
                self.handles.set(k, handle);
                proof {
                    assert forall|i: int, j: int|
                        0 <= i < self.handles@.len() && 0 <= j < self.handles@.len() && i != j
                            implies #[trigger] self.handles@[i].id@ != #[trigger] self.handles@[j].id@ by {
                        if i != k && j != k {
                            assert(old_handles[i].id@ != old_handles[j].id@);
                        } else if i == k {
                            assert(old_handles[k as int].id@ == h.id@);
                            assert(old_handles[j].id@ != old_handles[k as int].id@);
                        } else {
                            assert(old_handles[k as int].id@ == h.id@);
                            assert(old_handles[i].id@ != old_handles[k as int].id@);
                        }
                    }
                }
            },
            None => {
                self.handles.push(handle);
                proof {
                    assert forall|i: int, j: int|
                        0 <= i < self.handles@.len() && 0 <= j < self.handles@.len() && i != j
                            implies #[trigger] self.handles@[i].id@ != #[trigger] self.handles@[j].id@ by {
                        let last = old_handles.len() as int;
                        if i != last && j != last {
                            assert(old_handles[i].id@ != old_handles[j].id@);
                        } else if i == last {
                            assert(self.handles@[j] == old_handles[j]);
                            assert(!(0 <= j < old_handles.len() && old_handles[j].id@ == h.id@));
                        } else {
                            assert(self.handles@[i] == old_handles[i]);
                            assert(!(0 <= i < old_handles.len() && old_handles[i].id@ == h.id@));
                        }
                    }
                }
            },
        }
        Ok(())
    }

    /// The handle with the given id.
    pub fn get(&self, id: &str) -> (r: Option<&AgentHandle<R>>)
        requires
            self.wf(),
        ensures
            match handle_position(self.agents(), id@) {
                Some(k) => r == Some(&self.agents()[k]),
                None => r is None,
            },
    {
        match self.find(id) {
            Some(k) => Some(&self.handles[k]),
            None => None,
        }
    }

    /// Removes and returns the handle with the given id.
    pub fn take(&mut self, id: &str) -> (r: Option<AgentHandle<R>>)
        requires
            old(self).wf(),
        ensures
            final(self).wf(),
            final(self).queue() == old(self).queue(),
            final(self).capacity() == old(self).capacity(),
            final(self).depth_limit() == old(self).depth_limit(),
            match handle_position(old(self).agents(), id@) {
                Some(k) => r == Some(old(self).agents()[k]) && final(self).agents() == old(
                    self,
                ).agents().remove(k),
                None => r is None && final(self).agents() == old(self).agents(),
            },
    {
        match self.find(id) {
            Some(k) => {
                let ghost old_handles = self.handles@;
                let h = self.handles.remove(k);
                proof {
                    old_handles.remove_ensures(k as int);
                    assert forall|i: int, j: int|
                        0 <= i < self.handles@.len() && 0 <= j < self.handles@.len() && i != j
                            implies #[trigger] self.handles@[i].id@ != #[trigger] self.handles@[j].id@ by {
                        let oi = if i < k { i } else { i + 1 };
                        let oj = if j < k { j } else { j + 1 };
                        assert(self.handles@[i] == old_handles[oi]);
                        assert(self.handles@[j] == old_handles[oj]);
                        assert(old_handles[oi].id@ != old_handles[oj].id@);
                    }
                    assert forall|i: int| 0 <= i < self.handles@.len() implies #[trigger] self.handles@[i].depth
                        <= self.max_depth by {
                        let oi = if i < k { i } else { i + 1 };
                        assert(self.handles@[i] == old_handles[oi]);
                    }
                }
                Some(h)
            },
            None => None,
        }
    }

    /// The id and agent name of each registered agent.
    pub fn list_agents(&self) -> (r: Vec<(&str, &str)>)
        ensures
            r@.len() == self.agents().len(),
            forall|i: int|
                0 <= i < r@.len() ==> (#[trigger] r@[i]).0@ == self.agents()[i].id@ && r@[i].1@
                    == self.agents()[i].agent_name@,
    {
        let mut r: Vec<(&str, &str)> = Vec::new();
        let mut i: usize = 0;
        while i < self.handles.len()
            invariant
                0 <= i <= self.handles@.len(),
                r@.len() == i,
                forall|k: int|
                    0 <= k < i ==> (#[trigger] r@[k]).0@ == self.handles@[k].id@ && r@[k].1@
                        == self.handles@[k].agent_name@,
            decreases self.handles@.len() - i,
        {
            let h = &self.handles[i];
            r.push((h.id.as_str(), h.agent_name.as_str()));
            i += 1;
        }
        r
    }
}

/// The id of a spawned agent: `agent_`, its name, `_`, and 8 characters of a UUID text.
pub fn agent_id_from(agent_name: &str, uuid_text: &str) -> (r: String)
    requires
        uuid_text@.len() >= 8,
    ensures
        r@ == "agent_"@ + agent_name@ + "_"@ + uuid_text@.take(8),
{
    let mut s = String::new();
    push_text(&mut s, "agent_");
    push_text(&mut s, agent_name);
    push_text(&mut s, "_");
    push_text(&mut s, uuid_text.substring_char(0, 8));
    s
}

/// A fresh id for an agent named `agent_name`, with 8 characters of a random UUID.
pub fn new_agent_id(agent_name: &str) -> (r: String)
    ensures
        r@.len() == agent_name@.len() + 15,
        r@.take(agent_name@.len() as int + 7) == "agent_"@ + agent_name@ + "_"@,
{
    let u = random_uuid_text();
    let r = agent_id_from(agent_name, u.as_str());
    proof {
        reveal_strlit("agent_");
        reveal_strlit("_");
        assert(r@.take(agent_name@.len() as int + 7) =~= "agent_"@ + agent_name@ + "_"@);
    }
    r
}

impl<R> Supervisor<R> {
    /// The depth of a child spawned by an agent at `parent_depth`, if the
    /// supervisor has room for it and the depth stays within the limit.
    pub fn spawn_depth(&self, parent_depth: usize) -> (r: Result<usize, SupervisorError>)
        ensures
            self.agents().len() >= self.capacity() ==> r == Err::<usize, SupervisorError>(
                SupervisorError::AtCapacity,
            ),
            self.agents().len() < self.capacity() && parent_depth + 1 > self.depth_limit() ==> r
                == Err::<usize, SupervisorError>(SupervisorError::MaxDepthExceeded),
            self.agents().len() < self.capacity() && parent_depth + 1 <= self.depth_limit() ==> r
                == Ok::<usize, SupervisorError>((parent_depth + 1) as usize),
    {
        if self.handles.len() >= self.max_concurrent {
            return Err(SupervisorError::AtCapacity);
        }
        if parent_depth >= self.max_depth {
            return Err(SupervisorError::MaxDepthExceeded);
        }
        Ok(parent_depth + 1)
    }
}

/// In every well-formed supervisor no more agents are registered than its
/// capacity, and none deeper than its depth limit.
pub proof fn lemma_supervisor_limits<R>(s: &Supervisor<R>)
    requires
        s.wf(),
    ensures
        s.agents().len() <= s.capacity(),
        forall|i: int| 0 <= i < s.agents().len() ==> #[trigger] s.agents()[i].depth <= s.depth_limit(),
{
}

} // verus!
