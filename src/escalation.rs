//! Questions from subordinate agents waiting for an answer from the user.
//!
//! A request carries its reply channel as an opaque `C`; the queue only
//! stores, finds and removes requests by id.
use vstd::prelude::*;

use crate::text::push_text;

verus! {

pub struct EscalationRequest<C> {
    pub id: String,
    pub from_agent_id: String,
    pub from_agent_name: String,
    pub question: String,
    pub options: Option<Vec<String>>,
    pub reply_tx: C,
}

/// What the root agent is shown of one pending request.
pub struct EscalationSummary {
    pub escalation_id: String,
    pub from_agent_id: String,
    pub from_agent_name: String,
    pub question: String,
    pub options: Option<Vec<String>>,
}

pub struct EscalationQueue<C> {
    pending: Vec<EscalationRequest<C>>,
}

/// The position of the request with id `id`, if there is one.
pub open spec fn request_position<C>(rs: Seq<EscalationRequest<C>>, id: Seq<char>) -> Option<int> {
    if exists|k: int| 0 <= k < rs.len() && #[trigger] rs[k].id@ == id {
        Some(choose|k: int| 0 <= k < rs.len() && #[trigger] rs[k].id@ == id)
    } else {
        None
    }
}

pub open spec fn request_ids_distinct<C>(rs: Seq<EscalationRequest<C>>) -> bool {
    forall|i: int, j: int|
        0 <= i < rs.len() && 0 <= j < rs.len() && i != j ==> #[trigger] rs[i].id@ != #[trigger] rs[j].id@
}

pub open spec fn options_view(o: Option<Vec<String>>) -> Option<Seq<Seq<char>>> {
    match o {
        Some(v) => Some(v@.map_values(|s: String| s@)),
        None => None,
    }
}

/// The summary of one request, as texts.
pub open spec fn summary_matches<C>(s: EscalationSummary, r: EscalationRequest<C>) -> bool {
    &&& s.escalation_id@ == r.id@
    &&& s.from_agent_id@ == r.from_agent_id@
    &&& s.from_agent_name@ == r.from_agent_name@
    &&& s.question@ == r.question@
    &&& options_view(s.options) == options_view(r.options)
}

fn copy_texts(v: &Vec<String>) -> (r: Vec<String>)
    ensures
        r@.map_values(|s: String| s@) == v@.map_values(|s: String| s@),
{
    let mut r: Vec<String> = Vec::new();
    let mut i: usize = 0;
    while i < v.len()
        invariant
            0 <= i <= v@.len(),
            r@.len() == i,
            forall|k: int| 0 <= k < i ==> #[trigger] r@[k]@ == v@[k]@,
        decreases v@.len() - i,
    {
        r.push(v[i].clone());
        i += 1;
    }
    proof {
        assert(r@.map_values(|s: String| s@) =~= v@.map_values(|s: String| s@));
    }
    r
}

impl<C> EscalationQueue<C> {
    pub closed spec fn requests(&self) -> Seq<EscalationRequest<C>> {
        self.pending@
    }

    pub open spec fn wf(&self) -> bool {
        request_ids_distinct(self.requests())
    }

    pub fn new() -> (r: Self)
        ensures
            r.wf(),
            r.requests().len() == 0,
    {
        EscalationQueue { pending: Vec::new() }
    }

    fn find(&self, id: &str) -> (r: Option<usize>)
        requires
            self.wf(),
        ensures
            r matches Some(k) ==> request_position(self.requests(), id@) == Some(k as int),
            r is None ==> request_position(self.requests(), id@) is None,
    {
        let key = id.to_owned();
        let mut i: usize = 0;
        while i < self.pending.len()
            invariant
                0 <= i <= self.pending@.len(),
                key@ == id@,
                self.wf(),
                forall|j: int| 0 <= j < i ==> self.pending@[j].id@ != id@,
            decreases self.pending@.len() - i,
        {
            if self.pending[i].id == key {
                proof {
                    let c = choose|k: int|
                        0 <= k < self.pending@.len() && #[trigger] self.pending@[k].id@ == id@;
                    assert(self.pending@[i as int].id@ == id@);
                    if c != i {
                        assert(self.pending@[c].id@ != self.pending@[i as int].id@);
                    }
                }
                return Some(i);
            }
            i += 1;
        }
        None
    }

    /// Stores a request, replacing one with the same id, and returns its id.
    pub fn submit(&mut self, request: EscalationRequest<C>) -> (id: String)
        requires
            old(self).wf(),
        ensures
            final(self).wf(),
            id@ == request.id@,
            final(self).requests() == match request_position(old(self).requests(), request.id@) {
                Some(k) => old(self).requests().update(k, request),
                None => old(self).requests().push(request),
            },
    {
        let id = request.id.clone();
        let ghost old_reqs = self.pending@;
        let ghost rq = request;
        match self.find(id.as_str()) {
            Some(k) => {
                self.pending.set(k, request);
                proof {
                    assert forall|i: int, j: int|
                        0 <= i < self.pending@.len() && 0 <= j < self.pending@.len() && i != j
                            implies #[trigger] self.pending@[i].id@ != #[trigger] self.pending@[j].id@ by {
                        assert(old_reqs[k as int].id@ == rq.id@);
                        if i != k && j != k {
                            assert(old_reqs[i].id@ != old_reqs[j].id@);
                        } else if i == k {
                            assert(old_reqs[j].id@ != old_reqs[k as int].id@);
                        } else {
                            assert(old_reqs[i].id@ != old_reqs[k as int].id@);
                        }
                    }
                }
            },
            None => {
                self.pending.push(request);
                proof {
                    assert forall|i: int, j: int|
                        0 <= i < self.pending@.len() && 0 <= j < self.pending@.len() && i != j
                            implies #[trigger] self.pending@[i].id@ != #[trigger] self.pending@[j].id@ by {
                        let last = old_reqs.len() as int;
                        if i != last && j != last {
                            assert(old_reqs[i].id@ != old_reqs[j].id@);
                        } else if i == last {
                            assert(self.pending@[j] == old_reqs[j]);
                            assert(!(0 <= j < old_reqs.len() && old_reqs[j].id@ == rq.id@));
                        } else {
                            assert(self.pending@[i] == old_reqs[i]);
                            assert(!(0 <= i < old_reqs.len() && old_reqs[i].id@ == rq.id@));
                        }
                    }
                }
            },
        }
        id
    }

    /// Removes and returns the request with the given id.
    pub fn take(&mut self, escalation_id: &str) -> (r: Option<EscalationRequest<C>>)
        requires
            old(self).wf(),
        ensures
            final(self).wf(),
            match request_position(old(self).requests(), escalation_id@) {
                Some(k) => r == Some(old(self).requests()[k]) && final(self).requests() == old(
                    self,
                ).requests().remove(k),
                None => r is None && final(self).requests() == old(self).requests(),
            },
    {
        match self.find(escalation_id) {
            Some(k) => {
                let ghost old_reqs = self.pending@;
                let req = self.pending.remove(k);
                proof {
                    old_reqs.remove_ensures(k as int);
                    assert forall|i: int, j: int|
                        0 <= i < self.pending@.len() && 0 <= j < self.pending@.len() && i != j
                            implies #[trigger] self.pending@[i].id@ != #[trigger] self.pending@[j].id@ by {
                        let oi = if i < k { i } else { i + 1 };
                        let oj = if j < k { j } else { j + 1 };
                        assert(self.pending@[i] == old_reqs[oi]);
                        assert(self.pending@[j] == old_reqs[oj]);
                        assert(old_reqs[oi].id@ != old_reqs[oj].id@);
                    }
                }
                Some(req)
            },
            None => None,
        }
    }

    /// One summary per pending request, in order of submission.
    pub fn pending_summary(&self) -> (r: Vec<EscalationSummary>)
        ensures
            r@.len() == self.requests().len(),
            forall|i: int|
                0 <= i < r@.len() ==> summary_matches(#[trigger] r@[i], self.requests()[i]),
    {
        let mut r: Vec<EscalationSummary> = Vec::new();
        let mut i: usize = 0;
        while i < self.pending.len()
            invariant
                0 <= i <= self.pending@.len(),
                r@.len() == i,
                forall|k: int| 0 <= k < i ==> summary_matches(#[trigger] r@[k], self.pending@[k]),
            decreases self.pending@.len() - i,
        {
            let p = &self.pending[i];
            let options = match &p.options {
                Some(v) => Some(copy_texts(v)),
                None => None,
            };
            r.push(
                EscalationSummary {
                    escalation_id: p.id.clone(),
                    from_agent_id: p.from_agent_id.clone(),
                    from_agent_name: p.from_agent_name.clone(),
                    question: p.question.clone(),
                    options,
                },
            );
            i += 1;
        }
        r
    }

    pub fn has_pending(&self) -> (r: bool)
        ensures
            r == (self.requests().len() > 0),
    {
        self.pending.len() > 0
    }
}

impl<C> Default for EscalationQueue<C> {
    fn default() -> (r: Self)
        ensures
            r.wf(),
            r.requests().len() == 0,
    {
        EscalationQueue::new()
    }
}

/// Relies on uuid's `Uuid::new_v4` and its `Display`: a random version-4
/// UUID in its hyphenated form, which has 36 characters.
#[verifier::external_body]
pub(crate) fn random_uuid_text() -> (r: String)
    ensures
        r@.len() == 36,
{
    uuid::Uuid::new_v4().to_string()
}

/// The escalation id built from a UUID text: `esc_` and its first 8 characters.
pub fn escalation_id_from(uuid_text: &str) -> (r: String)
    requires
        uuid_text@.len() >= 8,
    ensures
        r@ == "esc_"@ + uuid_text@.take(8),
{
    let mut s = String::new();
    push_text(&mut s, "esc_");
    push_text(&mut s, uuid_text.substring_char(0, 8));
    s
}

/// A fresh escalation id: `esc_` and 8 characters of a random UUID.
pub fn new_escalation_id() -> (r: String)
    ensures
        r@.len() == 12,
        r@.take(4) == "esc_"@,
{
    let u = random_uuid_text();
    let r = escalation_id_from(u.as_str());
    proof {
        reveal_strlit("esc_");
        assert(r@.take(4) =~= "esc_"@);
    }
    r
}

} // verus!
