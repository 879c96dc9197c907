//! Collects one model response: its text and its tool calls, with loop detection.
//!
//! A call repeats another when both name and arguments are equal. A new call
//! is refused when the recent history already repeats it: either its last
//! `max_call_repeats` entries chain onto it, or its last
//! `call_repeat_chain_len` entries all repeat one another and the new call
//! continues them.
use vstd::prelude::*;

use crate::text::{decimal, decimal_string, push_text};

verus! {

/// A tool call requested by the model; `arguments` is its JSON text.
#[derive(Debug, Clone)]
pub struct ToolCall {
    pub name: String,
    pub arguments: String,
    pub id: Option<String>,
}

impl ToolCall {
    pub fn new(name: String, arguments: String, id: Option<String>) -> (r: Self)
        ensures
            r.name == name,
            r.arguments == arguments,
            r.id == id,
    {
        ToolCall { name, arguments, id }
    }
}

/// An event sent to whoever shows the response as it streams.
#[derive(Debug)]
pub enum SseEvent {
    Text(String),
    Done,
}

/// One message of a server-sent-event stream.
#[derive(Debug)]
pub struct SseMessage {
    pub event: String,
    pub data: String,
}

pub open spec fn same_call(a: ToolCall, b: ToolCall) -> bool {
    a.name@ == b.name@ && a.arguments@ == b.arguments@
}

/// The last `m` entries of `h` each repeat the entry before them.
pub open spec fn tail_repeats(h: Seq<ToolCall>, m: int) -> bool {
    &&& 1 <= m < h.len()
    &&& forall|j: int| h.len() - m <= j < h.len() ==> #[trigger] same_call(h[j - 1], h[j])
}

/// How many trailing repeats in the history make a repeated call a loop.
pub open spec fn repeat_span(max_repeats: nat) -> int {
    if max_repeats >= 2 {
        max_repeats - 1
    } else {
        1
    }
}

/// Refusal by repetition count: the last entry repeats the new call and enough
/// entries before it repeat each other.
pub open spec fn repeated_call(h: Seq<ToolCall>, call: ToolCall, max_repeats: nat) -> bool {
    &&& h.len() >= 1
    &&& same_call(h.last(), call)
    &&& tail_repeats(h, repeat_span(max_repeats))
}

/// Refusal by chain: the last `chain_len` entries repeat one another and the new call continues them.
pub open spec fn repeated_chain(h: Seq<ToolCall>, call: ToolCall, chain_len: nat) -> bool {
    &&& h.len() >= chain_len
    &&& forall|j: int| h.len() - chain_len < j < h.len() ==> #[trigger] same_call(h[j - 1], h[j])
    &&& same_call(h.last(), call)
}

/// Whether `call` is refused after the history `h`.
pub open spec fn is_loop(h: Seq<ToolCall>, call: ToolCall, max_repeats: nat, chain_len: nat) -> bool {
    &&& h.len() >= chain_len
    &&& (repeated_call(h, call, max_repeats) || repeated_chain(h, call, chain_len))
}

/// The numbered lines that list the repeating chain, starting at number `first`.
pub open spec fn chain_lines(chain: Seq<ToolCall>, first: nat) -> Seq<char>
    decreases chain.len(),
{
    if chain.len() == 0 {
        Seq::empty()
    } else {
        chain_lines(chain.drop_last(), first) + "  "@ + decimal((first + chain.len() - 1) as nat)
            + ". "@ + chain.last().name@ + " with arguments "@ + chain.last().arguments@ + "\n"@
    }
}

/// The diagnostic handed back instead of running a looping call.
pub open spec fn loop_message(h: Seq<ToolCall>, call: ToolCall, chain_len: nat) -> Seq<char> {
    "⚠️ Call loop detected! ⚠️"@ + "The call '"@ + call.name@ + "' with arguments '"@ + call.arguments@
        + "' is repeating.\n"@ + (if h.len() >= chain_len {
        "The following sequence of calls is repeating:\n"@ + chain_lines(
            h.subrange(h.len() - chain_len, h.len() as int),
            1,
        )
    } else {
        Seq::empty()
    })
        + "\nPlease move on to the next task in your sequence using the last output you got from the call or chain you are trying to re-execute. "@
        + "Consider using different parameters or a different approach to avoid this loop."@
}

/// The history after accepting `call`, with room for `cap` entries.
pub open spec fn pushed(h: Seq<ToolCall>, call: ToolCall, cap: nat) -> Seq<ToolCall> {
    if h.len() == cap {
        h.drop_first().push(call)
    } else {
        h.push(call)
    }
}

/// The text and tool calls of one response, with the recent call history.
pub struct SseHandler {
    buffer: String,
    tool_calls: Vec<ToolCall>,
    last_tool_calls: Vec<ToolCall>,
    max_call_repeats: usize,
    call_repeat_chain_len: usize,
}

fn copy_call(c: &ToolCall) -> (r: ToolCall)
    ensures
        r == *c,
{
    let id = match &c.id {
        Some(s) => Some(s.clone()),
        None => None,
    };
    ToolCall { name: c.name.clone(), arguments: c.arguments.clone(), id }
}

fn calls_match(a: &ToolCall, b: &ToolCall) -> (r: bool)
    ensures
        r == same_call(*a, *b),
{
    a.name == b.name && a.arguments == b.arguments
}

impl SseHandler {
    pub closed spec fn text_so_far(&self) -> Seq<char> {
        self.buffer@
    }

    pub closed spec fn calls(&self) -> Seq<ToolCall> {
        self.tool_calls@
    }

    pub closed spec fn history(&self) -> Seq<ToolCall> {
        self.last_tool_calls@
    }

    pub closed spec fn repeats(&self) -> nat {
        self.max_call_repeats as nat
    }

    pub closed spec fn chain_len(&self) -> nat {
        self.call_repeat_chain_len as nat
    }

    /// The number of recent calls kept.
    pub open spec fn capacity(&self) -> nat {
        self.repeats() * self.chain_len()
    }

    pub open spec fn wf(&self) -> bool {
        &&& self.repeats() >= 1
        &&& self.chain_len() >= 1
        &&& self.capacity() <= usize::MAX
        &&& self.history().len() <= self.capacity()
    }

    /// A handler that refuses a call repeated twice, or a chain of three repeats.
    pub fn new() -> (r: Self)
        ensures
            r.wf(),
            r.repeats() == 2,
            r.chain_len() == 3,
            r.text_so_far().len() == 0,
            r.calls().len() == 0,
            r.history().len() == 0,
    {
        SseHandler::with_limits(2, 3)
    }

    pub fn with_limits(max_call_repeats: usize, call_repeat_chain_len: usize) -> (r: Self)
        requires
            max_call_repeats >= 1,
            call_repeat_chain_len >= 1,
            max_call_repeats * call_repeat_chain_len <= usize::MAX,
        ensures
            r.wf(),
            r.repeats() == max_call_repeats,
            r.chain_len() == call_repeat_chain_len,
            r.text_so_far().len() == 0,
            r.calls().len() == 0,
            r.history().len() == 0,
    {
        SseHandler {
            buffer: String::new(),
            tool_calls: Vec::new(),
            last_tool_calls: Vec::new(),
            max_call_repeats,
            call_repeat_chain_len,
        }
    }

    /// Adds streamed text to the response.
    pub fn text(&mut self, text: &str)
        ensures
            final(self).text_so_far() == old(self).text_so_far() + text@,
            final(self).calls() == old(self).calls(),
            final(self).history() == old(self).history(),
            final(self).repeats() == old(self).repeats(),
            final(self).chain_len() == old(self).chain_len(),
    {
        push_text(&mut self.buffer, text);
    }

    /// Accepts a tool call, or refuses it with a diagnostic when it repeats the recent history.
    pub fn tool_call(&mut self, call: ToolCall) -> (r: Result<(), String>)
        requires
            old(self).wf(),
        ensures
            final(self).wf(),
            final(self).text_so_far() == old(self).text_so_far(),
            final(self).repeats() == old(self).repeats(),
            final(self).chain_len() == old(self).chain_len(),
            is_loop(old(self).history(), call, old(self).repeats(), old(self).chain_len()) ==> {
                &&& r matches Err(m) && m@ == loop_message(
                    old(self).history(),
                    call,
                    old(self).chain_len(),
                )
                &&& final(self).history() == old(self).history()
                &&& final(self).calls() == old(self).calls()
            },
            !is_loop(old(self).history(), call, old(self).repeats(), old(self).chain_len()) ==> {
                &&& r is Ok
                &&& final(self).history() == pushed(old(self).history(), call, old(self).capacity())
                &&& final(self).calls() == old(self).calls().push(call)
            },
    {
        if self.is_call_loop(&call) {
            let message = self.create_loop_detection_message(&call);
            return Err(message);
        }
        let cap = self.max_call_repeats * self.call_repeat_chain_len;
        proof {
            let a = self.max_call_repeats as int;
            let b = self.call_repeat_chain_len as int;
            assert(a * b >= 1) by (nonlinear_arith)
                requires
                    a >= 1,
                    b >= 1,
            ;
        }
        if self.last_tool_calls.len() == cap {
            self.last_tool_calls.remove(0);
            proof {
                assert(self.last_tool_calls@ =~= old(self).last_tool_calls@.drop_first());
            }
        }
        self.last_tool_calls.push(copy_call(&call));
        self.tool_calls.push(call);
        Ok(())
    }

    fn is_call_loop(&self, new_call: &ToolCall) -> (r: bool)
        requires
            self.wf(),
        ensures
            r == is_loop(self.history(), *new_call, self.repeats(), self.chain_len()),
    {
        let h = &self.last_tool_calls;
        let n = h.len();
        if n < self.call_repeat_chain_len {
            return false;
        }
        // n >= chain_len >= 1
        if calls_match(&h[n - 1], new_call) {
            let mut repeat_count: usize = 1;
            let mut i: usize = n - 1;
            while i > 0
                invariant
                    n == h@.len(),
                    1 <= n,
                    i <= n - 1,
                    repeat_count == n - i,
                    same_call(h@[n - 1], *new_call),
                    forall|j: int| i < j < n ==> #[trigger] same_call(h@[j - 1], h@[j]),
                    repeat_count == 1 || repeat_count < self.max_call_repeats,
                    self.max_call_repeats >= 1,
                    n >= self.call_repeat_chain_len,
                    h@ == self.history(),
                ensures
                    !tail_repeats(h@, repeat_span(self.repeats())),
                decreases i,
            {
                if calls_match(&h[i - 1], &h[i]) {
                    repeat_count += 1;
                    if repeat_count >= self.max_call_repeats {
                        proof {
                            let m = repeat_span(self.repeats());
                            assert forall|j: int| n - m <= j < n implies #[trigger] same_call(
                                h@[j - 1],
                                h@[j],
                            ) by {
                                assert(i <= j);
                            }
                            assert(tail_repeats(h@, m));
                            assert(h@.last() == h@[n - 1]);
                            assert(repeated_call(h@, *new_call, self.repeats()));
                        }
                        return true;
                    }
                    i -= 1;
                } else {
                    proof {
                        assert(!same_call(h@[i - 1], h@[i as int]));
                    }
                    break;
                }
            }
        }
        let c = self.call_repeat_chain_len;
        let start = n - c;
        let mut repeating = true;
        let mut k: usize = start + 1;
        while k < n
            invariant_except_break
                repeating,
            invariant
                start + 1 <= k <= n,
                start == n - c,
                n == h@.len(),
                forall|j: int| start < j < k ==> #[trigger] same_call(h@[j - 1], h@[j]),
            ensures
                repeating <==> forall|j: int| start < j < n ==> #[trigger] same_call(h@[j - 1], h@[j]),
            decreases n - k,
        {
            if !calls_match(&h[k - 1], &h[k]) {
                repeating = false;
                proof {
                    assert(!same_call(h@[k - 1], h@[k as int]));
                }
                break;
            }
            k += 1;
        }
        let r = repeating && calls_match(&h[n - 1], new_call);
        proof {
            assert(h@.last() == h@[n - 1]);
        }
        r
    }

    fn create_loop_detection_message(&self, new_call: &ToolCall) -> (r: String)
        requires
            self.wf(),
        ensures
            r@ == loop_message(self.history(), *new_call, self.chain_len()),
    {
        let mut message = String::new();
        push_text(&mut message, "⚠️ Call loop detected! ⚠️");
        push_text(&mut message, "The call '");
        push_text(&mut message, new_call.name.as_str());
        push_text(&mut message, "' with arguments '");
        push_text(&mut message, new_call.arguments.as_str());
        push_text(&mut message, "' is repeating.\n");
        let h = &self.last_tool_calls;
        let c = self.call_repeat_chain_len;
        if h.len() >= c {
            let start = h.len() - c;
            let mut lines = String::new();
            push_text(&mut lines, "The following sequence of calls is repeating:\n");
            let ghost intro = lines@;
            let mut k: usize = start;
            while k < h.len()
                invariant
                    start <= k <= h@.len(),
                    start == h@.len() - c,
                    lines@ == intro + chain_lines(h@.subrange(start as int, k as int), 1),
                decreases h@.len() - k,
            {
                let call = &h[k];
                let number = decimal_string(k - start + 1);
                push_text(&mut lines, "  ");
                push_text(&mut lines, number.as_str());
                push_text(&mut lines, ". ");
                push_text(&mut lines, call.name.as_str());
                push_text(&mut lines, " with arguments ");
                push_text(&mut lines, call.arguments.as_str());
                push_text(&mut lines, "\n");
                proof {
                    let part = h@.subrange(start as int, k + 1);
                    assert(part.drop_last() =~= h@.subrange(start as int, k as int));
                    assert(part.last() == *call);
                    assert(lines@ =~= intro + chain_lines(part, 1));
                }
                k += 1;
            }
            push_text(&mut message, lines.as_str());
        }
        push_text(
            &mut message,
            "\nPlease move on to the next task in your sequence using the last output you got from the call or chain you are trying to re-execute. ",
        );
        push_text(
            &mut message,
            "Consider using different parameters or a different approach to avoid this loop.",
        );
        proof {
            assert(message@ =~= loop_message(self.history(), *new_call, self.chain_len()));
        }
        message
    }

    /// The recent calls that loop detection looks at, oldest first.
    pub fn last_tool_calls(&self) -> (r: &Vec<ToolCall>)
        ensures
            r@ == self.history(),
    {
        &self.last_tool_calls
    }

    /// The text and the accepted tool calls of the response.
    pub fn take(self) -> (r: (String, Vec<ToolCall>))
        ensures
            r.0@ == self.text_so_far(),
            r.1@ == self.calls(),
    {
        (self.buffer, self.tool_calls)
    }
}

/// The id of a call, as text.
pub open spec fn id_view(c: ToolCall) -> Option<Seq<char>> {
    match c.id {
        Some(s) => Some(s@),
        None => None,
    }
}

/// The call at position `i` is kept by `dedup`: it has no id, or no later call shares its id.
pub open spec fn kept_at(s: Seq<ToolCall>, i: int) -> bool {
    s[i].id is None || forall|j: int| i < j < s.len() ==> #[trigger] id_view(s[j]) != id_view(s[i])
}

/// The calls that `dedup` keeps, in their original order.
pub open spec fn deduped(s: Seq<ToolCall>) -> Seq<ToolCall>
    decreases s.len(),
{
    if s.len() == 0 {
        Seq::empty()
    } else {
        let rest = deduped(s.drop_first());
        if kept_at(s, 0) {
            seq![s[0]] + rest
        } else {
            rest
        }
    }
}

spec fn holds_text(v: Seq<String>, x: Seq<char>) -> bool {
    exists|k: int| 0 <= k < v.len() && #[trigger] v[k]@ == x
}

spec fn id_from(s: Seq<ToolCall>, from: int, x: Seq<char>) -> bool {
    exists|j: int| from <= j < s.len() && #[trigger] id_view(s[j]) == Some(x)
}

fn contains_text(v: &Vec<String>, x: &String) -> (r: bool)
    ensures
        r == exists|k: int| 0 <= k < v@.len() && #[trigger] v@[k]@ == x@,
{
    let mut i: usize = 0;
    while i < v.len()
        invariant
            0 <= i <= v@.len(),
            forall|k: int| 0 <= k < i ==> #[trigger] v@[k]@ != x@,
        decreases v@.len() - i,
    {
        if v[i] == *x {
            return true;
        }
        i += 1;
    }
    false
}

impl ToolCall {
    /// Drops every call whose id appears again later, keeping the last call for
    /// each id and every call without one, in their original order.
    pub fn dedup(calls: Vec<ToolCall>) -> (r: Vec<ToolCall>)
        ensures
            r@ == deduped(calls@),
    {
        let ghost s = calls@;
        let mut calls = calls;
        let mut seen: Vec<String> = Vec::new();
        let mut rev: Vec<ToolCall> = Vec::new();
        while calls.len() > 0
            invariant
                calls@ == s.take(calls@.len() as int),
                calls@.len() <= s.len(),
                forall|k: int|
                    0 <= k < rev@.len() ==> #[trigger] rev@[k] == deduped(s.skip(calls@.len() as int))[deduped(
                        s.skip(calls@.len() as int),
                    ).len() - 1 - k],
                rev@.len() == deduped(s.skip(calls@.len() as int)).len(),
                forall|x: Seq<char>|
                    #![trigger holds_text(seen@, x)]
                    #![trigger id_from(s, calls@.len() as int, x)]
                    holds_text(seen@, x) <==> id_from(s, calls@.len() as int, x),
            decreases calls@.len(),
        {
            let ghost m = calls@.len() as int;
            let c = calls.pop().unwrap();
            proof {
                assert(c == s[m - 1]);
                assert(s.skip(m - 1).drop_first() =~= s.skip(m));
                assert(s.skip(m - 1)[0] == c);
                assert(calls@ =~= s.take(m - 1));
                assert forall|j: int| 0 < j < s.skip(m - 1).len() implies #[trigger] s.skip(m - 1)[j] == s[m - 1 + j] by {}
            }
            let keep = match &c.id {
                Some(id) => !contains_text(&seen, id),
                None => true,
            };
            proof {
                let t = s.skip(m - 1);
                if c.id is Some {
                    let x = c.id->0@;
                    if keep {
                        assert forall|j: int| 0 < j < t.len() implies #[trigger] id_view(t[j]) != id_view(t[0]) by {
                            assert(t[j] == s[m - 1 + j]);
                            if id_view(s[m - 1 + j]) == Some(x) {
                                assert(m <= m - 1 + j < s.len());
                                assert(id_from(s, m, x));
                            }
                        }
                        assert(kept_at(t, 0));
                    } else {
                        assert(holds_text(seen@, x));
                        assert(id_from(s, m, x));
                        let j = choose|j: int| m <= j < s.len() && #[trigger] id_view(s[j]) == Some(x);
                        assert(t[j - m + 1] == s[j]);
                        assert(id_view(t[j - m + 1]) == id_view(t[0]));
                        assert(!kept_at(t, 0));
                    }
                }
            }
            let ghost before_seen = seen@;
            if let Some(id) = &c.id {
                if keep {
                    seen.push(id.clone());
                }
            }
            if keep {
                rev.push(c);
            }
            proof {
                let t = s.skip(m - 1);
                let d_new = deduped(t);
                let d_old = deduped(s.skip(m));
                assert(t.drop_first() =~= s.skip(m));
                if keep {
                    assert(d_new =~= seq![c] + d_old);
                } else {
                    assert(d_new == d_old);
                }
                assert forall|x: Seq<char>|
                    #![trigger holds_text(seen@, x)]
                    #![trigger id_from(s, m - 1, x)]
                    holds_text(seen@, x) <==> id_from(s, m - 1, x) by {
                    if id_from(s, m - 1, x) {
                        let j = choose|j: int| m - 1 <= j < s.len() && #[trigger] id_view(s[j]) == Some(x);
                        if j == m - 1 {
                            if keep {
                                assert(seen@[seen@.len() - 1]@ == x);
                            } else {
                                assert(holds_text(before_seen, x));
                                let k = choose|k: int| 0 <= k < before_seen.len() && #[trigger] before_seen[k]@ == x;
                                assert(seen@[k] == before_seen[k]);
                            }
                        } else {
                            assert(id_from(s, m, x));
                            assert(holds_text(before_seen, x));
                            let k = choose|k: int| 0 <= k < before_seen.len() && #[trigger] before_seen[k]@ == x;
                            assert(seen@[k] == before_seen[k]);
                        }
                    }
                    if holds_text(seen@, x) {
                        let k = choose|k: int| 0 <= k < seen@.len() && #[trigger] seen@[k]@ == x;
                        if k == before_seen.len() {
                            assert(id_view(s[m - 1]) == Some(x));
                        } else {
                            assert(seen@[k] == before_seen[k]);
                            assert(holds_text(before_seen, x));
                            assert(id_from(s, m, x));
                            let j = choose|j: int| m <= j < s.len() && #[trigger] id_view(s[j]) == Some(x);
                            assert(m - 1 <= j);
                        }
                    }
                }
            }
        }
        let ghost d = deduped(s);
        proof {
            assert(s.skip(0) =~= s);
        }
        let mut result: Vec<ToolCall> = Vec::new();
        while rev.len() > 0
            invariant
                result@.len() + rev@.len() == d.len(),
                forall|k: int| 0 <= k < rev@.len() ==> #[trigger] rev@[k] == d[d.len() - 1 - k],
                result@ == d.take(result@.len() as int),
            decreases rev@.len(),
        {
            let c = rev.pop().unwrap();
            result.push(c);
            proof {
                assert(result@ =~= d.take(result@.len() as int));
            }
        }
        proof {
            assert(d.take(d.len() as int) =~= d);
        }
        result
    }
}

/// A call that does not repeat the last one in the history is never refused.
pub proof fn lemma_fresh_call_accepted(h: Seq<ToolCall>, call: ToolCall, max_repeats: nat, chain_len: nat)
    requires
        chain_len >= 1,
        h.len() == 0 || !same_call(h.last(), call),
    ensures
        !is_loop(h, call, max_repeats, chain_len),
{
}

/// Whether a handler with history `h` accepts every call of `calls`, fed in order.
pub open spec fn accepts_all(h: Seq<ToolCall>, calls: Seq<ToolCall>, max_repeats: nat, chain_len: nat) -> bool
    decreases calls.len(),
{
    if calls.len() == 0 {
        true
    } else {
        !is_loop(h, calls[0], max_repeats, chain_len) && accepts_all(
            pushed(h, calls[0], max_repeats * chain_len),
            calls.drop_first(),
            max_repeats,
            chain_len,
        )
    }
}

/// A sequence of calls in which no call repeats the one before it is accepted
/// whole, whatever its length, provided its first call does not repeat the
/// last call of the history.
pub proof fn lemma_non_repeating_accepted(
    h: Seq<ToolCall>,
    calls: Seq<ToolCall>,
    max_repeats: nat,
    chain_len: nat,
)
    requires
        chain_len >= 1,
        max_repeats * chain_len >= 1,
        h.len() <= max_repeats * chain_len,
        calls.len() > 0 ==> (h.len() == 0 || !same_call(h.last(), calls[0])),
        forall|i: int| 0 < i < calls.len() ==> !#[trigger] same_call(calls[i - 1], calls[i]),
    ensures
        accepts_all(h, calls, max_repeats, chain_len),
    decreases calls.len(),
{
    if calls.len() > 0 {
        lemma_fresh_call_accepted(h, calls[0], max_repeats, chain_len);
        let h2 = pushed(h, calls[0], max_repeats * chain_len);
        let rest = calls.drop_first();
        assert(h2.last() == calls[0]);
        assert forall|i: int| 0 < i < rest.len() implies !#[trigger] same_call(rest[i - 1], rest[i]) by {
            assert(rest[i - 1] == calls[i]);
            assert(rest[i] == calls[i + 1]);
            assert(!same_call(calls[(i + 1) - 1], calls[i + 1]));
        }
        if rest.len() > 0 {
            assert(rest[0] == calls[1]);
            assert(!same_call(calls[1 - 1], calls[1]));
        }
        lemma_non_repeating_accepted(h2, rest, max_repeats, chain_len);
    }
}

/// Once the history holds at least `chain_len` calls, a call that its last
/// `max_repeats` entries all repeat is refused (for `max_repeats >= 2`).
pub proof fn lemma_repeated_call_refused(
    h: Seq<ToolCall>,
    call: ToolCall,
    max_repeats: nat,
    chain_len: nat,
)
    requires
        max_repeats >= 2,
        h.len() >= chain_len,
        h.len() >= max_repeats,
        forall|j: int| h.len() - max_repeats <= j < h.len() ==> #[trigger] same_call(h[j], call),
    ensures
        is_loop(h, call, max_repeats, chain_len),
{
    let m = max_repeats - 1;
    assert forall|j: int| h.len() - m <= j < h.len() implies #[trigger] same_call(h[j - 1], h[j]) by {
        assert(same_call(h[j - 1], call));
        assert(same_call(h[j], call));
    }
    assert(same_call(h[h.len() - 1], call));
}

} // verus!
