//! Policies of an agent's turn loop: when to summarize a child's output and
//! when to continue on open todo items.
use vstd::prelude::*;

use crate::supervisor::AgentExitStatus;

verus! {

/// Output longer than this many characters is summarized before it is handed back.
pub const DEFAULT_SUMMARIZATION_THRESHOLD: usize = 4000;

/// How many times the loop continues on open todo items at most, unless configured.
pub const DEFAULT_MAX_AUTO_CONTINUES: usize = 10;

/// Whether a child's output is long enough to be summarized.
pub fn needs_summary(output: &str, threshold: usize) -> (r: bool)
    ensures
        r == (output@.len() > threshold),
{
    output.unicode_len() > threshold
}

/// Whether the loop injects the continuation prompt after a turn that ended
/// on its own: the policy is on, todo items are open, the cap is not reached,
/// and the output differs from that of the previous continuation.
pub fn should_auto_continue(
    enabled: bool,
    has_incomplete: bool,
    continues_so_far: usize,
    max_continues: usize,
    output: &str,
    previous_output: Option<&str>,
) -> (r: bool)
    ensures
        r == (enabled && has_incomplete && continues_so_far < max_continues && match previous_output {
            Some(p) => p@ != output@,
            None => true,
        }),
{
    if !enabled || !has_incomplete || continues_so_far >= max_continues {
        return false;
    }
    match previous_output {
        Some(p) => {
            let a = p.to_owned();
            let b = output.to_owned();
            !(a == b)
        },
        None => true,
    }
}

/// How one turn of an agent's loop ended.
#[derive(Debug, Clone)]
pub enum TurnEvent {
    /// The model answered; `tool_results` results of tool calls came back.
    Answered { output: String, tool_results: usize, has_incomplete_todos: bool },
    /// The request or a fatal tool error failed the turn.
    Failed(String),
}

/// What the loop does next.
#[derive(Debug, Clone, PartialEq, Eq)]
pub enum TurnAction {
    /// Fold the tool results into the input and run another turn.
    RunTools,
    /// Send the continuation prompt as a fresh user message and run again.
    Continue,
    /// Stop with this exit status.
    Finish(AgentExitStatus),
}

/// The auto-continue bookkeeping of one agent's loop.
#[derive(Debug, Clone)]
pub struct LoopState {
    pub auto_continue: bool,
    pub max_auto_continues: usize,
    pub continues: usize,
    pub last_continuation_output: Option<String>,
}

pub open spec fn text_opt(o: Option<String>) -> Option<Seq<char>> {
    match o {
        Some(s) => Some(s@),
        None => None,
    }
}

/// Whether a turn that ended without tool calls is followed by the continuation prompt.
pub open spec fn continues_after(st: LoopState, output: Seq<char>, has_incomplete: bool) -> bool {
    &&& st.auto_continue
    &&& has_incomplete
    &&& st.continues < st.max_auto_continues
    &&& match text_opt(st.last_continuation_output) {
        Some(p) => p != output,
        None => true,
    }
}

impl LoopState {
    pub fn new(auto_continue: bool, max_auto_continues: usize) -> (r: Self)
        ensures
            r.auto_continue == auto_continue,
            r.max_auto_continues == max_auto_continues,
            r.continues == 0,
            r.last_continuation_output is None,
    {
        LoopState { auto_continue, max_auto_continues, continues: 0, last_continuation_output: None }
    }
}

/// Decides what follows a turn. A set abort signal ends the loop as
/// cancelled; a failed turn ends it as failed; tool results lead to another
/// turn; otherwise the loop continues on open todo items while the policy
/// allows, and completes.
pub fn next_turn(state: &mut LoopState, aborted: bool, event: TurnEvent) -> (r: TurnAction)
    ensures
        final(state).auto_continue == old(state).auto_continue,
        final(state).max_auto_continues == old(state).max_auto_continues,
        aborted ==> r == TurnAction::Finish(AgentExitStatus::Cancelled) && *final(state) == *old(
            state,
        ),
        !aborted ==> match event {
            TurnEvent::Failed(reason) => r == TurnAction::Finish(AgentExitStatus::Failed(reason))
                && *final(state) == *old(state),
            TurnEvent::Answered { output, tool_results, has_incomplete_todos } => if tool_results > 0 {
                r == TurnAction::RunTools && *final(state) == *old(state)
            } else if continues_after(*old(state), output@, has_incomplete_todos) {
                &&& r == TurnAction::Continue
                &&& final(state).continues == old(state).continues + 1
                &&& text_opt(final(state).last_continuation_output) == Some(output@)
            } else {
                r == TurnAction::Finish(AgentExitStatus::Completed) && *final(state) == *old(state)
            },
        },
{
    if aborted {
        return TurnAction::Finish(AgentExitStatus::Cancelled);
    }
    match event {
        TurnEvent::Failed(reason) => TurnAction::Finish(AgentExitStatus::Failed(reason)),
        TurnEvent::Answered { output, tool_results, has_incomplete_todos } => {
            if tool_results > 0 {
                return TurnAction::RunTools;
            }
            let previous = match &state.last_continuation_output {
                Some(p) => Some(p.as_str()),
                None => None,
            };
            if should_auto_continue(
                state.auto_continue,
                has_incomplete_todos,
                state.continues,
                state.max_auto_continues,
                output.as_str(),
                previous,
            ) {
                state.continues = state.continues + 1;
                state.last_continuation_output = Some(output);
                TurnAction::Continue
            } else {
                TurnAction::Finish(AgentExitStatus::Completed)
            }
        },
    }
}

} // verus!
