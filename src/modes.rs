//! How the program runs, and the checks a REPL command makes on the current state.
use vstd::prelude::*;

verus! {

/// Whether the program runs a single command or an interactive loop.
#[derive(Debug, Clone, Copy, PartialEq, Eq, Structural)]
pub enum WorkingMode {
    Cmd,
    Repl,
}

impl WorkingMode {
    pub fn is_cmd(&self) -> (r: bool)
        ensures
            r == (*self == WorkingMode::Cmd),
    {
        *self == WorkingMode::Cmd
    }

    pub fn is_repl(&self) -> (r: bool)
        ensures
            r == (*self == WorkingMode::Repl),
    {
        *self == WorkingMode::Repl
    }
}

/// The state bits a REPL command can ask about, one bit each.
pub const STATE_ROLE: u32 = 1;

pub const STATE_SESSION_EMPTY: u32 = 2;

pub const STATE_SESSION: u32 = 4;

pub const STATE_RAG: u32 = 8;

pub const STATE_AGENT: u32 = 16;

/// A condition on the state bits: some bits set, some clear, both, or exactly a set.
#[derive(Debug, Clone, Copy, PartialEq, Eq, Structural)]
pub enum AssertState {
    True(u32),
    False(u32),
    TrueFalse(u32, u32),
    Equal(u32),
}

pub open spec fn assert_holds(a: AssertState, flags: u32) -> bool {
    match a {
        AssertState::True(t) => t & flags != 0,
        AssertState::False(f) => f & flags == 0,
        AssertState::TrueFalse(t, f) => t & flags != 0 && f & flags == 0,
        AssertState::Equal(c) => c == flags,
    }
}

impl AssertState {
    /// The condition that every state meets.
    pub fn pass() -> (r: Self)
        ensures
            r == AssertState::False(0),
            forall|flags: u32| assert_holds(r, flags),
    {
        proof {
            assert forall|flags: u32| (0u32 & flags) == 0 by {
                assert((0u32 & flags) == 0) by (bit_vector);
            }
        }
        AssertState::False(0)
    }

    /// The condition met only by the state with no bit set.
    pub fn bare() -> (r: Self)
        ensures
            r == AssertState::Equal(0),
    {
        AssertState::Equal(0)
    }

    /// Whether the state bits `flags` meet the condition.
    pub fn check(self, flags: u32) -> (r: bool)
        ensures
            r == assert_holds(self, flags),
    {
        match self {
            AssertState::True(true_flags) => true_flags & flags != 0,
            AssertState::False(false_flags) => false_flags & flags == 0,
            AssertState::TrueFalse(true_flags, false_flags) => (true_flags & flags != 0) && (
            false_flags & flags == 0),
            AssertState::Equal(check_flags) => check_flags == flags,
        }
    }
}

} // verus!
