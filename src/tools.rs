//! Routing of tool calls to the built-in tool families by name prefix.
use vstd::prelude::*;

verus! {

/// The family a tool belongs to, told by the prefix of its name.
#[derive(Debug, Clone, Copy, PartialEq, Eq, Structural)]
pub enum ToolFamily {
    Todo,
    Supervisor,
    User,
    McpInvoke,
    McpSearch,
    McpDescribe,
    UserDefined,
}

pub const TODO_FUNCTION_PREFIX: &'static str = "todo__";

pub const SUPERVISOR_FUNCTION_PREFIX: &'static str = "agent__";

pub const USER_FUNCTION_PREFIX: &'static str = "user__";

pub const MCP_INVOKE_PREFIX: &'static str = "mcp_invoke_";

pub const MCP_SEARCH_PREFIX: &'static str = "mcp_search_";

pub const MCP_DESCRIBE_PREFIX: &'static str = "mcp_describe_";

pub open spec fn starts_with(s: Seq<char>, p: Seq<char>) -> bool {
    p.len() <= s.len() && s.take(p.len() as int) == p
}

/// The family of the tool named `name`.
pub open spec fn family_of(name: Seq<char>) -> ToolFamily {
    if starts_with(name, "todo__"@) {
        ToolFamily::Todo
    } else if starts_with(name, "agent__"@) {
        ToolFamily::Supervisor
    } else if starts_with(name, "user__"@) {
        ToolFamily::User
    } else if starts_with(name, "mcp_invoke_"@) {
        ToolFamily::McpInvoke
    } else if starts_with(name, "mcp_search_"@) {
        ToolFamily::McpSearch
    } else if starts_with(name, "mcp_describe_"@) {
        ToolFamily::McpDescribe
    } else {
        ToolFamily::UserDefined
    }
}

/// Whether `s` begins with `p`.
pub fn has_prefix(s: &str, p: &str) -> (r: bool)
    ensures
        r == starts_with(s@, p@),
{
    let n = s.unicode_len();
    let m = p.unicode_len();
    if m > n {
        return false;
    }
    let mut i: usize = 0;
    while i < m
        invariant
            m <= n,
            n == s@.len(),
            m == p@.len(),
            0 <= i <= m,
            forall|k: int| 0 <= k < i ==> s@[k] == p@[k],
        decreases m - i,
    {
        if s.get_char(i) != p.get_char(i) {
            proof {
                assert(s@.take(m as int)[i as int] != p@[i as int]);
            }
            return false;
        }
        i += 1;
    }
    proof {
        assert(s@.take(m as int) =~= p@);
    }
    true
}

/// The family that handles the tool named `name`.
pub fn tool_family(name: &str) -> (r: ToolFamily)
    ensures
        r == family_of(name@),
{
    if has_prefix(name, TODO_FUNCTION_PREFIX) {
        ToolFamily::Todo
    } else if has_prefix(name, SUPERVISOR_FUNCTION_PREFIX) {
        ToolFamily::Supervisor
    } else if has_prefix(name, USER_FUNCTION_PREFIX) {
        ToolFamily::User
    } else if has_prefix(name, MCP_INVOKE_PREFIX) {
        ToolFamily::McpInvoke
    } else if has_prefix(name, MCP_SEARCH_PREFIX) {
        ToolFamily::McpSearch
    } else if has_prefix(name, MCP_DESCRIBE_PREFIX) {
        ToolFamily::McpDescribe
    } else {
        ToolFamily::UserDefined
    }
}

/// The prefix that names a family, empty for user-defined tools.
pub open spec fn family_prefix(f: ToolFamily) -> Seq<char> {
    match f {
        ToolFamily::Todo => "todo__"@,
        ToolFamily::Supervisor => "agent__"@,
        ToolFamily::User => "user__"@,
        ToolFamily::McpInvoke => "mcp_invoke_"@,
        ToolFamily::McpSearch => "mcp_search_"@,
        ToolFamily::McpDescribe => "mcp_describe_"@,
        ToolFamily::UserDefined => Seq::empty(),
    }
}

/// The family of a tool and the operation it names within that family: the
/// name without the family's prefix (a server name for the MCP families).
pub fn route(name: &str) -> (r: (ToolFamily, &str))
    ensures
        r.0 == family_of(name@),
        r.1@ == name@.skip(family_prefix(r.0).len() as int),
{
    let family = tool_family(name);
    let cut: usize = match family {
        ToolFamily::Todo => TODO_FUNCTION_PREFIX.unicode_len(),
        ToolFamily::Supervisor => SUPERVISOR_FUNCTION_PREFIX.unicode_len(),
        ToolFamily::User => USER_FUNCTION_PREFIX.unicode_len(),
        ToolFamily::McpInvoke => MCP_INVOKE_PREFIX.unicode_len(),
        ToolFamily::McpSearch => MCP_SEARCH_PREFIX.unicode_len(),
        ToolFamily::McpDescribe => MCP_DESCRIBE_PREFIX.unicode_len(),
        ToolFamily::UserDefined => 0,
    };
    let n = name.unicode_len();
    let rest = name.substring_char(cut, n);
    proof {
        assert(rest@ =~= name@.skip(family_prefix(family).len() as int));
    }
    (family, rest)
}

} // verus!
