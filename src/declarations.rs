//! The declarations of the built-in tools, as offered to the model.
use vstd::prelude::*;

use crate::text::push_text;
use crate::tools::{SUPERVISOR_FUNCTION_PREFIX, TODO_FUNCTION_PREFIX, USER_FUNCTION_PREFIX};

verus! {

/// The JSON type of a tool parameter.
#[derive(Debug, Clone, Copy, PartialEq, Eq, Structural)]
pub enum ParamType {
    Text,
    Integer,
    TextList,
}

#[derive(Debug, Clone)]
pub struct ParamSpec {
    pub name: String,
    pub param_type: ParamType,
    pub description: String,
    pub required: bool,
}

/// A tool as the model sees it: name, description and parameters. `agent`
/// marks tools that an agent's own scripts provide.
#[derive(Debug, Clone)]
pub struct ToolDeclaration {
    pub name: String,
    pub description: String,
    pub params: Vec<ParamSpec>,
    pub agent: bool,
}

/// A parameter's name, type, and whether it is required.
pub open spec fn param_sig(p: ParamSpec) -> (Seq<char>, ParamType, bool) {
    (p.name@, p.param_type, p.required)
}

/// A declaration's name and parameter signatures.
pub open spec fn decl_sig(d: ToolDeclaration) -> (Seq<char>, Seq<(Seq<char>, ParamType, bool)>) {
    (d.name@, d.params@.map_values(|p: ParamSpec| param_sig(p)))
}

pub open spec fn sigs(ds: Seq<ToolDeclaration>) -> Seq<(Seq<char>, Seq<(Seq<char>, ParamType, bool)>)> {
    ds.map_values(|d: ToolDeclaration| decl_sig(d))
}

fn param(name: &str, param_type: ParamType, description: &str, required: bool) -> (r: ParamSpec)
    ensures
        param_sig(r) == (name@, param_type, required),
        r.description@ == description@,
{
    ParamSpec { name: name.to_owned(), param_type, description: description.to_owned(), required }
}

fn declaration(prefix: &str, op: &str, description: &str, params: Vec<ParamSpec>) -> (r: ToolDeclaration)
    ensures
        r.name@ == prefix@ + op@,
        r.description@ == description@,
        r.params@ == params@,
        !r.agent,
{
    let mut name = String::new();
    push_text(&mut name, prefix);
    push_text(&mut name, op);
    ToolDeclaration { name, description: description.to_owned(), params, agent: false }
}

/// The tools of an agent that may spawn and coordinate subagents.
pub fn supervisor_function_declarations() -> (r: Vec<ToolDeclaration>)
    ensures
        sigs(r@) == seq![
            ("agent__"@ + "spawn"@, seq![("agent"@, ParamType::Text, true), ("prompt"@, ParamType::Text, true), ("task_id"@, ParamType::Text, false)]),
            ("agent__"@ + "check"@, seq![("id"@, ParamType::Text, true)]),
            ("agent__"@ + "collect"@, seq![("id"@, ParamType::Text, true)]),
            ("agent__"@ + "list"@, seq![]),
            ("agent__"@ + "cancel"@, seq![("id"@, ParamType::Text, true)]),
            ("agent__"@ + "task_create"@, seq![("subject"@, ParamType::Text, true), ("description"@, ParamType::Text, false), ("blocked_by"@, ParamType::TextList, false), ("agent"@, ParamType::Text, false), ("prompt"@, ParamType::Text, false)]),
            ("agent__"@ + "task_list"@, seq![]),
            ("agent__"@ + "task_complete"@, seq![("task_id"@, ParamType::Text, true)]),
        ],
{
    let mut r: Vec<ToolDeclaration> = Vec::new();
    let mut spawn_params: Vec<ParamSpec> = Vec::new();
    spawn_params.push(param("agent", ParamType::Text, "Name of the agent to spawn (e.g. 'explore', 'coder', 'oracle')", true));
    spawn_params.push(param("prompt", ParamType::Text, "The task prompt to send to the agent", true));
    spawn_params.push(param("task_id", ParamType::Text, "Optional task queue ID to associate with this agent", false));
    r.push(declaration(SUPERVISOR_FUNCTION_PREFIX, "spawn", "Spawn a subagent to run in the background. Returns a task_id for tracking. The agent runs in parallel. You can continue working while it executes.", spawn_params));
    let mut check_params: Vec<ParamSpec> = Vec::new();
    check_params.push(param("id", ParamType::Text, "The agent ID returned by agent__spawn", true));
    r.push(declaration(SUPERVISOR_FUNCTION_PREFIX, "check", "Check if a spawned agent has finished. Non-blocking; returns PENDING if still running, or the result if complete.", check_params));
    let mut collect_params: Vec<ParamSpec> = Vec::new();
    collect_params.push(param("id", ParamType::Text, "The agent ID returned by agent__spawn", true));
    r.push(declaration(SUPERVISOR_FUNCTION_PREFIX, "collect", "Wait for a spawned agent to finish and return its result. Blocks until the agent completes.", collect_params));
    let mut list_params: Vec<ParamSpec> = Vec::new();
    r.push(declaration(SUPERVISOR_FUNCTION_PREFIX, "list", "List all currently running subagents and their status.", list_params));
    let mut cancel_params: Vec<ParamSpec> = Vec::new();
    cancel_params.push(param("id", ParamType::Text, "The agent ID to cancel", true));
    r.push(declaration(SUPERVISOR_FUNCTION_PREFIX, "cancel", "Cancel a running subagent by its ID.", cancel_params));
    let mut task_create_params: Vec<ParamSpec> = Vec::new();
    task_create_params.push(param("subject", ParamType::Text, "Short title for the task", true));
    task_create_params.push(param("description", ParamType::Text, "Detailed description of the task", false));
    task_create_params.push(param("blocked_by", ParamType::TextList, "Task IDs that must complete before the task can run", false));
    task_create_params.push(param("agent", ParamType::Text, "Agent to spawn on its own when the task becomes runnable (e.g. 'explore', 'coder'). If set, an agent will be spawned automatically when all dependencies complete.", false));
    task_create_params.push(param("prompt", ParamType::Text, "Prompt to send to the agent spawned for the task. Required if agent is set.", false));
    r.push(declaration(SUPERVISOR_FUNCTION_PREFIX, "task_create", "Create a task in the task queue. Returns the task ID.", task_create_params));
    let mut task_list_params: Vec<ParamSpec> = Vec::new();
    r.push(declaration(SUPERVISOR_FUNCTION_PREFIX, "task_list", "List all tasks in the task queue with their status and dependencies.", task_list_params));
    let mut task_complete_params: Vec<ParamSpec> = Vec::new();
    task_complete_params.push(param("task_id", ParamType::Text, "The task ID to mark complete", true));
    r.push(declaration(SUPERVISOR_FUNCTION_PREFIX, "task_complete", "Mark a task as completed. Returns any newly unblocked task IDs.", task_complete_params));
    proof {
        assert(decl_sig(r@[0]).1 =~= seq![("agent"@, ParamType::Text, true), ("prompt"@, ParamType::Text, true), ("task_id"@, ParamType::Text, false)]);
        assert(decl_sig(r@[1]).1 =~= seq![("id"@, ParamType::Text, true)]);
        assert(decl_sig(r@[2]).1 =~= seq![("id"@, ParamType::Text, true)]);
        assert(decl_sig(r@[3]).1 =~= seq![]);
        assert(decl_sig(r@[4]).1 =~= seq![("id"@, ParamType::Text, true)]);
        assert(decl_sig(r@[5]).1 =~= seq![("subject"@, ParamType::Text, true), ("description"@, ParamType::Text, false), ("blocked_by"@, ParamType::TextList, false), ("agent"@, ParamType::Text, false), ("prompt"@, ParamType::Text, false)]);
        assert(decl_sig(r@[6]).1 =~= seq![]);
        assert(decl_sig(r@[7]).1 =~= seq![("task_id"@, ParamType::Text, true)]);
        assert(sigs(r@) =~= seq![
                ("agent__"@ + "spawn"@, seq![("agent"@, ParamType::Text, true), ("prompt"@, ParamType::Text, true), ("task_id"@, ParamType::Text, false)]),
                ("agent__"@ + "check"@, seq![("id"@, ParamType::Text, true)]),
                ("agent__"@ + "collect"@, seq![("id"@, ParamType::Text, true)]),
                ("agent__"@ + "list"@, seq![]),
                ("agent__"@ + "cancel"@, seq![("id"@, ParamType::Text, true)]),
                ("agent__"@ + "task_create"@, seq![("subject"@, ParamType::Text, true), ("description"@, ParamType::Text, false), ("blocked_by"@, ParamType::TextList, false), ("agent"@, ParamType::Text, false), ("prompt"@, ParamType::Text, false)]),
                ("agent__"@ + "task_list"@, seq![]),
                ("agent__"@ + "task_complete"@, seq![("task_id"@, ParamType::Text, true)]),
        ]);
    }
    r
}

/// The messaging tools of an agent that works beside others.
pub fn teammate_function_declarations() -> (r: Vec<ToolDeclaration>)
    ensures
        sigs(r@) == seq![
            ("agent__"@ + "send_message"@, seq![("id"@, ParamType::Text, true), ("message"@, ParamType::Text, true)]),
            ("agent__"@ + "check_inbox"@, seq![]),
        ],
{
    let mut r: Vec<ToolDeclaration> = Vec::new();
    let mut send_message_params: Vec<ParamSpec> = Vec::new();
    send_message_params.push(param("id", ParamType::Text, "The target agent ID", true));
    send_message_params.push(param("message", ParamType::Text, "The message text to send", true));
    r.push(declaration(SUPERVISOR_FUNCTION_PREFIX, "send_message", "Send a text message to a sibling or child agent's inbox. Use to share cross-cutting findings or coordinate with teammates.", send_message_params));
    let mut check_inbox_params: Vec<ParamSpec> = Vec::new();
    r.push(declaration(SUPERVISOR_FUNCTION_PREFIX, "check_inbox", "Check for and drain all pending messages in your inbox from sibling agents or your parent.", check_inbox_params));
    proof {
        assert(decl_sig(r@[0]).1 =~= seq![("id"@, ParamType::Text, true), ("message"@, ParamType::Text, true)]);
        assert(decl_sig(r@[1]).1 =~= seq![]);
        assert(sigs(r@) =~= seq![
                ("agent__"@ + "send_message"@, seq![("id"@, ParamType::Text, true), ("message"@, ParamType::Text, true)]),
                ("agent__"@ + "check_inbox"@, seq![]),
        ]);
    }
    r
}

/// The todo tracking tools.
pub fn todo_function_declarations() -> (r: Vec<ToolDeclaration>)
    ensures
        sigs(r@) == seq![
            ("todo__"@ + "init"@, seq![("goal"@, ParamType::Text, true)]),
            ("todo__"@ + "add"@, seq![("task"@, ParamType::Text, true)]),
            ("todo__"@ + "done"@, seq![("id"@, ParamType::Integer, true)]),
            ("todo__"@ + "list"@, seq![]),
        ],
{
    let mut r: Vec<ToolDeclaration> = Vec::new();
    let mut init_params: Vec<ParamSpec> = Vec::new();
    init_params.push(param("goal", ParamType::Text, "The overall goal to achieve when all todos are completed", true));
    r.push(declaration(TODO_FUNCTION_PREFIX, "init", "Initialize a new todo list with a goal. Clears any existing todos.", init_params));
    let mut add_params: Vec<ParamSpec> = Vec::new();
    add_params.push(param("task", ParamType::Text, "Description of the todo task", true));
    r.push(declaration(TODO_FUNCTION_PREFIX, "add", "Add a new todo item to the list.", add_params));
    let mut done_params: Vec<ParamSpec> = Vec::new();
    done_params.push(param("id", ParamType::Integer, "The id of the todo item to mark as done", true));
    r.push(declaration(TODO_FUNCTION_PREFIX, "done", "Mark a todo item as done by its id.", done_params));
    let mut list_params: Vec<ParamSpec> = Vec::new();
    r.push(declaration(TODO_FUNCTION_PREFIX, "list", "Display the current todo list with status of each item.", list_params));
    proof {
        assert(decl_sig(r@[0]).1 =~= seq![("goal"@, ParamType::Text, true)]);
        assert(decl_sig(r@[1]).1 =~= seq![("task"@, ParamType::Text, true)]);
        assert(decl_sig(r@[2]).1 =~= seq![("id"@, ParamType::Integer, true)]);
        assert(decl_sig(r@[3]).1 =~= seq![]);
        assert(sigs(r@) =~= seq![
                ("todo__"@ + "init"@, seq![("goal"@, ParamType::Text, true)]),
                ("todo__"@ + "add"@, seq![("task"@, ParamType::Text, true)]),
                ("todo__"@ + "done"@, seq![("id"@, ParamType::Integer, true)]),
                ("todo__"@ + "list"@, seq![]),
        ]);
    }
    r
}

/// The tools that put a question to the user.
pub fn user_interaction_function_declarations() -> (r: Vec<ToolDeclaration>)
    ensures
        sigs(r@) == seq![
            ("user__"@ + "ask"@, seq![("question"@, ParamType::Text, true), ("options"@, ParamType::TextList, true)]),
            ("user__"@ + "confirm"@, seq![("question"@, ParamType::Text, true)]),
            ("user__"@ + "input"@, seq![("question"@, ParamType::Text, true)]),
            ("user__"@ + "checkbox"@, seq![("question"@, ParamType::Text, true), ("options"@, ParamType::TextList, true)]),
        ],
{
    let mut r: Vec<ToolDeclaration> = Vec::new();
    let mut ask_params: Vec<ParamSpec> = Vec::new();
    ask_params.push(param("question", ParamType::Text, "The question to present to the user", true));
    ask_params.push(param("options", ParamType::TextList, "List of options for the user to choose from", true));
    r.push(declaration(USER_FUNCTION_PREFIX, "ask", "Ask the user to select one option from a list. Returns the selected option. Indicate the recommended choice if there is one.", ask_params));
    let mut confirm_params: Vec<ParamSpec> = Vec::new();
    confirm_params.push(param("question", ParamType::Text, "The yes/no question to ask the user", true));
    r.push(declaration(USER_FUNCTION_PREFIX, "confirm", "Ask the user a yes/no question. Returns \"yes\" or \"no\".", confirm_params));
    let mut input_params: Vec<ParamSpec> = Vec::new();
    input_params.push(param("question", ParamType::Text, "The prompt/question to display", true));
    r.push(declaration(USER_FUNCTION_PREFIX, "input", "Ask the user for free-form text input. Returns the text entered.", input_params));
    let mut checkbox_params: Vec<ParamSpec> = Vec::new();
    checkbox_params.push(param("question", ParamType::Text, "The question to present to the user", true));
    checkbox_params.push(param("options", ParamType::TextList, "List of options the user can select from (multiple selections allowed)", true));
    r.push(declaration(USER_FUNCTION_PREFIX, "checkbox", "Ask the user to select one or more options from a list. Returns an array of selected options.", checkbox_params));
    proof {
        assert(decl_sig(r@[0]).1 =~= seq![("question"@, ParamType::Text, true), ("options"@, ParamType::TextList, true)]);
        assert(decl_sig(r@[1]).1 =~= seq![("question"@, ParamType::Text, true)]);
        assert(decl_sig(r@[2]).1 =~= seq![("question"@, ParamType::Text, true)]);
        assert(decl_sig(r@[3]).1 =~= seq![("question"@, ParamType::Text, true), ("options"@, ParamType::TextList, true)]);
        assert(sigs(r@) =~= seq![
                ("user__"@ + "ask"@, seq![("question"@, ParamType::Text, true), ("options"@, ParamType::TextList, true)]),
                ("user__"@ + "confirm"@, seq![("question"@, ParamType::Text, true)]),
                ("user__"@ + "input"@, seq![("question"@, ParamType::Text, true)]),
                ("user__"@ + "checkbox"@, seq![("question"@, ParamType::Text, true), ("options"@, ParamType::TextList, true)]),
        ]);
    }
    r
}

/// The first required parameter of `decl` whose name is not among `present`.
pub open spec fn first_missing(params: Seq<ParamSpec>, present: Seq<Seq<char>>) -> Option<Seq<char>>
    decreases params.len(),
{
    if params.len() == 0 {
        None
    } else if params[0].required && !present.contains(params[0].name@) {
        Some(params[0].name@)
    } else {
        first_missing(params.drop_first(), present)
    }
}

fn holds_name(present: &Vec<String>, name: &String) -> (r: bool)
    ensures
        r == present@.map_values(|s: String| s@).contains(name@),
{
    let mut i: usize = 0;
    while i < present.len()
        invariant
            0 <= i <= present@.len(),
            forall|k: int| 0 <= k < i ==> #[trigger] present@[k]@ != name@,
        decreases present@.len() - i,
    {
        if present[i] == *name {
            proof {
                assert(present@.map_values(|s: String| s@)[i as int] == name@);
            }
            return true;
        }
        i += 1;
    }
    proof {
        let names = present@.map_values(|s: String| s@);
        if names.contains(name@) {
            let k = choose|k: int| 0 <= k < names.len() && #[trigger] names[k] == name@;
            assert(present@[k]@ == name@);
        }
    }
    false
}

/// The first required parameter missing from the call's arguments, given the
/// names of the arguments that are present.
pub fn missing_required(decl: &ToolDeclaration, present: &Vec<String>) -> (r: Option<String>)
    ensures
        match first_missing(decl.params@, present@.map_values(|s: String| s@)) {
            Some(n) => r matches Some(s) && s@ == n,
            None => r is None,
        },
{
    let ghost names = present@.map_values(|s: String| s@);
    proof {
        assert(decl.params@.skip(0) =~= decl.params@);
    }
    let mut i: usize = 0;
    while i < decl.params.len()
        invariant
            0 <= i <= decl.params@.len(),
            names == present@.map_values(|s: String| s@),
            first_missing(decl.params@, names) == first_missing(decl.params@.skip(i as int), names),
        decreases decl.params@.len() - i,
    {
        let p = &decl.params[i];
        proof {
            assert(decl.params@.skip(i as int)[0] == *p);
            assert(decl.params@.skip(i as int).drop_first() =~= decl.params@.skip(i + 1));
        }
        if p.required && !holds_name(present, &p.name) {
            return Some(p.name.clone());
        }
        i += 1;
    }
    proof {
        assert(decl.params@.skip(i as int) =~= Seq::<ParamSpec>::empty());
    }
    None
}

} // verus!
