use loki_core::declarations::{
    missing_required, supervisor_function_declarations, teammate_function_declarations,
    todo_function_declarations, user_interaction_function_declarations, ParamType,
};
use loki_core::tools::{tool_family, ToolFamily};

#[test]
fn supervisor_tools_declared() {
    let decls = supervisor_function_declarations();
    let names: Vec<&str> = decls.iter().map(|d| d.name.as_str()).collect();
    assert_eq!(
        names,
        vec![
            "agent__spawn",
            "agent__check",
            "agent__collect",
            "agent__list",
            "agent__cancel",
            "agent__task_create",
            "agent__task_list",
            "agent__task_complete"
        ]
    );
    assert!(decls.iter().all(|d| tool_family(&d.name) == ToolFamily::Supervisor && !d.agent));
    let create = &decls[5];
    assert_eq!(create.params.len(), 5);
    assert_eq!(create.params[2].name, "blocked_by");
    assert_eq!(create.params[2].param_type, ParamType::TextList);
    assert!(create.params[0].required);
    assert!(!create.params[4].required);
}

#[test]
fn other_families_declared() {
    let teammate: Vec<String> = teammate_function_declarations().into_iter().map(|d| d.name).collect();
    assert_eq!(teammate, vec!["agent__send_message", "agent__check_inbox"]);
    let todo = todo_function_declarations();
    assert_eq!(todo.len(), 4);
    assert_eq!(todo[2].name, "todo__done");
    assert_eq!(todo[2].params[0].param_type, ParamType::Integer);
    let user = user_interaction_function_declarations();
    let names: Vec<&str> = user.iter().map(|d| d.name.as_str()).collect();
    assert_eq!(names, vec!["user__ask", "user__confirm", "user__input", "user__checkbox"]);
    assert_eq!(user[1].description, "Ask the user a yes/no question. Returns \"yes\" or \"no\".");
}

#[test]
fn required_arguments_checked() {
    let decls = supervisor_function_declarations();
    let spawn = &decls[0];
    assert_eq!(missing_required(spawn, &vec!["agent".to_string()]), Some("prompt".to_string()));
    assert_eq!(missing_required(spawn, &vec![]), Some("agent".to_string()));
    assert_eq!(
        missing_required(spawn, &vec!["prompt".to_string(), "agent".to_string()]),
        None
    );
    assert_eq!(missing_required(&decls[3], &vec![]), None);
}
