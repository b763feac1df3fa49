//! Reading announcements, and deciding on them.
use agent_guard::config::GuardConfig;
use agent_guard::denial::emit_denial;
use agent_guard::denial::HookOutput;
use agent_guard::denial::HookSpecificOutput;
use agent_guard::hook;
use agent_guard::hook::GuardPlan;
use agent_guard::hook::HookInput;
use agent_guard::hook::ToolInput;

type Object = serde_json::Map<String, serde_json::Value>;

/// An optional text. It is an error if something else stands in its place.
fn field(object: &Object, key: &str) -> Result<Option<String>, ()> {
    match object.get(key) {
        None | Some(serde_json::Value::Null) => Ok(None),
        Some(serde_json::Value::String(text)) => Ok(Some(text.clone())),
        Some(_) => Err(()),
    }
}

fn arguments(object: &Object) -> Result<ToolInput, ()> {
    Ok(ToolInput {
        command: field(object, "command")?,
        file_path: field(object, "file_path")?,
        notebook_path: field(object, "notebook_path")?,
    })
}

fn announcement(object: &Object) -> Result<HookInput, ()> {
    Ok(HookInput {
        tool_name: field(object, "tool_name")?,
        tool_input: match object.get("tool_input") {
            None | Some(serde_json::Value::Null) => None,
            Some(serde_json::Value::Object(inner)) => Some(arguments(inner)?),
            Some(_) => return Err(()),
        },
    })
}

/// Decodes an announcement.
fn decode(text: &str) -> Option<HookInput> {
    let object: Object = serde_json::from_str(text).ok()?;
    announcement(&object).ok()
}

fn parse_command(input: &str) -> Option<String> {
    hook::parse_command(input, &decode)
}

#[test]
fn parse_command_extracts_command() {
    let input = r#"{"tool_input": {"command": "git status"}}"#;
    assert_eq!(parse_command(input), Some("git status".to_string()));
}

#[test]
fn parse_command_returns_none_for_empty_input() {
    assert_eq!(parse_command(""), None);
    assert_eq!(parse_command("  "), None);
}

#[test]
fn parse_command_returns_none_for_malformed_json() {
    assert_eq!(parse_command("not json"), None);
    assert_eq!(parse_command("{"), None);
}

#[test]
fn parse_command_returns_none_for_missing_fields() {
    assert_eq!(parse_command(r#"{}"#), None);
    assert_eq!(parse_command(r#"{"tool_input": {}}"#), None);
    assert_eq!(parse_command(r#"{"tool_input": {"command": ""}}"#), None);
}

#[test]
fn hook_output_serializes_correctly() {
    let output = HookOutput {
        hook_specific_output: HookSpecificOutput {
            hook_event_name: "PreToolUse".to_string(),
            permission_decision: "deny".to_string(),
            permission_decision_reason: "test reason".to_string(),
        },
    };
    let json = output.to_json();
    let v: serde_json::Value = serde_json::from_str(&json).unwrap();
    assert_eq!(v["hookSpecificOutput"]["hookEventName"], "PreToolUse");
    assert_eq!(v["hookSpecificOutput"]["permissionDecision"], "deny");
    assert_eq!(
        v["hookSpecificOutput"]["permissionDecisionReason"],
        "test reason"
    );
}

#[test]
fn parse_command_handles_null_tool_input() {
    assert_eq!(parse_command(r#"{"tool_input": null}"#), None);
}

#[test]
fn parse_command_handles_null_command() {
    assert_eq!(parse_command(r#"{"tool_input": {"command": null}}"#), None);
}

#[test]
fn parse_command_ignores_extra_fields() {
    let input = r#"{"hook_event_name":"PreToolUse","tool_name":"Bash","tool_input":{"command":"git status","description":"check status"},"session_id":"abc"}"#;
    assert_eq!(parse_command(input), Some("git status".to_string()));
}

#[test]
fn parse_hook_input_with_tool_name() {
    let input = r#"{"tool_name":"Edit","tool_input":{"file_path":"/tmp/test.rs"}}"#;
    let hi: HookInput = decode(input).unwrap();
    assert_eq!(hi.tool_name.as_deref(), Some("Edit"));
    assert_eq!(
        hi.tool_input.as_ref().unwrap().file_path.as_deref(),
        Some("/tmp/test.rs")
    );
}

#[test]
fn parse_hook_input_with_notebook_path() {
    let input =
        r#"{"tool_name":"NotebookEdit","tool_input":{"notebook_path":"/tmp/nb.ipynb"}}"#;
    let hi: HookInput = decode(input).unwrap();
    assert_eq!(hi.tool_name.as_deref(), Some("NotebookEdit"));
    assert_eq!(
        hi.tool_input.as_ref().unwrap().notebook_path.as_deref(),
        Some("/tmp/nb.ipynb")
    );
}

#[test]
fn parse_hook_input_bash_still_works() {
    let input = r#"{"tool_name":"Bash","tool_input":{"command":"git status"}}"#;
    let hi: HookInput = decode(input).unwrap();
    assert_eq!(hi.tool_name.as_deref(), Some("Bash"));
    assert_eq!(
        hi.tool_input.as_ref().unwrap().command.as_deref(),
        Some("git status")
    );
    assert!(hi.tool_input.as_ref().unwrap().file_path.is_none());
}

/// A disk without any entry.
fn nothing(_path: &str) -> Option<String> {
    None
}

/// Decides on an announcement with the built-in configuration.
fn decide(input: &str, allowed: Option<&str>) -> Option<String> {
    let patterns = GuardConfig::load_from_embedded().compile_patterns();
    let plan = hook::plan_guard(input, &decode);
    hook::handle_guard(&plan, allowed, &patterns, &nothing).map(|d| d.reason)
}

/// Writes an answer without the help of the library.
fn written(event: &str, decision: &str, reason: &str) -> String {
    let mut inner = serde_json::Map::new();
    inner.insert("hookEventName".to_string(), serde_json::Value::from(event));
    inner.insert("permissionDecision".to_string(), serde_json::Value::from(decision));
    inner.insert("permissionDecisionReason".to_string(), serde_json::Value::from(reason));
    let mut outer = serde_json::Map::new();
    outer.insert("hookSpecificOutput".to_string(), serde_json::Value::Object(inner));
    serde_json::to_string(&serde_json::Value::Object(outer)).unwrap()
}

#[test]
fn a_denial_is_one_line_of_json() {
    assert_eq!(
        emit_denial("no \"way\"\n".to_string()),
        r#"{"hookSpecificOutput":{"hookEventName":"PreToolUse","permissionDecision":"deny","permissionDecisionReason":"no \"way\"\n"}}"#
    );
}

#[test]
fn every_reason_is_written_as_json_asks() {
    let mut all = String::new();
    for c in '\0'..'\u{3000}' {
        all.push(c);
    }
    all.push('\u{1F600}');
    let line = emit_denial(all.clone());
    assert_eq!(line, written("PreToolUse", "deny", &all));
    assert!(line.chars().all(|c| c >= ' '));
    assert!(line.contains("\\u0000\\u0001"));
    assert!(line.contains("\\u001f"));
    assert!(line.contains("\\b\\t\\n\\u000b\\f\\r\\u000e"));
    let value: serde_json::Value = serde_json::from_str(&line).unwrap();
    assert_eq!(
        value["hookSpecificOutput"]["permissionDecisionReason"].as_str(),
        Some(all.as_str())
    );
}

#[test]
fn all_parts_of_an_answer_are_written() {
    let output = HookOutput {
        hook_specific_output: HookSpecificOutput {
            hook_event_name: "e\\".to_string(),
            permission_decision: "\u{7f}d".to_string(),
            permission_decision_reason: String::new(),
        },
    };
    assert_eq!(output.to_json(), written("e\\", "\u{7f}d", ""));
}

#[test]
fn a_denial_has_its_event_and_its_decision() {
    let output = HookOutput::denial("because".to_string()).hook_specific_output;
    assert_eq!(output.hook_event_name, "PreToolUse");
    assert_eq!(output.permission_decision, "deny");
    assert_eq!(output.permission_decision_reason, "because");
}

#[test]
fn the_payload_is_the_trimmed_input() {
    assert_eq!(hook::hook_payload(" {} \n"), Some("{}"));
    assert_eq!(hook::hook_payload(" \n"), None);
    assert_eq!(hook::hook_payload(""), None);
}

#[test]
fn input_that_cannot_be_read_is_allowed() {
    for input in [
        "",
        "  ",
        "not json",
        "{",
        "7",
        r#"{"tool_name":7,"tool_input":{"command":"git push --force"}}"#,
        r#"{"tool_input":"git push --force"}"#,
        r#"{"tool_input":{"command":["git push --force"]}}"#,
        r#"{"tool_input":{"command":"git push --force","file_path":1}}"#,
    ] {
        assert!(matches!(hook::plan_guard(input, &decode), GuardPlan::Allow));
        assert_eq!(decide(input, Some("/tmp")), None);
    }
}

#[test]
fn destructive_commands_are_denied() {
    let reason = decide(r#"{"tool_input":{"command":"git push --force"}}"#, None).unwrap();
    assert!(reason.contains("--force-with-lease"));
    assert!(decide(
        r#" {"tool_name":"Bash","tool_input":{"command":"ls; rm -rf ."}} "#,
        Some("/tmp")
    )
    .is_some());
    assert!(decide(r#"{"tool_name":"","tool_input":{"command":"git reset --hard"}}"#, None)
        .is_some());
}

#[test]
fn harmless_commands_are_allowed() {
    assert_eq!(decide(r#"{"tool_input":{"command":"git status"}}"#, None), None);
    assert_eq!(decide(r#"{"tool_name":"Bash","tool_input":{"command":" "}}"#, None), None);
    assert_eq!(decide(r#"{"tool_name":"Bash"}"#, None), None);
}

#[test]
fn other_tools_are_allowed() {
    assert_eq!(
        decide(
            r#"{"tool_name":"Grep","tool_input":{"command":"rm -rf .","file_path":"/etc/x"}}"#,
            Some("/tmp")
        ),
        None
    );
    assert_eq!(
        decide(r#"{"tool_name":"bash","tool_input":{"command":"rm -rf ."}}"#, None),
        None
    );
}

#[test]
fn file_tools_are_checked_by_their_paths() {
    for tool in ["Edit", "Write", "Read", "NotebookEdit"] {
        let inside = format!(
            r#"{{"tool_name":"{}","tool_input":{{"file_path":"/tmp/x","command":"rm -rf ."}}}}"#,
            tool
        );
        assert_eq!(decide(&inside, Some("/tmp")), None);
        let outside =
            format!(r#"{{"tool_name":"{}","tool_input":{{"file_path":"/etc/x"}}}}"#, tool);
        assert_eq!(
            decide(&outside, Some("/tmp")),
            Some(format!(
                "{} blocked: '/etc/x' is outside the allowed workspace. Stay within your worktree.",
                tool
            ))
        );
        assert_eq!(decide(&outside, None), None);
        assert_eq!(decide(&outside, Some("")), None);
    }
}

#[test]
fn every_path_is_checked() {
    let both = |file: &str, notebook: &str| {
        format!(
            r#"{{"tool_name":"Edit","tool_input":{{"file_path":"{}","notebook_path":"{}"}}}}"#,
            file, notebook
        )
    };
    assert_eq!(decide(&both("/tmp/a", "/tmp/b"), Some("/tmp")), None);
    assert!(decide(&both("/tmp/a", "/etc/b"), Some("/tmp")).unwrap().contains("/etc/b"));
    assert!(decide(&both("/etc/a", "/etc/b"), Some("/tmp")).unwrap().contains("/etc/a"));
    assert!(decide(&both("rel", "/tmp/b"), Some("/tmp")).unwrap().contains("must be absolute"));
}

#[test]
fn a_file_tool_without_a_path_is_denied_in_the_sandbox() {
    for input in [
        r#"{"tool_name":"Write"}"#,
        r#"{"tool_name":"Write","tool_input":{}}"#,
        r#"{"tool_name":"Write","tool_input":{"command":"ls"}}"#,
    ] {
        assert_eq!(
            decide(input, Some("/tmp")),
            Some("Write blocked: no file path provided for sandboxed tool.".to_string())
        );
        assert_eq!(decide(input, None), None);
        assert_eq!(decide(input, Some("")), None);
    }
}

#[test]
fn the_sandbox_is_on_with_a_list_that_is_not_empty() {
    assert!(hook::is_sandboxed(Some("/tmp")));
    assert!(hook::is_sandboxed(Some(":")));
    assert!(!hook::is_sandboxed(Some("")));
    assert!(!hook::is_sandboxed(None));
}

#[test]
fn plans_name_what_has_to_be_checked() {
    let input = r#"{"tool_name":"Edit","tool_input":{"file_path":"/a","notebook_path":"/b"}}"#;
    match hook::plan_guard(input, &decode) {
        GuardPlan::CheckPaths { tool, paths } => {
            assert_eq!(tool, "Edit");
            assert_eq!(paths, vec!["/a", "/b"]);
        }
        other => panic!("{:?}", other),
    }
    match hook::plan_of(decode(r#"{"tool_input":{"command":" ls "}}"#)) {
        GuardPlan::CheckCommand { command } => assert_eq!(command, " ls "),
        other => panic!("{:?}", other),
    }
    assert!(matches!(hook::plan_of(None), GuardPlan::Allow));
}
