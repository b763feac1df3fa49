//! Deciding on a tool call that the agent announces.
use crate::denial::reason_of;
use crate::denial::DenyReason;
use crate::pattern::command_verdict;
use crate::pattern::evaluate_command;
use crate::pattern::law_command_denied_iff_a_segment_is;
use crate::pattern::segment_verdict;
use crate::pattern::CompiledPattern;
use crate::resolve::answers_by;
use crate::resolve::Disk;
use crate::sandbox::evaluate_file_path;
use crate::sandbox::file_path_decision;
use crate::sandbox::file_path_verdict;
use crate::sandbox::list_text;
use crate::sandbox::law_sandbox_is_settled;
use crate::sandbox::sandbox_decision;
use crate::sandbox::sandboxed;
use crate::split::segments_of;
use crate::text::law_blank_text_is_trimmed_away;
use crate::text::same_text;
use crate::text::trim;
use crate::text::trimmed;
use crate::text::whitespace;
use vstd::prelude::*;
use vstd::string::*;

verus! {

// ---------------------------------------------------------------------------
// The announcement
// ---------------------------------------------------------------------------
/// A tool call, as it is announced.
#[derive(Debug, Clone)]
pub struct HookInput {
    pub tool_name: Option<String>,
    pub tool_input: Option<ToolInput>,
}

/// The arguments of the tool.
#[derive(Debug, Clone)]
pub struct ToolInput {
    pub command: Option<String>,
    pub file_path: Option<String>,
    pub notebook_path: Option<String>,
}

/// `decode` may make `hook` of `text`; `None` stands for a text that it cannot read.
pub open spec fn decoded<D: Fn(&str) -> Option<HookInput>>(
    decode: D,
    text: Seq<char>,
    hook: Option<HookInput>,
) -> bool {
    exists|t: &str| t@ == text && #[trigger] call_ensures(decode, (t,), hook)
}

/// `hook` is what may be read from `input`: nothing from blank input, and what
/// `decode` makes of the trimmed input otherwise.
pub open spec fn announced<D: Fn(&str) -> Option<HookInput>>(
    decode: D,
    input: Seq<char>,
    hook: Option<HookInput>,
) -> bool {
    if trimmed(input).len() == 0 {
        hook is None
    } else {
        decoded(decode, trimmed(input), hook)
    }
}

/// The name of the tool, empty where it is not given.
pub open spec fn tool_of(hook: HookInput) -> Seq<char> {
    match hook.tool_name {
        Some(name) => name@,
        None => Seq::empty(),
    }
}

/// The command in the arguments, unless it is blank.
pub open spec fn command_in(hook: Option<HookInput>) -> Option<String> {
    match hook {
        Some(h) => match h.tool_input {
            Some(arguments) => match arguments.command {
                Some(command) => if trimmed(command@).len() > 0 {
                    Some(command)
                } else {
                    None
                },
                None => None,
            },
            None => None,
        },
        None => None,
    }
}

/// An optional value as a list of at most one.
pub open spec fn listed(value: Option<String>) -> Seq<String> {
    match value {
        Some(v) => seq![v],
        None => Seq::empty(),
    }
}

/// All the paths in the arguments.
pub open spec fn paths_in(hook: HookInput) -> Seq<String> {
    match hook.tool_input {
        Some(arguments) => listed(arguments.file_path) + listed(arguments.notebook_path),
        None => Seq::empty(),
    }
}

/// The tools that work on a file.
pub open spec fn is_file_tool(tool: Seq<char>) -> bool {
    tool == "Edit"@ || tool == "Write"@ || tool == "Read"@ || tool == "NotebookEdit"@
}

/// The tool that runs commands; an announcement without a tool counts as one of it.
pub open spec fn is_command_tool(tool: Seq<char>) -> bool {
    tool.len() == 0 || tool == "Bash"@
}

// ---------------------------------------------------------------------------
// What is to be checked
// ---------------------------------------------------------------------------
/// What has to be checked before a tool call may go ahead.
#[derive(Debug)]
pub enum GuardPlan {
    /// Nothing.
    Allow,
    /// The paths that a file tool is given.
    CheckPaths { tool: String, paths: Vec<String> },
    /// A command.
    CheckCommand { command: String },
}

/// `plan` is what has to be checked for `hook`.
pub open spec fn plan_for(hook: Option<HookInput>, plan: GuardPlan) -> bool {
    match hook {
        None => plan is Allow,
        Some(h) => if is_file_tool(tool_of(h)) {
            plan matches GuardPlan::CheckPaths { tool, paths } && tool@ == tool_of(h) && paths@
                == paths_in(h)
        } else if is_command_tool(tool_of(h)) && command_in(hook) is Some {
            plan == (GuardPlan::CheckCommand { command: command_in(hook)->0 })
        } else {
            plan is Allow
        },
    }
}

/// The part of the input that is to be decoded: the trimmed input, if that is not empty.
pub fn hook_payload<'a>(input: &'a str) -> (r: Option<&'a str>)
    ensures
        r is Some <==> trimmed(input@).len() > 0,
        r matches Some(text) ==> text@ == trimmed(input@),
{
    let text = trim(input);
    if text.is_empty() {
        None
    } else {
        Some(text)
    }
}

/// Takes the command out of a decoded announcement.
fn take_command(hook: Option<HookInput>) -> (r: Option<String>)
    ensures
        r == command_in(hook),
{
    match hook {
        Some(h) => match h.tool_input {
            Some(arguments) => match arguments.command {
                Some(command) => {
                    if trim(command.as_str()).is_empty() {
                        None
                    } else {
                        Some(command)
                    }
                },
                None => None,
            },
            None => None,
        },
        None => None,
    }
}

/// Extracts the command from the input. There is none if the input is blank, cannot
/// be decoded, has no command, or has a blank one.
pub fn parse_command<D: Fn(&str) -> Option<HookInput>>(input: &str, decode: &D) -> (r: Option<
    String,
>)
    requires
        forall|t: &str| call_requires(*decode, (t,)),
    ensures
        exists|hook: Option<HookInput>| #[trigger]
            announced(*decode, input@, hook) && r == command_in(hook),
{
    match hook_payload(input) {
        Some(text) => {
            let hook = decode(text);
            let ghost seen = hook;
            let r = take_command(hook);
            assert(announced(*decode, input@, seen));
            r
        },
        None => {
            assert(announced(*decode, input@, None));
            None
        },
    }
}

/// Tells what has to be checked for a decoded announcement.
pub fn plan_of(hook: Option<HookInput>) -> (r: GuardPlan)
    ensures
        plan_for(hook, r),
{
    let h: HookInput = match hook {
        Some(h) => h,
        None => {
            return GuardPlan::Allow;
        },
    };
    let tool: String = match &h.tool_name {
        Some(name) => name.clone(),
        None => String::new(),
    };
    let name: &str = tool.as_str();
    if same_text(name, "Edit") || same_text(name, "Write") || same_text(name, "Read") || same_text(
        name,
        "NotebookEdit",
    ) {
        let mut paths: Vec<String> = Vec::new();
        if let Some(arguments) = h.tool_input {
            if let Some(path) = arguments.file_path {
                paths.push(path);
            }
            if let Some(path) = arguments.notebook_path {
                paths.push(path);
            }
        }
        assert(paths@ == paths_in(hook->0));
        return GuardPlan::CheckPaths { tool, paths };
    }
    if name.is_empty() || same_text(name, "Bash") {
        match take_command(Some(h)) {
            Some(command) => GuardPlan::CheckCommand { command },
            None => GuardPlan::Allow,
        }
    } else {
        GuardPlan::Allow
    }
}

/// Reads the input and tells what has to be checked. Input that cannot be read asks
/// for no check.
pub fn plan_guard<D: Fn(&str) -> Option<HookInput>>(input: &str, decode: &D) -> (r: GuardPlan)
    requires
        forall|t: &str| call_requires(*decode, (t,)),
    ensures
        exists|hook: Option<HookInput>| #[trigger]
            announced(*decode, input@, hook) && plan_for(hook, r),
{
    match hook_payload(input) {
        Some(text) => {
            let hook = decode(text);
            let ghost seen = hook;
            let r = plan_of(hook);
            assert(announced(*decode, input@, seen));
            r
        },
        None => {
            assert(announced(*decode, input@, None));
            GuardPlan::Allow
        },
    }
}

// ---------------------------------------------------------------------------
// The verdict
// ---------------------------------------------------------------------------
/// The reason for denying a file tool that is given no path.
pub open spec fn no_path_reason(tool: Seq<char>) -> Seq<char> {
    tool + " blocked: no file path provided for sandboxed tool."@
}

/// What may be said of the paths of a file tool: the verdict on the first of them
/// that is denied.
pub open spec fn paths_verdict<F: Fn(&str) -> Option<String>>(
    canonicalize: F,
    tool: Seq<char>,
    paths: Seq<String>,
    allowed: Option<Seq<char>>,
    verdict: Option<Seq<char>>,
) -> bool {
    match verdict {
        None => forall|k: int|
            0 <= k < paths.len() ==> file_path_verdict(
                canonicalize,
                tool,
                (#[trigger] paths[k])@,
                allowed,
                None,
            ),
        Some(_) => exists|k: int|
            {
                &&& 0 <= k < paths.len()
                &&& file_path_verdict(canonicalize, tool, (#[trigger] paths[k])@, allowed, verdict)
                &&& forall|j: int|
                    0 <= j < k ==> file_path_verdict(
                        canonicalize,
                        tool,
                        (#[trigger] paths[j])@,
                        allowed,
                        None,
                    )
            },
    }
}

/// What may be said of a tool call, with the answers that `canonicalize` may give.
pub open spec fn guard_verdict<F: Fn(&str) -> Option<String>>(
    canonicalize: F,
    plan: GuardPlan,
    allowed: Option<Seq<char>>,
    patterns: Seq<CompiledPattern>,
    verdict: Option<Seq<char>>,
) -> bool {
    match plan {
        GuardPlan::Allow => verdict is None,
        GuardPlan::CheckPaths { tool, paths } => if paths@.len() == 0 && sandboxed(allowed) {
            verdict == Some(no_path_reason(tool@))
        } else {
            paths_verdict(canonicalize, tool@, paths@, allowed, verdict)
        },
        GuardPlan::CheckCommand { command } => verdict == command_verdict(patterns, command@),
    }
}

/// The verdict on the first of `paths` that is denied, on a disk at rest.
pub open spec fn paths_decision(
    disk: Disk,
    tool: Seq<char>,
    paths: Seq<String>,
    allowed: Option<Seq<char>>,
) -> Option<Seq<char>>
    decreases paths.len(),
{
    if paths.len() == 0 {
        None
    } else if file_path_decision(disk, tool, paths.first()@, allowed) is Some {
        file_path_decision(disk, tool, paths.first()@, allowed)
    } else {
        paths_decision(disk, tool, paths.skip(1), allowed)
    }
}

/// The verdict on a tool call, on a disk at rest.
pub open spec fn guard_decision(
    disk: Disk,
    plan: GuardPlan,
    allowed: Option<Seq<char>>,
    patterns: Seq<CompiledPattern>,
) -> Option<Seq<char>> {
    match plan {
        GuardPlan::Allow => None,
        GuardPlan::CheckPaths { tool, paths } => if paths@.len() == 0 && sandboxed(allowed) {
            Some(no_path_reason(tool@))
        } else {
            paths_decision(disk, tool@, paths@, allowed)
        },
        GuardPlan::CheckCommand { command } => command_verdict(patterns, command@),
    }
}

// ---------------------------------------------------------------------------
// Laws
// ---------------------------------------------------------------------------
proof fn lemma_paths_decision(
    disk: Disk,
    tool: Seq<char>,
    paths: Seq<String>,
    allowed: Option<Seq<char>>,
    k: int,
)
    requires
        0 <= k <= paths.len(),
        forall|j: int|
            0 <= j < k ==> file_path_decision(disk, tool, (#[trigger] paths[j])@, allowed) is None,
        k < paths.len() ==> file_path_decision(disk, tool, paths[k]@, allowed) is Some,
    ensures
        paths_decision(disk, tool, paths, allowed) == (if k < paths.len() {
            file_path_decision(disk, tool, paths[k]@, allowed)
        } else {
            None
        }),
    decreases k,
{
    if k > 0 {
        let rest = paths.skip(1);
        assert(paths[0] == paths.first());
        assert forall|j: int| 0 <= j < k - 1 implies file_path_decision(
            disk,
            tool,
            (#[trigger] rest[j])@,
            allowed,
        ) is None by {
            assert(rest[j] == paths[j + 1]);
        }
        if k < paths.len() {
            assert(rest[k - 1] == paths[k]);
        }
        lemma_paths_decision(disk, tool, rest, allowed, k - 1);
    }
}

/// On a disk at rest, the verdict on a tool call is settled.
pub proof fn law_guard_is_settled<F: Fn(&str) -> Option<String>>(
    canonicalize: F,
    disk: Disk,
    plan: GuardPlan,
    allowed: Option<Seq<char>>,
    patterns: Seq<CompiledPattern>,
    verdict: Option<Seq<char>>,
)
    requires
        answers_by(canonicalize, disk),
        guard_verdict(canonicalize, plan, allowed, patterns, verdict),
    ensures
        verdict == guard_decision(disk, plan, allowed, patterns),
{
    if let GuardPlan::CheckPaths { tool, paths } = plan {
        if !(paths@.len() == 0 && sandboxed(allowed)) {
            assert forall|k: int, v: Option<Seq<char>>|
                0 <= k < paths@.len() && #[trigger] file_path_verdict(
                    canonicalize,
                    tool@,
                    paths@[k]@,
                    allowed,
                    v,
                ) implies v == file_path_decision(disk, tool@, paths@[k]@, allowed) by {
                if sandboxed(allowed) {
                    law_sandbox_is_settled(
                        canonicalize,
                        disk,
                        tool@,
                        paths@[k]@,
                        allowed->0,
                        v,
                    );
                }
            }
            match verdict {
                None => {
                    lemma_paths_decision(disk, tool@, paths@, allowed, paths@.len() as int);
                },
                Some(_) => {
                    let k = choose|k: int|
                        {
                            &&& 0 <= k < paths@.len()
                            &&& file_path_verdict(
                                canonicalize,
                                tool@,
                                (#[trigger] paths@[k])@,
                                allowed,
                                verdict,
                            )
                            &&& forall|j: int|
                                0 <= j < k ==> file_path_verdict(
                                    canonicalize,
                                    tool@,
                                    (#[trigger] paths@[j])@,
                                    allowed,
                                    None,
                                )
                        };
                    lemma_paths_decision(disk, tool@, paths@, allowed, k);
                },
            }
        }
    }
}

/// A call of a file tool that is given a path is allowed exactly if every path that
/// it is given is allowed: a second path is no way round the check.
pub proof fn law_every_path_is_checked(
    disk: Disk,
    tool: Seq<char>,
    paths: Seq<String>,
    allowed: Option<Seq<char>>,
)
    ensures
        paths_decision(disk, tool, paths, allowed) is None <==> forall|k: int|
            0 <= k < paths.len() ==> file_path_decision(
                disk,
                tool,
                (#[trigger] paths[k])@,
                allowed,
            ) is None,
    decreases paths.len(),
{
    if paths.len() > 0 {
        let rest = paths.skip(1);
        law_every_path_is_checked(disk, tool, rest, allowed);
        assert(paths[0] == paths.first());
        if paths_decision(disk, tool, paths, allowed) is None {
            assert forall|k: int| 0 <= k < paths.len() implies file_path_decision(
                disk,
                tool,
                (#[trigger] paths[k])@,
                allowed,
            ) is None by {
                if k > 0 {
                    assert(paths[k] == rest[k - 1]);
                }
            }
        } else if file_path_decision(disk, tool, paths.first()@, allowed) is None {
            let k = choose|k: int|
                0 <= k < rest.len() && !(file_path_decision(
                    disk,
                    tool,
                    (#[trigger] rest[k])@,
                    allowed,
                ) is None);
            assert(paths[k + 1] == rest[k]);
        }
    }
}

/// While the sandbox is on, a file tool that is given no path is denied.
pub proof fn law_file_tool_without_path_is_denied<F: Fn(&str) -> Option<String>>(
    canonicalize: F,
    hook: HookInput,
    plan: GuardPlan,
    allowed: Option<Seq<char>>,
    patterns: Seq<CompiledPattern>,
    verdict: Option<Seq<char>>,
)
    requires
        is_file_tool(tool_of(hook)),
        paths_in(hook).len() == 0,
        sandboxed(allowed),
        plan_for(Some(hook), plan),
        guard_verdict(canonicalize, plan, allowed, patterns, verdict),
    ensures
        verdict == Some(no_path_reason(tool_of(hook))),
{
}

/// A call of the tool that runs commands is judged by its command. So it is denied
/// exactly if a segment of the command is.
pub proof fn law_commands_are_checked<F: Fn(&str) -> Option<String>>(
    canonicalize: F,
    hook: HookInput,
    plan: GuardPlan,
    allowed: Option<Seq<char>>,
    patterns: Seq<CompiledPattern>,
    verdict: Option<Seq<char>>,
)
    requires
        is_command_tool(tool_of(hook)),
        command_in(Some(hook)) is Some,
        plan_for(Some(hook), plan),
        guard_verdict(canonicalize, plan, allowed, patterns, verdict),
    ensures
        verdict == command_verdict(patterns, command_in(Some(hook))->0@),
        verdict is Some <==> exists|k: int|
            {
                &&& 0 <= k < segments_of(command_in(Some(hook))->0@).len()
                &&& (#[trigger] segments_of(command_in(Some(hook))->0@)[k]).len() > 0
                &&& segment_verdict(patterns, segments_of(command_in(Some(hook))->0@)[k]) is Some
            },
{
    lemma_tools_differ();
    if tool_of(hook).len() == 0 {
        assert(tool_of(hook) == Seq::<char>::empty());
    }
    law_command_denied_iff_a_segment_is(patterns, command_in(Some(hook))->0@);
}

/// Input that cannot be read, and every tool that neither works on a file nor runs
/// commands, is allowed.
pub proof fn law_other_calls_are_allowed<F: Fn(&str) -> Option<String>>(
    canonicalize: F,
    hook: Option<HookInput>,
    plan: GuardPlan,
    allowed: Option<Seq<char>>,
    patterns: Seq<CompiledPattern>,
    verdict: Option<Seq<char>>,
)
    requires
        hook matches Some(h) ==> !is_file_tool(tool_of(h)) && !is_command_tool(tool_of(h)),
        plan_for(hook, plan),
        guard_verdict(canonicalize, plan, allowed, patterns, verdict),
    ensures
        verdict is None,
{
}

/// What may be read from the input: nothing where it is blank, and otherwise what the
/// decoder makes of the input without the whitespace at its ends.
pub proof fn law_announced<D: Fn(&str) -> Option<HookInput>>(
    decode: D,
    input: Seq<char>,
    hook: Option<HookInput>,
)
    ensures
        (forall|i: int| 0 <= i < input.len() ==> whitespace(#[trigger] input[i])) ==> (announced(
            decode,
            input,
            hook,
        ) <==> hook is None),
        !(forall|i: int| 0 <= i < input.len() ==> whitespace(#[trigger] input[i])) ==> (announced(
            decode,
            input,
            hook,
        ) <==> exists|t: &str|
            t@ == trimmed(input) && #[trigger] call_ensures(decode, (t,), hook)),
{
    law_blank_text_is_trimmed_away(input);
}

/// For a tool that works on a file, every path that it is given is checked, whichever
/// of the two fields it stands in: both where both are given, the one that is given
/// where one is, and none only where none is.
pub proof fn law_file_tools_are_checked_by_their_paths(hook: HookInput, plan: GuardPlan)
    requires
        hook.tool_name is Some,
        hook.tool_name->0@ == "Edit"@ || hook.tool_name->0@ == "Write"@ || hook.tool_name->0@
            == "Read"@ || hook.tool_name->0@ == "NotebookEdit"@,
        plan_for(Some(hook), plan),
    ensures
        plan is CheckPaths,
        plan->tool@ == hook.tool_name->0@,
        plan->paths@ == (match hook.tool_input {
            Some(arguments) => match (arguments.file_path, arguments.notebook_path) {
                (Some(file), Some(notebook)) => seq![file, notebook],
                (Some(file), None) => seq![file],
                (None, Some(notebook)) => seq![notebook],
                (None, None) => Seq::empty(),
            },
            None => Seq::empty(),
        }),
{
    assert(plan->paths@ == paths_in(hook));
    if let Some(arguments) = hook.tool_input {
        assert(plan->paths@ =~= listed(arguments.file_path) + listed(arguments.notebook_path));
    }
}

/// No path that a tool for files is given is left out of what is checked, and nothing
/// else gets in.
pub proof fn law_no_path_is_left_out(hook: HookInput, plan: GuardPlan, path: String)
    requires
        hook.tool_name is Some,
        hook.tool_name->0@ == "Edit"@ || hook.tool_name->0@ == "Write"@ || hook.tool_name->0@
            == "Read"@ || hook.tool_name->0@ == "NotebookEdit"@,
        plan_for(Some(hook), plan),
    ensures
        plan->paths@.contains(path) <==> hook.tool_input is Some && (hook.tool_input->0.file_path
            == Some(path) || hook.tool_input->0.notebook_path == Some(path)),
        plan->paths@.len() == 0 <==> hook.tool_input is None || (
        hook.tool_input->0.file_path is None && hook.tool_input->0.notebook_path is None),
{
    law_file_tools_are_checked_by_their_paths(hook, plan);
    if let Some(arguments) = hook.tool_input {
        match (arguments.file_path, arguments.notebook_path) {
            (Some(file), Some(notebook)) => {
                assert(plan->paths@[0] == file && plan->paths@[1] == notebook);
            },
            (Some(file), None) => {
                assert(plan->paths@[0] == file);
            },
            (None, Some(notebook)) => {
                assert(plan->paths@[0] == notebook);
            },
            (None, None) => {},
        }
    }
}

/// For the tool that runs commands, and where no tool is named, the command is checked
/// as it is given, unless there is none or it is blank.
pub proof fn law_command_tools_are_checked_by_their_command(hook: HookInput, plan: GuardPlan)
    requires
        hook.tool_name is Some ==> hook.tool_name->0@.len() == 0 || hook.tool_name->0@ == "Bash"@,
        plan_for(Some(hook), plan),
    ensures
        (match hook.tool_input {
            Some(arguments) => match arguments.command {
                Some(command) => if forall|i: int|
                    0 <= i < command@.len() ==> whitespace(#[trigger] command@[i]) {
                    plan is Allow
                } else {
                    plan == (GuardPlan::CheckCommand { command })
                },
                None => plan is Allow,
            },
            None => plan is Allow,
        }),
{
    lemma_tools_differ();
    if tool_of(hook).len() == 0 {
        assert(tool_of(hook) == Seq::<char>::empty());
    }
    if let Some(arguments) = hook.tool_input {
        if let Some(command) = arguments.command {
            law_blank_text_is_trimmed_away(command@);
        }
    }
}

/// Nothing is checked for any other tool, nor where nothing could be read.
pub proof fn law_other_tools_are_not_checked(hook: HookInput, plan: GuardPlan)
    ensures
        plan_for(None, plan) <==> plan is Allow,
        hook.tool_name is Some && hook.tool_name->0@.len() > 0 && hook.tool_name->0@ != "Bash"@
            && hook.tool_name->0@ != "Edit"@ && hook.tool_name->0@ != "Write"@
            && hook.tool_name->0@ != "Read"@ && hook.tool_name->0@ != "NotebookEdit"@ ==> (
        plan_for(Some(hook), plan) <==> plan is Allow),
{
}

/// The tool that runs commands is none that works on a file, and neither is no tool.
proof fn lemma_tools_differ()
    ensures
        !is_file_tool("Bash"@),
        !is_file_tool(Seq::empty()),
{
    reveal_strlit("Edit");
    reveal_strlit("Write");
    reveal_strlit("Read");
    reveal_strlit("NotebookEdit");
    reveal_strlit("Bash");
    assert("Edit"@.len() > 0 && "Write"@.len() > 0 && "Read"@.len() > 0 && "NotebookEdit"@.len()
        > 0);
    assert("Bash"@[0] == 'B');
    assert("Edit"@[0] == 'E' && "Write"@[0] == 'W' && "Read"@[0] == 'R' && "NotebookEdit"@[0]
        == 'N');
}

/// The command in an announcement is the one in its arguments, unless that is blank.
pub proof fn law_command_in(hook: Option<HookInput>, command: String)
    ensures
        command_in(hook) == Some(command) <==> hook is Some && hook->0.tool_input is Some
            && hook->0.tool_input->0.command == Some(command) && !(forall|i: int|
            0 <= i < command@.len() ==> whitespace(#[trigger] command@[i])),
{
    law_blank_text_is_trimmed_away(command@);
}

/// What the verdict on a tool call is, on a disk at rest: that on the command where one
/// is to be checked; that on the first of the paths that is denied, where paths are to
/// be checked and there is a list of allowed ones; and none otherwise. With such a list
/// and no path at all the call is denied.
pub proof fn law_guard_decision(
    disk: Disk,
    plan: GuardPlan,
    allowed: Option<Seq<char>>,
    patterns: Seq<CompiledPattern>,
    k: int,
)
    ensures
        plan is Allow ==> guard_decision(disk, plan, allowed, patterns) is None,
        plan is CheckCommand ==> guard_decision(disk, plan, allowed, patterns) == command_verdict(
            patterns,
            plan->command@,
        ),
        plan is CheckPaths && (allowed is None || allowed->0.len() == 0) ==> guard_decision(
            disk,
            plan,
            allowed,
            patterns,
        ) is None,
        plan is CheckPaths && allowed is Some && allowed->0.len() > 0 && plan->paths@.len() == 0
            ==> guard_decision(disk, plan, allowed, patterns) == Some(
            plan->tool@ + " blocked: no file path provided for sandboxed tool."@,
        ),
        plan is CheckPaths && allowed is Some && allowed->0.len() > 0 && 0 <= k < plan->paths@.len()
            && sandbox_decision(disk, plan->tool@, plan->paths@[k]@, allowed->0) is Some && (
        forall|j: int|
            0 <= j < k ==> sandbox_decision(
                disk,
                plan->tool@,
                (#[trigger] plan->paths@[j])@,
                allowed->0,
            ) is None) ==> guard_decision(disk, plan, allowed, patterns) == sandbox_decision(
            disk,
            plan->tool@,
            plan->paths@[k]@,
            allowed->0,
        ),
        plan is CheckPaths && allowed is Some && allowed->0.len() > 0 && plan->paths@.len() > 0 && (
        forall|j: int|
            0 <= j < plan->paths@.len() ==> sandbox_decision(
                disk,
                plan->tool@,
                (#[trigger] plan->paths@[j])@,
                allowed->0,
            ) is None) ==> guard_decision(disk, plan, allowed, patterns) is None,
{
    if let GuardPlan::CheckPaths { tool, paths } = plan {
        let n = paths@.len() as int;
        assert forall|j: int| 0 <= j < n implies file_path_decision(
            disk,
            tool@,
            (#[trigger] paths@[j])@,
            allowed,
        ) == (if allowed is Some && allowed->0.len() > 0 {
            sandbox_decision(disk, tool@, paths@[j]@, allowed->0)
        } else {
            None
        }) by {}
        if allowed is None || allowed->0.len() == 0 {
            lemma_paths_decision(disk, tool@, paths@, allowed, n);
        } else if n > 0 {
            if 0 <= k < n && sandbox_decision(disk, tool@, paths@[k]@, allowed->0) is Some && (
            forall|j: int|
                0 <= j < k ==> sandbox_decision(
                    disk,
                    tool@,
                    (#[trigger] paths@[j])@,
                    allowed->0,
                ) is None) {
                lemma_paths_decision(disk, tool@, paths@, allowed, k);
            }
            if forall|j: int|
                0 <= j < n ==> sandbox_decision(
                    disk,
                    tool@,
                    (#[trigger] paths@[j])@,
                    allowed->0,
                ) is None {
                lemma_paths_decision(disk, tool@, paths@, allowed, n);
            }
        }
    }
}

/// The sandbox is on exactly if there is a list of allowed paths that is not empty.
pub proof fn law_sandboxed(allowed: Option<&str>)
    ensures
        sandboxed(list_text(allowed)) <==> allowed is Some && allowed->0@.len() > 0,
{
}

// ---------------------------------------------------------------------------
// The functions
// ---------------------------------------------------------------------------
/// Decides on a tool call, once it is known what has to be checked.
pub fn handle_guard<F: Fn(&str) -> Option<String>>(
    plan: &GuardPlan,
    allowed: Option<&str>,
    patterns: &[CompiledPattern],
    canonicalize: &F,
) -> (r: Option<DenyReason>)
    requires
        forall|p: &str| call_requires(*canonicalize, (p,)),
    ensures
        guard_verdict(*canonicalize, *plan, list_text(allowed), patterns@, reason_of(r)),
        forall|disk: Disk| #[trigger]
            answers_by(*canonicalize, disk) ==> reason_of(r) == guard_decision(
                disk,
                *plan,
                list_text(allowed),
                patterns@,
            ),
{
    let r = carry_out(plan, allowed, patterns, canonicalize);
    proof {
        assert forall|disk: Disk| #[trigger] answers_by(*canonicalize, disk) implies reason_of(r)
            == guard_decision(disk, *plan, list_text(allowed), patterns@) by {
            law_guard_is_settled(
                *canonicalize,
                disk,
                *plan,
                list_text(allowed),
                patterns@,
                reason_of(r),
            );
        }
    }
    r
}

fn carry_out<F: Fn(&str) -> Option<String>>(
    plan: &GuardPlan,
    allowed: Option<&str>,
    patterns: &[CompiledPattern],
    canonicalize: &F,
) -> (r: Option<DenyReason>)
    requires
        forall|p: &str| call_requires(*canonicalize, (p,)),
    ensures
        guard_verdict(*canonicalize, *plan, list_text(allowed), patterns@, reason_of(r)),
{
    match plan {
        GuardPlan::Allow => None,
        GuardPlan::CheckCommand { command } => evaluate_command(command.as_str(), patterns),
        GuardPlan::CheckPaths { tool, paths } => {
            let n: usize = paths.len();
            if n == 0 {
                if is_sandboxed(allowed) {
                    let reason = tool.clone().concat(
                        " blocked: no file path provided for sandboxed tool.",
                    );
                    return Some(DenyReason { reason });
                }
                return None;
            }
            let mut i: usize = 0;
            while i < n
                invariant
                    forall|p: &str| call_requires(*canonicalize, (p,)),
                    *plan == (GuardPlan::CheckPaths { tool: *tool, paths: *paths }),
                    n == paths@.len(),
                    0 < n,
                    i <= n,
                    forall|k: int|
                        0 <= k < i ==> file_path_verdict(
                            *canonicalize,
                            tool@,
                            (#[trigger] paths@[k])@,
                            list_text(allowed),
                            None,
                        ),
                decreases n - i,
            {
                let denial = evaluate_file_path(
                    tool.as_str(),
                    paths[i].as_str(),
                    allowed,
                    canonicalize,
                );
                if denial.is_some() {
                    return denial;
                }
                i += 1;
            }
            None
        },
    }
}

/// Tells whether there is a list of allowed paths that is not empty.
pub fn is_sandboxed(allowed: Option<&str>) -> (r: bool)
    ensures
        r == sandboxed(list_text(allowed)),
{
    match allowed {
        Some(list) => !list.is_empty(),
        None => false,
    }
}

} // verus!
