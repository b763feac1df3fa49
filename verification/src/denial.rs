//! Denials, and how a denial is written for the agent.
use crate::json::json_quoted;
use crate::json::json_string;
use crate::json::law_string_is_read_back;
use crate::json::lemma_last_member_is_read;
use crate::json::lemma_member_is_read;
use crate::json::lemma_object_is_read;
use crate::json::lemma_plain_body;
use crate::json::lemma_printable_concat;
use crate::json::lemma_quoted_is_printable;
use crate::json::printable;
use crate::json::read_json;
use crate::json::read_members;
use crate::json::Json;
use vstd::prelude::*;
use vstd::string::*;

verus! {

/// Why a tool call is denied.
#[derive(Debug, Clone, PartialEq)]
pub struct DenyReason {
    pub reason: String,
}

/// The text of a denial, `None` where the call is allowed.
pub open spec fn reason_of(denial: Option<DenyReason>) -> Option<Seq<char>> {
    match denial {
        Some(d) => Some(d.reason@),
        None => None,
    }
}

/// A denial is told by its own reason, and nothing is told of a call that is allowed.
pub proof fn law_reason_of(denial: DenyReason)
    ensures
        reason_of(Some(denial)) == Some(denial.reason@),
        reason_of(None) is None,
{
}

// ---------------------------------------------------------------------------
// The answer of a hook
// ---------------------------------------------------------------------------
/// An answer as one line of JSON.
pub open spec fn answer_line(event: Seq<char>, decision: Seq<char>, reason: Seq<char>) -> Seq<
    char,
> {
    "{\"hookSpecificOutput\":{\"hookEventName\":"@ + json_quoted(event)
        + ",\"permissionDecision\":"@ + json_quoted(decision)
        + ",\"permissionDecisionReason\":"@ + json_quoted(reason) + "}}"@
}

/// The line of JSON that denies a tool call for `reason`.
pub open spec fn denial_line(reason: Seq<char>) -> Seq<char> {
    answer_line("PreToolUse"@, "deny"@, reason)
}

/// What an answer says, as a JSON value.
pub open spec fn answer_value(event: Seq<char>, decision: Seq<char>, reason: Seq<char>) -> Json {
    Json::Object(
        seq![
            (
                "hookSpecificOutput"@,
                Json::Object(
                    seq![
                        ("hookEventName"@, Json::Text(event)),
                        ("permissionDecision"@, Json::Text(decision)),
                        ("permissionDecisionReason"@, Json::Text(reason)),
                    ],
                ),
            ),
        ],
    )
}

/// The fixed parts of an answer are names and punctuation.
proof fn lemma_fixed_parts()
    ensures
        "{\"hookSpecificOutput\":{\"hookEventName\":"@ == seq!['{'] + json_quoted(
            "hookSpecificOutput"@,
        ) + seq![':', '{'] + json_quoted("hookEventName"@) + seq![':'],
        ",\"permissionDecision\":"@ == seq![','] + json_quoted("permissionDecision"@) + seq![':'],
        ",\"permissionDecisionReason\":"@ == seq![','] + json_quoted("permissionDecisionReason"@)
            + seq![':'],
        "}}"@ == seq!['}'] + (seq!['}'] + Seq::empty()),
{
    reveal_strlit("hookSpecificOutput");
    reveal_strlit("hookEventName");
    reveal_strlit("permissionDecision");
    reveal_strlit("permissionDecisionReason");
    lemma_plain_body("hookSpecificOutput"@);
    lemma_plain_body("hookEventName"@);
    lemma_plain_body("permissionDecision"@);
    lemma_plain_body("permissionDecisionReason"@);
    reveal_strlit("{\"hookSpecificOutput\":{\"hookEventName\":");
    reveal_strlit(",\"permissionDecision\":");
    reveal_strlit(",\"permissionDecisionReason\":");
    reveal_strlit("}}");
}

/// `a`, `b` and `c` stand in front of `d`, however they are put together.
proof fn lemma_regroup(a: Seq<char>, b: Seq<char>, c: Seq<char>, d: Seq<char>)
    ensures
        (a + b + c) + d == a + (b + (c + d)),
{
    assert((a + b + c) + d =~= a + (b + (c + d)));
}

/// The members of the inner object of an answer, and the end of the line.
spec fn inner_part(event: Seq<char>, decision: Seq<char>, reason: Seq<char>) -> Seq<char> {
    let end = seq!['}'] + (seq!['}'] + Seq::empty());
    let third = json_quoted("permissionDecisionReason"@) + (seq![':'] + (json_quoted(reason)
        + end));
    let second = json_quoted("permissionDecision"@) + (seq![':'] + (json_quoted(decision) + (
    seq![','] + third)));
    json_quoted("hookEventName"@) + (seq![':'] + (json_quoted(event) + (seq![','] + second)))
}

/// An answer is an object with one member, whose value is the inner object.
proof fn lemma_answer_parts(event: Seq<char>, decision: Seq<char>, reason: Seq<char>)
    ensures
        answer_line(event, decision, reason) == seq!['{'] + (json_quoted("hookSpecificOutput"@) + (
        seq![':'] + (seq!['{'] + inner_part(event, decision, reason)))),
{
    lemma_fixed_parts();
    let start = "{\"hookSpecificOutput\":{\"hookEventName\":"@;
    let middle = ",\"permissionDecision\":"@;
    let last = ",\"permissionDecisionReason\":"@;
    let end = "}}"@;
    let e = json_quoted(event);
    let d = json_quoted(decision);
    let r = json_quoted(reason);
    let outer = json_quoted("hookSpecificOutput"@);
    let name1 = json_quoted("hookEventName"@);
    let name2 = json_quoted("permissionDecision"@);
    let name3 = json_quoted("permissionDecisionReason"@);
    let from3 = name3 + (seq![':'] + (r + end));
    let from2 = name2 + (seq![':'] + (d + (seq![','] + from3)));
    let from1 = name1 + (seq![':'] + (e + (seq![','] + from2)));
    lemma_regroup(start + e + middle + d + last, r, end, Seq::empty());
    lemma_regroup(start + e + middle, d, last, r + end);
    lemma_regroup(start, e, middle, d + (last + (r + end)));
    assert(answer_line(event, decision, reason) == start + (e + (middle + (d + (last + (r
        + end))))));
    lemma_regroup(seq![','], name3, seq![':'], r + end);
    lemma_regroup(seq![','], name2, seq![':'], d + (seq![','] + from3));
    lemma_regroup(seq!['{'] + outer + seq![':', '{'], name1, seq![':'], e + (seq![','] + from2));
    lemma_regroup(seq!['{'], outer, seq![':', '{'], from1);
    assert(seq![':', '{'] + from1 == seq![':'] + (seq!['{'] + from1));
}

/// The members of the inner object of an answer, as they are read.
spec fn inner_members(event: Seq<char>, decision: Seq<char>, reason: Seq<char>) -> Seq<
    (Seq<char>, Json),
> {
    seq![
        ("hookEventName"@, Json::Text(event)),
        ("permissionDecision"@, Json::Text(decision)),
        ("permissionDecisionReason"@, Json::Text(reason)),
    ]
}

proof fn lemma_inner_part_is_read(event: Seq<char>, decision: Seq<char>, reason: Seq<char>)
    ensures
        read_members(inner_part(event, decision, reason)) == Some(
            (inner_members(event, decision, reason), seq!['}']),
        ),
{
    let member2 = ("permissionDecision"@, Json::Text(decision));
    let member3 = ("permissionDecisionReason"@, Json::Text(reason));
    let end = seq!['}'] + Seq::<char>::empty();
    let third = json_quoted(member3.0) + (seq![':'] + (json_quoted(reason) + (seq!['}'] + end)));
    let second = json_quoted(member2.0) + (seq![':'] + (json_quoted(decision) + (seq![',']
        + third)));
    law_string_is_read_back(reason, seq!['}'] + end);
    lemma_last_member_is_read(member3.0, member3.1, json_quoted(reason), end);
    lemma_member_is_read(member2.0, decision, third, seq![member3], end);
    lemma_member_is_read(
        "hookEventName"@,
        event,
        second,
        seq![member2] + seq![member3],
        end,
    );
    assert(seq![("hookEventName"@, Json::Text(event))] + (seq![member2] + seq![member3])
        == inner_members(event, decision, reason));
    assert(end == seq!['}']);
}

/// The inner object ends in front of the brace that ends the line.
proof fn lemma_inner_part_ends(event: Seq<char>, decision: Seq<char>, reason: Seq<char>)
    ensures
        inner_part(event, decision, reason).len() > 0,
        inner_part(event, decision, reason).last() == '}',
{
}

/// Reading an answer as JSON gives back what it says, whatever characters are in it.
pub proof fn law_answer_is_read_back(event: Seq<char>, decision: Seq<char>, reason: Seq<char>)
    ensures
        read_json(answer_line(event, decision, reason)) == Some(
            answer_value(event, decision, reason),
        ),
{
    let name = "hookSpecificOutput"@;
    let part = inner_part(event, decision, reason);
    let value = Json::Object(inner_members(event, decision, reason));
    let nothing = Seq::<char>::empty();
    lemma_inner_part_is_read(event, decision, reason);
    lemma_inner_part_ends(event, decision, reason);
    lemma_object_is_read(part, inner_members(event, decision, reason), seq!['}']);
    let inner = (seq!['{'] + part).drop_last();
    assert(seq!['}'] + nothing == seq!['}']);
    assert(inner + seq!['}'] == seq!['{'] + part);
    lemma_last_member_is_read(name, value, inner, nothing);
    lemma_object_is_read(
        json_quoted(name) + (seq![':'] + (seq!['{'] + part)),
        seq![(name, value)],
        nothing,
    );
    lemma_answer_parts(event, decision, reason);
}

/// The line that denies a call says so in fixed words, and then gives the reason.
pub proof fn law_denial_line(reason: Seq<char>)
    ensures
        denial_line(reason)
            == "{\"hookSpecificOutput\":{\"hookEventName\":\"PreToolUse\",\"permissionDecision\":\"deny\",\"permissionDecisionReason\":"@
            + json_quoted(reason) + "}}"@,
{
    reveal_strlit("PreToolUse");
    reveal_strlit("deny");
    lemma_plain_body("PreToolUse"@);
    lemma_plain_body("deny"@);
    let fixed = "{\"hookSpecificOutput\":{\"hookEventName\":"@ + json_quoted("PreToolUse"@)
        + ",\"permissionDecision\":"@ + json_quoted("deny"@)
        + ",\"permissionDecisionReason\":"@;
    assert(fixed
        == "{\"hookSpecificOutput\":{\"hookEventName\":\"PreToolUse\",\"permissionDecision\":\"deny\",\"permissionDecisionReason\":"@)
        by {
        reveal_strlit("{\"hookSpecificOutput\":{\"hookEventName\":");
        reveal_strlit(",\"permissionDecision\":");
        reveal_strlit(",\"permissionDecisionReason\":");
        reveal_strlit(
            "{\"hookSpecificOutput\":{\"hookEventName\":\"PreToolUse\",\"permissionDecision\":\"deny\",\"permissionDecisionReason\":",
        );
    }
}

/// An answer stands on one line: no control character is left in it, whatever is in
/// the reason.
pub proof fn law_answer_is_one_line(event: Seq<char>, decision: Seq<char>, reason: Seq<char>)
    ensures
        printable(answer_line(event, decision, reason)),
{
    lemma_quoted_is_printable(event);
    lemma_quoted_is_printable(decision);
    lemma_quoted_is_printable(reason);
    reveal_strlit("{\"hookSpecificOutput\":{\"hookEventName\":");
    reveal_strlit(",\"permissionDecision\":");
    reveal_strlit(",\"permissionDecisionReason\":");
    reveal_strlit("}}");
    let a = "{\"hookSpecificOutput\":{\"hookEventName\":"@;
    let b = ",\"permissionDecision\":"@;
    let c = ",\"permissionDecisionReason\":"@;
    let d = "}}"@;
    assert(printable(a));
    assert(printable(b));
    assert(printable(c));
    assert(printable(d));
    lemma_printable_concat(a, json_quoted(event));
    let s1 = a + json_quoted(event);
    lemma_printable_concat(s1, b);
    lemma_printable_concat(s1 + b, json_quoted(decision));
    let s2 = s1 + b + json_quoted(decision);
    lemma_printable_concat(s2, c);
    lemma_printable_concat(s2 + c, json_quoted(reason));
    lemma_printable_concat(s2 + c + json_quoted(reason), d);
}

/// The answer to a tool call.
#[derive(Debug, Clone)]
pub struct HookOutput {
    pub hook_specific_output: HookSpecificOutput,
}

/// What the answer says.
#[derive(Debug, Clone)]
pub struct HookSpecificOutput {
    pub hook_event_name: String,
    pub permission_decision: String,
    pub permission_decision_reason: String,
}

impl HookOutput {
    /// The answer that denies a call for `reason`.
    pub fn denial(reason: String) -> (r: HookOutput)
        ensures
            r.hook_specific_output.hook_event_name@ == "PreToolUse"@,
            r.hook_specific_output.permission_decision@ == "deny"@,
            r.hook_specific_output.permission_decision_reason == reason,
    {
        HookOutput {
            hook_specific_output: HookSpecificOutput {
                hook_event_name: "PreToolUse".to_owned(),
                permission_decision: "deny".to_owned(),
                permission_decision_reason: reason,
            },
        }
    }

    /// The answer as one line of JSON.
    pub open spec fn json(self) -> Seq<char> {
        let out = self.hook_specific_output;
        answer_line(
            out.hook_event_name@,
            out.permission_decision@,
            out.permission_decision_reason@,
        )
    }

    /// Writes the answer as one line of JSON.
    pub fn to_json(&self) -> (r: String)
        ensures
            r@ == self.json(),
    {
        let out = &self.hook_specific_output;
        let event = json_string(out.hook_event_name.as_str()).unwrap();
        let decision = json_string(out.permission_decision.as_str()).unwrap();
        let reason = json_string(out.permission_decision_reason.as_str()).unwrap();
        "{\"hookSpecificOutput\":{\"hookEventName\":".to_owned().concat(event.as_str()).concat(
            ",\"permissionDecision\":",
        ).concat(decision.as_str()).concat(",\"permissionDecisionReason\":").concat(
            reason.as_str(),
        ).concat("}}")
    }
}

/// An answer is written with its own three texts, in this order, and nothing else varies.
pub proof fn law_answer_is_written_with_its_texts(output: HookOutput)
    ensures
        output.json() == "{\"hookSpecificOutput\":{\"hookEventName\":"@ + json_quoted(
            output.hook_specific_output.hook_event_name@,
        ) + ",\"permissionDecision\":"@ + json_quoted(
            output.hook_specific_output.permission_decision@,
        ) + ",\"permissionDecisionReason\":"@ + json_quoted(
            output.hook_specific_output.permission_decision_reason@,
        ) + "}}"@,
{
}

/// Writes the line that denies a tool call for `reason`. It is one line, and reading it
/// as JSON gives the reason back.
pub fn emit_denial(reason: String) -> (r: String)
    ensures
        r@ == denial_line(reason@),
        printable(r@),
        read_json(r@) == Some(answer_value("PreToolUse"@, "deny"@, reason@)),
{
    proof {
        law_answer_is_one_line("PreToolUse"@, "deny"@, reason@);
        law_answer_is_read_back("PreToolUse"@, "deny"@, reason@);
    }
    HookOutput::denial(reason).to_json()
}

} // verus!
