//! The configuration that is built in. It is in force where neither the project nor
//! the user has one.
use crate::config::default_enabled;
use crate::config::default_priority;
use crate::config::default_schema_version;
use crate::config::GuardConfig;
use crate::config::MatcherConfig;
use crate::config::PatternDefinition;
use crate::config::ValidatorConfig;
use crate::pattern::definition_triggers;
use crate::text::occurs_in;
use crate::validator::args_match_any;
use crate::validator::flags_present;
use crate::validator::lemma_texts;
use crate::validator::passes;
use crate::validator::texts;
use vstd::prelude::*;
use vstd::string::*;

verus! {

// ---------------------------------------------------------------------------
// The texts of the patterns
// ---------------------------------------------------------------------------
pub const FORCE_PUSH_ID: &'static str = "meta.git.force_push";

pub const FORCE_PUSH_REGEX: &'static str = r"git\s+push.*\s+(--force|-f)\b";

pub const FORCE_PUSH_MESSAGE: &'static str =
    "BLOCKED: git push --force can overwrite the work of others. Use --force-with-lease instead, which refuses to overwrite commits that you have not seen.";

pub const RESET_HARD_ID: &'static str = "meta.git.reset_hard";

pub const RESET_HARD_REGEX: &'static str = r"git\s+reset.*\s--hard\b";

pub const RESET_HARD_MESSAGE: &'static str =
    "BLOCKED: git reset --hard discards uncommitted work for good. Use git stash, or create a snapshot first with meta git snapshot create.";

pub const CLEAN_FORCE_ID: &'static str = "meta.git.clean_force";

pub const CLEAN_FORCE_REGEX: &'static str = r"git\s+clean\b";

pub const CLEAN_FORCE_MESSAGE: &'static str =
    "BLOCKED: git clean with -f and -d deletes untracked files and directories for good. Use git clean -nd for a dry run first.";

pub const CHECKOUT_DOT_ID: &'static str = "meta.git.checkout_dot";

pub const CHECKOUT_DOT_REGEX: &'static str = r"git\s+checkout\s+(--\s+)?\.\s*$";

pub const CHECKOUT_DOT_MESSAGE: &'static str =
    "BLOCKED: git checkout . discards every uncommitted change. Name the files to be restored instead.";

pub const BRANCH_FORCE_DELETE_ID: &'static str = "meta.git.branch_force_delete";

pub const BRANCH_FORCE_DELETE_REGEX: &'static str = r"git\s+branch\s+(.*\s)?-D\b";

pub const BRANCH_FORCE_DELETE_MESSAGE: &'static str =
    "BLOCKED: git branch -D deletes a branch even if it is not merged. Use git branch -d instead (safe delete: refuses if the branch is not merged).";

pub const STASH_DROP_ID: &'static str = "meta.git.stash_drop";

pub const STASH_DROP_REGEX: &'static str = r"git\s+stash\s+drop\b";

pub const STASH_DROP_MESSAGE: &'static str =
    "BLOCKED: git stash drop deletes stashed work for good. Use git stash list to look at the entries and git stash apply to restore one first.";

pub const STASH_CLEAR_ID: &'static str = "meta.git.stash_clear";

pub const STASH_CLEAR_REGEX: &'static str = r"git\s+stash\s+clear\b";

pub const STASH_CLEAR_MESSAGE: &'static str =
    "BLOCKED: git stash clear deletes ALL stash entries for good. Use git stash list first, and git stash drop for a single entry.";

pub const DANGEROUS_RM_ID: &'static str = "meta.rm.dangerous_paths";

pub const DANGEROUS_RM_REGEX: &'static str = r"\brm\s";

pub const DANGEROUS_RM_MESSAGE: &'static str =
    "BLOCKED: rm -rf on this path can destroy the workspace. Name the files or directories to be removed instead.";

// ---------------------------------------------------------------------------
// The meaning of the configuration
// ---------------------------------------------------------------------------
/// `def` is enabled, has the default priority, and has these texts.
pub open spec fn has_texts(
    def: PatternDefinition,
    id: Seq<char>,
    regex: Seq<char>,
    message: Seq<char>,
) -> bool {
    &&& def.id@ == id
    &&& def.priority == 100
    &&& def.enabled
    &&& def.matcher.text() == regex
    &&& def.message@ == message
}

/// `validator` asks for short options behind `command`.
pub open spec fn asks_for_flags(
    validator: ValidatorConfig,
    command: Seq<char>,
    flags: Seq<Seq<char>>,
) -> bool {
    validator matches ValidatorConfig::FlagsPresent { command: c, flags: f } && c@ == command
        && texts(f@) == flags
}

/// `validator` asks for one of some arguments behind `command`.
pub open spec fn asks_for_argument(
    validator: ValidatorConfig,
    command: Seq<char>,
    values: Seq<Seq<char>>,
) -> bool {
    validator matches ValidatorConfig::ArgsMatchAny { command: c, values: v } && c@ == command
        && texts(v@) == values
}

/// The arguments that make `rm -rf` a danger to the workspace.
pub open spec fn dangerous_arguments() -> Seq<Seq<char>> {
    seq![
        "."@,
        ".."@,
        "/"@,
        "*"@,
        "./*"@,
        "../*"@,
        "~"@,
        "$HOME"@,
        ".meta"@,
        ".meta.yaml"@,
        ".meta.yml"@,
    ]
}

/// `config` is the one that is built in.
pub open spec fn is_embedded(config: GuardConfig) -> bool {
    let p = config.patterns@;
    &&& config.schema_version@ == "1.0"@
    &&& config.metadata is None
    &&& p.len() == 8
    &&& has_texts(p[0], FORCE_PUSH_ID@, FORCE_PUSH_REGEX@, FORCE_PUSH_MESSAGE@)
    &&& p[0].validator matches Some(ValidatorConfig::NotContains { value })
    &&& value@ == "--force-with-lease"@
    &&& has_texts(p[1], RESET_HARD_ID@, RESET_HARD_REGEX@, RESET_HARD_MESSAGE@)
    &&& p[1].validator is None
    &&& has_texts(p[2], CLEAN_FORCE_ID@, CLEAN_FORCE_REGEX@, CLEAN_FORCE_MESSAGE@)
    &&& p[2].validator matches Some(v)
    &&& asks_for_flags(v, "clean"@, seq!["f"@, "d"@])
    &&& has_texts(p[3], CHECKOUT_DOT_ID@, CHECKOUT_DOT_REGEX@, CHECKOUT_DOT_MESSAGE@)
    &&& p[3].validator is None
    &&& has_texts(p[4], BRANCH_FORCE_DELETE_ID@, BRANCH_FORCE_DELETE_REGEX@, BRANCH_FORCE_DELETE_MESSAGE@)
    &&& p[4].validator is None
    &&& has_texts(p[5], STASH_DROP_ID@, STASH_DROP_REGEX@, STASH_DROP_MESSAGE@)
    &&& p[5].validator is None
    &&& has_texts(p[6], STASH_CLEAR_ID@, STASH_CLEAR_REGEX@, STASH_CLEAR_MESSAGE@)
    &&& p[6].validator is None
    &&& has_texts(p[7], DANGEROUS_RM_ID@, DANGEROUS_RM_REGEX@, DANGEROUS_RM_MESSAGE@)
    &&& p[7].validator matches Some(ValidatorConfig::AllOf { validators })
    &&& validators@.len() == 2
    &&& asks_for_flags(validators@[0], "rm"@, seq!["r"@, "f"@])
    &&& asks_for_argument(validators@[1], "rm"@, dangerous_arguments())
}

// ---------------------------------------------------------------------------
// Laws
// ---------------------------------------------------------------------------
/// All the patterns that are built in are enabled, and there are at least eight.
pub proof fn law_embedded_patterns_are_enabled(config: GuardConfig)
    requires
        is_embedded(config),
    ensures
        config.patterns@.len() >= 8,
        forall|k: int| 0 <= k < config.patterns@.len() ==> (#[trigger] config.patterns@[k]).enabled,
{
    assert forall|k: int| 0 <= k < config.patterns@.len() implies (
    #[trigger] config.patterns@[k]).enabled by {
        assert(k == 0 || k == 1 || k == 2 || k == 3 || k == 4 || k == 5 || k == 6 || k == 7);
    }
}

/// What the built-in patterns look for, each with the priority that a pattern has by
/// default, and what their validators ask for.
pub proof fn law_embedded_patterns(config: GuardConfig)
    requires
        is_embedded(config),
    ensures
        config.schema_version@ == "1.0"@,
        config.metadata is None,
        config.patterns@.len() == 8,
        forall|k: int|
            0 <= k < 8 ==> (#[trigger] config.patterns@[k]).enabled && config.patterns@[k].priority
                == 100,
        config.patterns@[0].id@ == "meta.git.force_push"@,
        config.patterns@[0].matcher->pattern@ == r"git\s+push.*\s+(--force|-f)\b"@,
        config.patterns@[0].validator is Some,
        config.patterns@[0].validator->0 is NotContains,
        config.patterns@[0].validator->0->value@ == "--force-with-lease"@,
        config.patterns@[1].id@ == "meta.git.reset_hard"@,
        config.patterns@[1].matcher->pattern@ == r"git\s+reset.*\s--hard\b"@,
        config.patterns@[1].validator is None,
        config.patterns@[2].id@ == "meta.git.clean_force"@,
        config.patterns@[2].matcher->pattern@ == r"git\s+clean\b"@,
        config.patterns@[2].validator is Some,
        config.patterns@[2].validator->0 is FlagsPresent,
        config.patterns@[2].validator->0->FlagsPresent_command@ == "clean"@,
        config.patterns@[2].validator->0->flags.deep_view() == seq!["f"@, "d"@],
        config.patterns@[3].id@ == "meta.git.checkout_dot"@,
        config.patterns@[3].matcher->pattern@ == r"git\s+checkout\s+(--\s+)?\.\s*$"@,
        config.patterns@[3].validator is None,
        config.patterns@[4].id@ == "meta.git.branch_force_delete"@,
        config.patterns@[4].matcher->pattern@ == r"git\s+branch\s+(.*\s)?-D\b"@,
        config.patterns@[4].validator is None,
        config.patterns@[5].id@ == "meta.git.stash_drop"@,
        config.patterns@[5].matcher->pattern@ == r"git\s+stash\s+drop\b"@,
        config.patterns@[5].validator is None,
        config.patterns@[6].id@ == "meta.git.stash_clear"@,
        config.patterns@[6].matcher->pattern@ == r"git\s+stash\s+clear\b"@,
        config.patterns@[6].validator is None,
        config.patterns@[7].id@ == "meta.rm.dangerous_paths"@,
        config.patterns@[7].matcher->pattern@ == r"\brm\s"@,
        config.patterns@[7].validator is Some,
        config.patterns@[7].validator->0 is AllOf,
        ({
            let both = config.patterns@[7].validator->0->AllOf_validators@;
            &&& both.len() == 2
            &&& both[0] is FlagsPresent
            &&& both[0]->FlagsPresent_command@ == "rm"@
            &&& both[0]->flags.deep_view() == seq!["r"@, "f"@]
            &&& both[1] is ArgsMatchAny
            &&& both[1]->ArgsMatchAny_command@ == "rm"@
            &&& both[1]->values.deep_view() == seq![
                "."@,
                ".."@,
                "/"@,
                "*"@,
                "./*"@,
                "../*"@,
                "~"@,
                "$HOME"@,
                ".meta"@,
                ".meta.yaml"@,
                ".meta.yml"@,
            ]
        }),
{
    law_embedded_patterns_are_enabled(config);
    let both = config.patterns@[7].validator->0->AllOf_validators@;
    lemma_texts(config.patterns@[2].validator->0->flags);
    lemma_texts(both[0]->flags);
    lemma_texts(both[1]->values);
    assert forall|k: int| 0 <= k < 8 implies (#[trigger] config.patterns@[k]).enabled
        && config.patterns@[k].priority == 100 by {
        assert(k == 0 || k == 1 || k == 2 || k == 3 || k == 4 || k == 5 || k == 6 || k == 7);
    }
}

/// What the built-in patterns with a validator leave alone. A push that names the
/// safe alternative is no forced push; cleaning is denied only with `-f` and `-d`;
/// removing is denied only with `-r` and `-f` and on an argument from the list.
pub proof fn law_embedded_validators(config: GuardConfig, segment: Seq<char>)
    requires
        is_embedded(config),
    ensures
        occurs_in(segment, "--force-with-lease"@) ==> !definition_triggers(
            config.patterns@[0],
            segment,
        ),
        definition_triggers(config.patterns@[2], segment) ==> flags_present(
            segment,
            "clean"@,
            seq!["f"@, "d"@],
        ),
        definition_triggers(config.patterns@[7], segment) ==> flags_present(
            segment,
            "rm"@,
            seq!["r"@, "f"@],
        ) && args_match_any(segment, "rm"@, dangerous_arguments()),
{
    if definition_triggers(config.patterns@[7], segment) {
        let v = config.patterns@[7].validator->0;
        assert(passes(v, segment));
        let inner = v->AllOf_validators@;
        assert(passes(inner[0], segment));
        assert(passes(inner[1], segment));
    }
}

// ---------------------------------------------------------------------------
// The functions
// ---------------------------------------------------------------------------
/// Owned copies of some texts.
fn strings(list: Vec<&str>) -> (r: Vec<String>)
    ensures
        texts(r@) == list.deep_view(),
{
    let ghost all = list.deep_view();
    let n: usize = list.len();
    let mut out: Vec<String> = Vec::new();
    let mut i: usize = 0;
    assert(texts(out@) == all.take(0));
    while i < n
        invariant
            n == list@.len(),
            all == list.deep_view(),
            i <= n,
            texts(out@) == all.take(i as int),
        decreases n - i,
    {
        let ghost before = out@;
        let s = list[i].to_owned();
        out.push(s);
        assert(texts(out@) == texts(before).push(s@));
        assert(all.take(i + 1) == all.take(i as int).push(s@));
        i += 1;
    }
    assert(all.take(n as int) == all);
    out
}

/// A pattern with the default priority, enabled by default.
fn pattern(id: &str, regex: &str, validator: Option<ValidatorConfig>, message: &str) -> (r:
    PatternDefinition)
    ensures
        has_texts(r, id@, regex@, message@),
        r.validator == validator,
{
    PatternDefinition {
        id: id.to_owned(),
        priority: default_priority(),
        enabled: default_enabled(),
        matcher: MatcherConfig::Regex { pattern: regex.to_owned() },
        validator,
        message: message.to_owned(),
    }
}

/// Asks for all of `flags` behind `command`.
fn flags_behind(command: &str, flags: Vec<&str>) -> (r: ValidatorConfig)
    ensures
        asks_for_flags(r, command@, flags.deep_view()),
{
    ValidatorConfig::FlagsPresent { command: command.to_owned(), flags: strings(flags) }
}

/// Asks for `rm -rf` on something that it endangers the workspace to remove.
fn dangerous_rm() -> (r: ValidatorConfig)
    ensures
        r matches ValidatorConfig::AllOf { validators } && validators@.len() == 2
            && asks_for_flags(validators@[0], "rm"@, seq!["r"@, "f"@]) && asks_for_argument(
            validators@[1],
            "rm"@,
            dangerous_arguments(),
        ),
{
    let short_options: Vec<&str> = vec!["r", "f"];
    assert(short_options.deep_view() == seq!["r"@, "f"@]);
    let arguments: Vec<&str> = vec![
        ".",
        "..",
        "/",
        "*",
        "./*",
        "../*",
        "~",
        "$HOME",
        ".meta",
        ".meta.yaml",
        ".meta.yml",
    ];
    assert(arguments.deep_view() == dangerous_arguments());
    ValidatorConfig::AllOf {
        validators: vec![
            flags_behind("rm", short_options),
            ValidatorConfig::ArgsMatchAny {
                command: "rm".to_owned(),
                values: strings(arguments),
            },
        ],
    }
}

impl GuardConfig {
    /// The configuration that is built in.
    pub fn load_from_embedded() -> (r: GuardConfig)
        ensures
            is_embedded(r),
    {
        let lease = ValidatorConfig::NotContains { value: "--force-with-lease".to_owned() };
        let clean: Vec<&str> = vec!["f", "d"];
        assert(clean.deep_view() == seq!["f"@, "d"@]);
        let patterns: Vec<PatternDefinition> = vec![
            pattern(FORCE_PUSH_ID, FORCE_PUSH_REGEX, Some(lease), FORCE_PUSH_MESSAGE),
            pattern(RESET_HARD_ID, RESET_HARD_REGEX, None, RESET_HARD_MESSAGE),
            pattern(CLEAN_FORCE_ID, CLEAN_FORCE_REGEX, Some(flags_behind("clean", clean)), CLEAN_FORCE_MESSAGE),
            pattern(CHECKOUT_DOT_ID, CHECKOUT_DOT_REGEX, None, CHECKOUT_DOT_MESSAGE),
            pattern(BRANCH_FORCE_DELETE_ID, BRANCH_FORCE_DELETE_REGEX, None, BRANCH_FORCE_DELETE_MESSAGE),
            pattern(STASH_DROP_ID, STASH_DROP_REGEX, None, STASH_DROP_MESSAGE),
            pattern(STASH_CLEAR_ID, STASH_CLEAR_REGEX, None, STASH_CLEAR_MESSAGE),
            pattern(DANGEROUS_RM_ID, DANGEROUS_RM_REGEX, Some(dangerous_rm()), DANGEROUS_RM_MESSAGE),
        ];
        GuardConfig { schema_version: default_schema_version(), metadata: None, patterns }
    }

    /// The configuration that is in force: that of the project; or else that of the
    /// user; or else the one that is built in. The arguments are what could be read
    /// for the first two.
    pub fn load(project: Option<GuardConfig>, user: Option<GuardConfig>) -> (r: GuardConfig)
        ensures
            project matches Some(config) ==> r == config,
            project is None ==> (user matches Some(config) ==> r == config),
            project is None && user is None ==> is_embedded(r),
    {
        if let Some(config) = project {
            return config;
        }
        if let Some(config) = user {
            return config;
        }
        GuardConfig::load_from_embedded()
    }
}

} // verus!
