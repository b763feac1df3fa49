//! The configuration of the guard.
use vstd::prelude::*;
use vstd::string::*;

verus! {

/// A further check on a segment that a pattern has matched. Validators nest.
#[derive(Debug)]
pub enum ValidatorConfig {
    /// The segment does not contain `value`.
    NotContains { value: String },
    /// The short options behind `command` hold every letter of every one of `flags`.
    FlagsPresent { command: String, flags: Vec<String> },
    /// One of the arguments behind `command` is one of `values`.
    ArgsMatchAny { command: String, values: Vec<String> },
    /// Every one of `validators` passes.
    AllOf { validators: Vec<ValidatorConfig> },
    /// At least one of `validators` passes.
    AnyOf { validators: Vec<ValidatorConfig> },
    /// `validator` does not pass.
    Not { validator: Box<ValidatorConfig> },
}

impl ValidatorConfig {
    /// `self` and `other` have the same shape and the same texts.
    pub open spec fn alike(self, other: ValidatorConfig) -> bool
        decreases self,
    {
        match (self, other) {
            (
                ValidatorConfig::NotContains { value: a },
                ValidatorConfig::NotContains { value: b },
            ) => a@ == b@,
            (
                ValidatorConfig::FlagsPresent { command: c, flags: a },
                ValidatorConfig::FlagsPresent { command: d, flags: b },
            ) => c@ == d@ && a.deep_view() == b.deep_view(),
            (
                ValidatorConfig::ArgsMatchAny { command: c, values: a },
                ValidatorConfig::ArgsMatchAny { command: d, values: b },
            ) => c@ == d@ && a.deep_view() == b.deep_view(),
            (
                ValidatorConfig::AllOf { validators: a },
                ValidatorConfig::AllOf { validators: b },
            ) => a@.len() == b@.len() && forall|i: int|
                0 <= i < a@.len() ==> (#[trigger] a@[i]).alike(b@[i]),
            (
                ValidatorConfig::AnyOf { validators: a },
                ValidatorConfig::AnyOf { validators: b },
            ) => a@.len() == b@.len() && forall|i: int|
                0 <= i < a@.len() ==> (#[trigger] a@[i]).alike(b@[i]),
            (
                ValidatorConfig::Not { validator: a },
                ValidatorConfig::Not { validator: b },
            ) => a.alike(*b),
            _ => false,
        }
    }
}

/// Copies a list of texts.
fn copy_texts(list: &Vec<String>) -> (r: Vec<String>)
    ensures
        r.deep_view() == list.deep_view(),
{
    let n: usize = list.len();
    let mut out: Vec<String> = Vec::new();
    let mut i: usize = 0;
    while i < n
        invariant
            n == list@.len(),
            i <= n,
            out@ == list@.take(i as int),
        decreases n - i,
    {
        out.push(list[i].clone());
        i += 1;
    }
    assert(list@.take(n as int) == list@);
    out
}

impl Clone for ValidatorConfig {
    fn clone(&self) -> (r: Self)
        ensures
            self.alike(r),
        decreases self,
    {
        match self {
            ValidatorConfig::NotContains { value } => ValidatorConfig::NotContains {
                value: value.clone(),
            },
            ValidatorConfig::FlagsPresent { command, flags } => ValidatorConfig::FlagsPresent {
                command: command.clone(),
                flags: copy_texts(flags),
            },
            ValidatorConfig::ArgsMatchAny { command, values } => ValidatorConfig::ArgsMatchAny {
                command: command.clone(),
                values: copy_texts(values),
            },
            ValidatorConfig::AllOf { validators } => {
                let n: usize = validators.len();
                let mut out: Vec<ValidatorConfig> = Vec::new();
                let mut i: usize = 0;
                #[verifier::loop_isolation(false)]
                while i < n
                    invariant
                        i <= n,
                        out@.len() == i,
                        forall|j: int| 0 <= j < i ==> (#[trigger] validators@[j]).alike(out@[j]),
                    decreases n - i,
                {
                    assert(decreases_to!(*self => validators@[i as int]));
                    out.push(validators[i].clone());
                    i += 1;
                }
                ValidatorConfig::AllOf { validators: out }
            },
            ValidatorConfig::AnyOf { validators } => {
                let n: usize = validators.len();
                let mut out: Vec<ValidatorConfig> = Vec::new();
                let mut i: usize = 0;
                #[verifier::loop_isolation(false)]
                while i < n
                    invariant
                        i <= n,
                        out@.len() == i,
                        forall|j: int| 0 <= j < i ==> (#[trigger] validators@[j]).alike(out@[j]),
                    decreases n - i,
                {
                    assert(decreases_to!(*self => validators@[i as int]));
                    out.push(validators[i].clone());
                    i += 1;
                }
                ValidatorConfig::AnyOf { validators: out }
            },
            ValidatorConfig::Not { validator } => ValidatorConfig::Not {
                validator: Box::new((&**validator).clone()),
            },
        }
    }
}

/// What a pattern is matched with.
#[derive(Debug, Clone)]
pub enum MatcherConfig {
    /// A regular expression that is searched for in the segment.
    Regex { pattern: String },
}

impl MatcherConfig {
    /// The text of the regular expression.
    pub open spec fn text(self) -> Seq<char> {
        match self {
            MatcherConfig::Regex { pattern } => pattern@,
        }
    }
}

/// A pattern as the configuration defines it.
#[derive(Debug, Clone)]
pub struct PatternDefinition {
    pub id: String,
    pub priority: u32,
    pub enabled: bool,
    pub matcher: MatcherConfig,
    pub validator: Option<ValidatorConfig>,
    pub message: String,
}

/// Where a configuration file comes from.
#[derive(Debug, Clone)]
pub struct ConfigMetadata {
    pub source: String,
    pub version: String,
    pub description: Option<String>,
}

/// The configuration of the guard. Only `patterns` has an effect.
#[derive(Debug, Clone)]
pub struct GuardConfig {
    pub schema_version: String,
    pub metadata: Option<ConfigMetadata>,
    pub patterns: Vec<PatternDefinition>,
}

// ---------------------------------------------------------------------------
// Defaults of single fields
// ---------------------------------------------------------------------------
/// The version of the schema, where a configuration does not give it.
pub const DEFAULT_SCHEMA_VERSION: &'static str = "1.0";

/// The priority of a pattern that gives none.
pub const DEFAULT_PRIORITY: u32 = 100;

/// The version of the schema, where a configuration does not give it.
pub fn default_schema_version() -> (r: String)
    ensures
        r@ == "1.0"@,
{
    DEFAULT_SCHEMA_VERSION.to_owned()
}

/// The priority of a pattern that gives none.
pub fn default_priority() -> (r: u32)
    ensures
        r == 100,
{
    DEFAULT_PRIORITY
}

/// Whether a pattern that does not say so is enabled.
pub fn default_enabled() -> (r: bool)
    ensures
        r,
{
    true
}

} // verus!
