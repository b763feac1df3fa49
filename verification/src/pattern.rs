//! Compiling the patterns of a configuration, and holding commands against them.
use crate::config::GuardConfig;
use crate::config::MatcherConfig;
use crate::config::PatternDefinition;
use crate::config::ValidatorConfig;
use crate::denial::reason_of;
use crate::denial::DenyReason;
use crate::split::chains;
use crate::split::law_nothing_else_cuts;
use crate::split::law_operators_cut;
use crate::split::law_segments_of_chain;
use crate::split::segments_of;
use crate::split::split_compound_command;
use crate::text::law_blank_text_is_trimmed_away;
use crate::text::trimmed;
use crate::text::whitespace;
use crate::validator::execute_validator;
use crate::validator::passes;
use regex::Regex;
use vstd::prelude::*;
use vstd::string::*;

verus! {

// ---------------------------------------------------------------------------
// Regular expressions
// ---------------------------------------------------------------------------
/// `regex::Regex`: a regular expression, compiled.
#[verifier::external_type_specification]
#[verifier::external_body]
pub struct ExRegex(regex::Regex);

/// `regex::Error`: why a regular expression could not be compiled.
#[verifier::external_type_specification]
#[verifier::external_body]
pub struct ExRegexError(regex::Error);

/// The texts in which a compiled regular expression is found. Nothing else of a
/// `Regex` is used.
pub uninterp spec fn texts_found(regex: Regex) -> Set<Seq<char>>;

/// The message of an error. Nothing else of a `regex::Error` is used.
pub uninterp spec fn error_text(error: regex::Error) -> Seq<char>;

/// What `regex::Regex::new` makes of the text of a regular expression: the texts in
/// which the result is found, or the message of the error where it cannot be compiled.
pub uninterp spec fn regex_outcome(pattern: Seq<char>) -> Result<Set<Seq<char>>, Seq<char>>;

/// `regex::Regex::new` depends on the text of the regular expression alone: whether
/// it fails, with which message, and in which texts the `Regex` that it returns is
/// found. Expressions that compile to too many bytes of memory fail as well, so right
/// at that limit the outcome is the one for the word width of the machine.
pub assume_specification[ regex::Regex::new ](re: &str) -> (r: Result<Regex, regex::Error>)
    ensures
        match r {
            Ok(regex) => regex_outcome(re@) == Ok::<Set<Seq<char>>, Seq<char>>(
                texts_found(regex),
            ),
            Err(error) => regex_outcome(re@) == Err::<Set<Seq<char>>, Seq<char>>(
                error_text(error),
            ),
        },
;

/// `to_string` of a `regex::Error` gives its message, which depends on the error alone.
#[verifier::external_body]
fn error_message(error: &regex::Error) -> (r: String)
    ensures
        r@ == error_text(*error),
{
    error.to_string()
}

/// `regex::Regex::is_match` tells whether the `Regex` is found in the text.
pub assume_specification[ regex::Regex::is_match ](regex: &Regex, haystack: &str) -> (r: bool)
    ensures
        r == texts_found(*regex).contains(haystack@),
;

// ---------------------------------------------------------------------------
// Compiling a configuration
// ---------------------------------------------------------------------------
/// A pattern that is ready to be matched.
#[derive(Debug)]
pub struct CompiledPattern {
    pub id: String,
    pub priority: u32,
    pub regex: Regex,
    pub message: String,
    pub validator: Option<ValidatorConfig>,
}

/// An enabled pattern whose regular expression could not be compiled, and why.
#[derive(Debug)]
pub struct RejectedPattern {
    pub id: String,
    pub error: String,
}

/// `def` takes part in the evaluation: it is enabled and can be compiled.
pub open spec fn usable(def: PatternDefinition) -> bool {
    def.enabled && regex_outcome(def.matcher.text()) is Ok
}

/// `def` is enabled, but its regular expression cannot be compiled.
pub open spec fn rejected(def: PatternDefinition) -> bool {
    def.enabled && regex_outcome(def.matcher.text()) is Err
}

/// `compiled` is `def`, compiled.
pub open spec fn compiled_from(compiled: CompiledPattern, def: PatternDefinition) -> bool {
    &&& compiled.id == def.id
    &&& compiled.priority == def.priority
    &&& compiled.message == def.message
    &&& compiled.validator == def.validator
    &&& regex_outcome(def.matcher.text()) == Ok::<Set<Seq<char>>, Seq<char>>(
        texts_found(compiled.regex),
    )
}

/// Pattern `i` is checked ahead of pattern `j`: it has the higher priority, or the
/// same one and stands first in the configuration.
pub open spec fn precedes(defs: Seq<PatternDefinition>, i: int, j: int) -> bool {
    defs[i].priority > defs[j].priority || (defs[i].priority == defs[j].priority && i < j)
}

/// `order` lists the usable patterns of `defs` in the order in which they are checked.
pub open spec fn ranking(defs: Seq<PatternDefinition>, order: Seq<int>) -> bool {
    &&& forall|k: int|
        0 <= k < order.len() ==> 0 <= #[trigger] order[k] < defs.len() && usable(defs[order[k]])
    &&& forall|i: int| 0 <= i < defs.len() && usable(#[trigger] defs[i]) ==> order.contains(i)
    &&& forall|k: int, l: int|
        0 <= k < l < order.len() ==> precedes(defs, #[trigger] order[k], #[trigger] order[l])
}

/// `compiled` holds the usable patterns of `defs`, compiled, in the order in which
/// they are checked.
pub open spec fn compilation(
    defs: Seq<PatternDefinition>,
    compiled: Seq<CompiledPattern>,
) -> bool {
    exists|order: Seq<int>|
        {
            &&& #[trigger] ranking(defs, order)
            &&& compiled.len() == order.len()
            &&& forall|k: int|
                0 <= k < order.len() ==> compiled_from(#[trigger] compiled[k], defs[order[k]])
        }
}

/// The patterns of `defs` that cannot be compiled: their ids, and the messages of the
/// errors.
pub open spec fn rejections(defs: Seq<PatternDefinition>) -> Seq<(Seq<char>, Seq<char>)> {
    defs.filter(|d: PatternDefinition| rejected(d)).map_values(
        |d: PatternDefinition| (d.id@, regex_outcome(d.matcher.text())->Err_0),
    )
}

impl RejectedPattern {
    /// The two texts of a rejection.
    pub open spec fn texts(self) -> (Seq<char>, Seq<char>) {
        (self.id@, self.error@)
    }
}

impl GuardConfig {
    /// Compiles the enabled patterns, the highest priority first, and reports the
    /// ones that could not be compiled.
    pub fn compile_with_rejects(self) -> (r: (Vec<CompiledPattern>, Vec<RejectedPattern>))
        ensures
            compilation(self.patterns@, r.0@),
            r.1@.map_values(|p: RejectedPattern| p.texts()) == rejections(self.patterns@),
    {
        let ghost defs = self.patterns@;
        let mut compiled: Vec<CompiledPattern> = Vec::new();
        let mut rejects: Vec<RejectedPattern> = Vec::new();
        let ghost mut order: Seq<int> = Seq::empty();
        let ghost is_rejected = |d: PatternDefinition| rejected(d);
        let ghost told = |p: RejectedPattern| p.texts();
        let ghost owed = |d: PatternDefinition|
            (d.id@, regex_outcome(d.matcher.text())->Err_0);
        assert(rejects@.map_values(told) == defs.take(0).filter(is_rejected).map_values(owed)) by {
            reveal(Seq::filter);
        }
        for def in it: self.patterns
            invariant
                it.seq() == defs,
                told == (|p: RejectedPattern| p.texts()),
                owed == (|d: PatternDefinition|
                    (d.id@, regex_outcome(d.matcher.text())->Err_0)),
                is_rejected == (|d: PatternDefinition| rejected(d)),
                order.len() == compiled@.len(),
                forall|k: int|
                    0 <= k < order.len() ==> 0 <= #[trigger] order[k] < it.index() && usable(
                        defs[order[k]],
                    ) && compiled_from(compiled@[k], defs[order[k]]),
                forall|i: int|
                    0 <= i < it.index() && usable(#[trigger] defs[i]) ==> order.contains(i),
                forall|k: int, l: int|
                    0 <= k < l < order.len() ==> precedes(
                        defs,
                        #[trigger] order[k],
                        #[trigger] order[l],
                    ),
                rejects@.map_values(told) == defs.take(it.index()).filter(is_rejected).map_values(
                    owed,
                ),
        {
            let ghost i = it.index();
            assert(def == defs[i]);
            proof {
                reveal(Seq::filter);
                assert(defs.take(i + 1).drop_last() == defs.take(i));
                assert(defs.take(i + 1).last() == defs[i]);
            }
            if def.enabled {
                let MatcherConfig::Regex { pattern } = &def.matcher;
                match Regex::new(pattern.as_str()) {
                    Ok(regex) => {
                        let n: usize = compiled.len();
                        let mut pos: usize = 0;
                        while pos < n && compiled[pos].priority >= def.priority
                            invariant
                                n == compiled@.len(),
                                pos <= n,
                                forall|k: int|
                                    0 <= k < pos ==> (#[trigger] compiled@[k]).priority
                                        >= def.priority,
                            decreases n - pos,
                        {
                            pos += 1;
                        }
                        let ghost before = compiled@;
                        let ghost order_before = order;
                        compiled.insert(
                            pos,
                            CompiledPattern {
                                id: def.id,
                                priority: def.priority,
                                regex,
                                message: def.message,
                                validator: def.validator,
                            },
                        );
                        proof {
                            order = order_before.insert(pos as int, i);
                            assert(order[pos as int] == i);
                            assert forall|k: int, l: int| 0 <= k < l < order.len() implies precedes(
                                defs,
                                #[trigger] order[k],
                                #[trigger] order[l],
                            ) by {
                                let k0 = if k < pos { k } else { k - 1 };
                                let l0 = if l < pos { l } else { l - 1 };
                                if k != pos {
                                    assert(order[k] == order_before[k0]);
                                    assert(compiled_from(before[k0], defs[order_before[k0]]));
                                }
                                if l != pos {
                                    assert(order[l] == order_before[l0]);
                                    assert(compiled_from(before[l0], defs[order_before[l0]]));
                                }
                                if k == pos {
                                    assert(order_before[pos as int] < i);
                                    assert(compiled_from(
                                        before[pos as int],
                                        defs[order_before[pos as int]],
                                    ));
                                }
                            }
                            assert forall|j: int|
                                0 <= j < i + 1 && usable(#[trigger] defs[j]) implies order.contains(
                                j,
                            ) by {
                                if j < i {
                                    let k = order_before.index_of(j);
                                    if k < pos {
                                        assert(order[k] == j);
                                    } else {
                                        assert(order[k + 1] == j);
                                    }
                                }
                            }
                        }
                    },
                    Err(error) => {
                        let ghost before = rejects@;
                        rejects.push(RejectedPattern { id: def.id, error: error_message(&error) });
                        proof {
                            let kept = defs.take(i).filter(is_rejected);
                            assert(defs.take(i + 1).filter(is_rejected) == kept.push(defs[i]));
                            assert(rejects@.map_values(told) == before.map_values(told).push(
                                owed(defs[i]),
                            ));
                            assert(kept.push(defs[i]).map_values(owed) == kept.map_values(
                                owed,
                            ).push(owed(defs[i])));
                        }
                    },
                }
            }
        }
        assert(defs.take(defs.len() as int) == defs);
        assert(ranking(defs, order));
        (compiled, rejects)
    }

    /// Compiles the enabled patterns, the highest priority first. Patterns that
    /// cannot be compiled are left out.
    pub fn compile_patterns(self) -> (r: Vec<CompiledPattern>)
        ensures
            compilation(self.patterns@, r@),
    {
        let (compiled, _) = self.compile_with_rejects();
        compiled
    }
}

// ---------------------------------------------------------------------------
// Evaluating commands
// ---------------------------------------------------------------------------
/// `pattern` is found in `segment`, and its validator passes where it has one.
pub open spec fn triggers(pattern: CompiledPattern, segment: Seq<char>) -> bool {
    &&& texts_found(pattern.regex).contains(segment)
    &&& pattern.validator matches Some(v) ==> passes(v, segment)
}

/// The message of the first of `patterns` that `segment` triggers.
pub open spec fn segment_verdict(
    patterns: Seq<CompiledPattern>,
    segment: Seq<char>,
) -> Option<Seq<char>>
    decreases patterns.len(),
{
    if patterns.len() == 0 {
        None
    } else if triggers(patterns.first(), segment) {
        Some(patterns.first().message@)
    } else {
        segment_verdict(patterns.skip(1), segment)
    }
}

/// The verdict on the first of `segments` that is not empty and has one.
pub open spec fn first_verdict(
    patterns: Seq<CompiledPattern>,
    segments: Seq<Seq<char>>,
) -> Option<Seq<char>>
    decreases segments.len(),
{
    if segments.len() == 0 {
        None
    } else if segments.first().len() > 0 && segment_verdict(patterns, segments.first()) is Some {
        segment_verdict(patterns, segments.first())
    } else {
        first_verdict(patterns, segments.skip(1))
    }
}

/// The verdict on a command: the one on its first segment that has one.
pub open spec fn command_verdict(
    patterns: Seq<CompiledPattern>,
    command: Seq<char>,
) -> Option<Seq<char>> {
    first_verdict(patterns, segments_of(command))
}

/// Tells whether `segment` triggers `pattern`.
pub fn is_triggered(pattern: &CompiledPattern, segment: &str) -> (r: bool)
    ensures
        r == triggers(*pattern, segment@),
{
    if !pattern.regex.is_match(segment) {
        return false;
    }
    match &pattern.validator {
        Some(validator) => execute_validator(segment, validator),
        None => true,
    }
}

/// Pattern `k` is the first one that `segment` triggers.
pub open spec fn first_triggered(
    patterns: Seq<CompiledPattern>,
    segment: Seq<char>,
    k: int,
) -> bool {
    &&& 0 <= k < patterns.len()
    &&& triggers(patterns[k], segment)
    &&& forall|j: int| 0 <= j < k ==> !triggers(#[trigger] patterns[j], segment)
}

/// Finds the first pattern that `segment` triggers.
pub fn find_triggered(segment: &str, patterns: &[CompiledPattern]) -> (r: Option<usize>)
    ensures
        match r {
            Some(k) => first_triggered(patterns@, segment@, k as int) && segment_verdict(
                patterns@,
                segment@,
            ) == Some(patterns@[k as int].message@),
            None => segment_verdict(patterns@, segment@) is None,
        },
{
    let n: usize = patterns.len();
    let mut i: usize = 0;
    assert(patterns@.skip(0) == patterns@);
    while i < n
        invariant
            n == patterns@.len(),
            i <= n,
            forall|j: int| 0 <= j < i ==> !triggers(#[trigger] patterns@[j], segment@),
            segment_verdict(patterns@, segment@) == segment_verdict(
                patterns@.skip(i as int),
                segment@,
            ),
        decreases n - i,
    {
        assert(patterns@.skip(i as int).first() == patterns@[i as int]);
        assert(patterns@.skip(i as int).skip(1) == patterns@.skip(i + 1));
        if is_triggered(&patterns[i], segment) {
            return Some(i);
        }
        i += 1;
    }
    None
}

/// Evaluates one command segment.
pub fn evaluate_segment(segment: &str, patterns: &[CompiledPattern]) -> (r: Option<DenyReason>)
    ensures
        reason_of(r) == segment_verdict(patterns@, segment@),
{
    match find_triggered(segment, patterns) {
        Some(k) => Some(DenyReason { reason: patterns[k].message.clone() }),
        None => None,
    }
}

/// Segment `i` is the first one that is denied, and pattern `k` the first one that it
/// triggers.
pub open spec fn first_denied(
    patterns: Seq<CompiledPattern>,
    segments: Seq<Seq<char>>,
    i: int,
    k: int,
) -> bool {
    &&& 0 <= i < segments.len()
    &&& segments[i].len() > 0
    &&& first_triggered(patterns, segments[i], k)
    &&& forall|j: int|
        0 <= j < i ==> (#[trigger] segments[j]).len() == 0 || segment_verdict(
            patterns,
            segments[j],
        ) is None
}

/// Finds the first segment of a command that is denied, and the first pattern that it
/// triggers.
pub fn find_denied<'a>(command: &'a str, patterns: &[CompiledPattern]) -> (r: Option<
    (&'a str, usize),
>)
    ensures
        match r {
            Some((segment, k)) => {
                &&& exists|i: int| #[trigger]
                    first_denied(patterns@, segments_of(command@), i, k as int)
                        && segments_of(command@)[i] == segment@
                &&& k < patterns@.len()
                &&& command_verdict(patterns@, command@) == Some(patterns@[k as int].message@)
            },
            None => command_verdict(patterns@, command@) is None,
        },
{
    let segments = split_compound_command(command);
    let ghost all = segments.deep_view();
    let n: usize = segments.len();
    let mut i: usize = 0;
    assert(all.skip(0) == all);
    while i < n
        invariant
            all == segments.deep_view(),
            all == segments_of(command@),
            n == segments@.len(),
            i <= n,
            forall|j: int|
                0 <= j < i ==> (#[trigger] all[j]).len() == 0 || segment_verdict(
                    patterns@,
                    all[j],
                ) is None,
            first_verdict(patterns@, all) == first_verdict(patterns@, all.skip(i as int)),
        decreases n - i,
    {
        let segment: &'a str = segments[i];
        assert(all[i as int] == segment@);
        assert(all.skip(i as int).first() == segment@);
        assert(all.skip(i as int).skip(1) == all.skip(i + 1));
        if !segment.is_empty() {
            if let Some(k) = find_triggered(segment, patterns) {
                assert(first_denied(patterns@, all, i as int, k as int));
                return Some((segment, k));
            }
        }
        i += 1;
    }
    None
}

/// Evaluates a command: denies it if one of its segments is denied.
pub fn evaluate_command(command: &str, patterns: &[CompiledPattern]) -> (r: Option<DenyReason>)
    ensures
        reason_of(r) == command_verdict(patterns@, command@),
{
    match find_denied(command, patterns) {
        Some((_, k)) => Some(DenyReason { reason: patterns[k].message.clone() }),
        None => None,
    }
}

// ---------------------------------------------------------------------------
// Laws
// ---------------------------------------------------------------------------
/// A segment is denied exactly if it triggers one of the patterns.
pub proof fn law_segment_denied_iff_triggering(patterns: Seq<CompiledPattern>, segment: Seq<char>)
    ensures
        segment_verdict(patterns, segment) is Some <==> exists|k: int|
            0 <= k < patterns.len() && triggers(#[trigger] patterns[k], segment),
{
    law_first_triggered_decides(patterns, segment);
}

/// Where a segment is denied, the message is that of the first pattern that it triggers.
pub proof fn law_first_triggered_decides(patterns: Seq<CompiledPattern>, segment: Seq<char>)
    ensures
        match segment_verdict(patterns, segment) {
            Some(message) => exists|k: int| #[trigger]
                first_triggered(patterns, segment, k) && message == patterns[k].message@,
            None => forall|k: int|
                0 <= k < patterns.len() ==> !triggers(#[trigger] patterns[k], segment),
        },
    decreases patterns.len(),
{
    if patterns.len() > 0 && triggers(patterns.first(), segment) {
        assert(first_triggered(patterns, segment, 0));
    } else if patterns.len() > 0 {
        let rest = patterns.skip(1);
        law_first_triggered_decides(rest, segment);
        match segment_verdict(patterns, segment) {
            Some(message) => {
                let k = choose|k: int| #[trigger]
                    first_triggered(rest, segment, k) && message == rest[k].message@;
                assert(patterns[k + 1] == rest[k]);
                assert forall|j: int| 0 <= j < k + 1 implies !triggers(
                    #[trigger] patterns[j],
                    segment,
                ) by {
                    if j > 0 {
                        assert(patterns[j] == rest[j - 1]);
                    }
                }
                assert(first_triggered(patterns, segment, k + 1));
            },
            None => {
                assert forall|k: int| 0 <= k < patterns.len() implies !triggers(
                    #[trigger] patterns[k],
                    segment,
                ) by {
                    if k > 0 {
                        assert(patterns[k] == rest[k - 1]);
                    }
                }
            },
        }
    }
}

/// `def` would be triggered by `segment` if it were compiled.
pub open spec fn definition_triggers(def: PatternDefinition, segment: Seq<char>) -> bool {
    &&& usable(def)
    &&& regex_outcome(def.matcher.text())->Ok_0.contains(segment)
    &&& def.validator matches Some(v) ==> passes(v, segment)
}

/// Pattern `i` decides on `segment`: it is triggered, and precedes every other one that is.
pub open spec fn decides(defs: Seq<PatternDefinition>, segment: Seq<char>, i: int) -> bool {
    &&& 0 <= i < defs.len()
    &&& definition_triggers(defs[i], segment)
    &&& forall|j: int|
        0 <= j < defs.len() && j != i && definition_triggers(#[trigger] defs[j], segment)
            ==> precedes(defs, i, j)
}

/// What the compiled patterns of a configuration say of a segment. It is denied
/// exactly if an enabled pattern is triggered; disabled ones and ones that cannot be
/// compiled have no part in it. The message is that of the triggered pattern with
/// the highest priority, the first one of these in the configuration.
pub proof fn law_configuration_decides(
    defs: Seq<PatternDefinition>,
    compiled: Seq<CompiledPattern>,
    segment: Seq<char>,
)
    requires
        compilation(defs, compiled),
    ensures
        match segment_verdict(compiled, segment) {
            Some(message) => exists|i: int| #[trigger]
                decides(defs, segment, i) && message == defs[i].message@,
            None => forall|i: int|
                0 <= i < defs.len() ==> !definition_triggers(#[trigger] defs[i], segment),
        },
{
    let order = choose|order: Seq<int>|
        {
            &&& #[trigger] ranking(defs, order)
            &&& compiled.len() == order.len()
            &&& forall|k: int|
                0 <= k < order.len() ==> compiled_from(#[trigger] compiled[k], defs[order[k]])
        };
    law_first_triggered_decides(compiled, segment);
    assert forall|k: int| 0 <= k < order.len() implies triggers(#[trigger] compiled[k], segment)
        == definition_triggers(defs[order[k]], segment) by {
        assert(compiled_from(compiled[k], defs[order[k]]));
    }
    match segment_verdict(compiled, segment) {
        Some(message) => {
            let k = choose|k: int| #[trigger]
                first_triggered(compiled, segment, k) && message == compiled[k].message@;
            let i = order[k];
            assert(compiled_from(compiled[k], defs[i]));
            assert forall|j: int|
                0 <= j < defs.len() && j != i && definition_triggers(
                    #[trigger] defs[j],
                    segment,
                ) implies precedes(defs, i, j) by {
                let l = order.index_of(j);
                assert(order[l] == j);
                assert(triggers(compiled[l], segment));
                assert(k < l);
            }
            assert(decides(defs, segment, i));
        },
        None => {
            assert forall|i: int| 0 <= i < defs.len() implies !definition_triggers(
                #[trigger] defs[i],
                segment,
            ) by {
                if definition_triggers(defs[i], segment) {
                    let l = order.index_of(i);
                    assert(order[l] == i);
                    assert(triggers(compiled[l], segment));
                }
            }
        },
    }
}

/// The priorities of compiled patterns never rise.
pub proof fn law_compiled_by_priority(
    defs: Seq<PatternDefinition>,
    compiled: Seq<CompiledPattern>,
)
    requires
        compilation(defs, compiled),
    ensures
        forall|k: int, l: int|
            0 <= k < l < compiled.len() ==> (#[trigger] compiled[k]).priority >= (
            #[trigger] compiled[l]).priority,
{
    let order = choose|order: Seq<int>|
        {
            &&& #[trigger] ranking(defs, order)
            &&& compiled.len() == order.len()
            &&& forall|k: int|
                0 <= k < order.len() ==> compiled_from(#[trigger] compiled[k], defs[order[k]])
        };
    assert forall|k: int, l: int| 0 <= k < l < compiled.len() implies (
    #[trigger] compiled[k]).priority >= (#[trigger] compiled[l]).priority by {
        assert(precedes(defs, order[k], order[l]));
    }
}

/// A command is denied exactly if one of its segments is, and is not empty.
pub proof fn law_command_denied_iff_a_segment_is(
    patterns: Seq<CompiledPattern>,
    command: Seq<char>,
)
    ensures
        command_verdict(patterns, command) is Some <==> exists|k: int|
            {
                &&& 0 <= k < segments_of(command).len()
                &&& (#[trigger] segments_of(command)[k]).len() > 0
                &&& segment_verdict(patterns, segments_of(command)[k]) is Some
            },
{
    lemma_first_verdict(patterns, segments_of(command));
}

proof fn lemma_first_verdict(patterns: Seq<CompiledPattern>, segments: Seq<Seq<char>>)
    ensures
        first_verdict(patterns, segments) is Some <==> exists|k: int|
            {
                &&& 0 <= k < segments.len()
                &&& (#[trigger] segments[k]).len() > 0
                &&& segment_verdict(patterns, segments[k]) is Some
            },
    decreases segments.len(),
{
    if segments.len() > 0 {
        let rest = segments.skip(1);
        lemma_first_verdict(patterns, rest);
        assert(forall|k: int| 0 <= k < rest.len() ==> rest[k] == segments[k + 1]);
        if segments.first().len() > 0 && segment_verdict(patterns, segments.first()) is Some {
            assert(segments[0] == segments.first());
        } else if first_verdict(patterns, rest) is Some {
            let k = choose|k: int|
                {
                    &&& 0 <= k < rest.len()
                    &&& (#[trigger] rest[k]).len() > 0
                    &&& segment_verdict(patterns, rest[k]) is Some
                };
            assert(segments[k + 1] == rest[k]);
        } else {
            assert forall|k: int| 0 <= k < segments.len() implies !((
            #[trigger] segments[k]).len() > 0 && segment_verdict(patterns, segments[k]) is Some) by {
                if k > 0 {
                    assert(segments[k] == rest[k - 1]);
                }
            }
        }
    }
}

proof fn lemma_first_verdict_concat(
    patterns: Seq<CompiledPattern>,
    a: Seq<Seq<char>>,
    b: Seq<Seq<char>>,
)
    ensures
        first_verdict(patterns, a + b) == (if first_verdict(patterns, a) is Some {
            first_verdict(patterns, a)
        } else {
            first_verdict(patterns, b)
        }),
    decreases a.len(),
{
    if a.len() == 0 {
        assert(a + b == b);
    } else {
        assert((a + b).first() == a.first());
        assert((a + b).skip(1) == a.skip(1) + b);
        lemma_first_verdict_concat(patterns, a.skip(1), b);
    }
}

/// The verdict on two commands that a delimiter chains is the one on the first, or
/// the one on the second where the first is allowed. So nothing is hidden by being
/// chained behind, or in front of, a command that is allowed.
pub proof fn law_chain_verdict(
    patterns: Seq<CompiledPattern>,
    a: Seq<char>,
    op: Seq<char>,
    b: Seq<char>,
)
    requires
        chains(a, op, b),
    ensures
        command_verdict(patterns, a + op + b) == (if command_verdict(patterns, a) is Some {
            command_verdict(patterns, a)
        } else {
            command_verdict(patterns, b)
        }),
{
    law_segments_of_chain(a, op, b);
    lemma_first_verdict_concat(patterns, segments_of(a), segments_of(b));
}

/// With no patterns, everything is allowed.
pub proof fn law_no_patterns_allow_everything(command: Seq<char>)
    ensures
        command_verdict(Seq::empty(), command) is None,
{
    lemma_first_verdict(Seq::empty(), segments_of(command));
}

/// What is said of a segment, pattern by pattern: the first one decides, if it is found
/// in the segment and its validator, where it has one, passes; the others do otherwise.
pub proof fn law_patterns_decide_one_by_one(
    first: CompiledPattern,
    patterns: Seq<CompiledPattern>,
    segment: Seq<char>,
)
    ensures
        segment_verdict(Seq::empty(), segment) is None,
        segment_verdict(seq![first] + patterns, segment) == (if texts_found(first.regex).contains(
            segment,
        ) && (first.validator is Some ==> passes(first.validator->0, segment)) {
            Some(first.message@)
        } else {
            segment_verdict(patterns, segment)
        }),
        triggers(first, segment) <==> texts_found(first.regex).contains(segment) && (
        first.validator is Some ==> passes(first.validator->0, segment)),
{
    let all = seq![first] + patterns;
    assert(all.first() == first);
    assert(all.skip(1) == patterns);
}

/// A pattern is the first that is triggered exactly if it is triggered and none in front
/// of it is; a segment is the first that is denied exactly if it is denied and none in
/// front of it is.
pub proof fn law_first_ones(
    patterns: Seq<CompiledPattern>,
    segments: Seq<Seq<char>>,
    segment: Seq<char>,
    i: int,
    k: int,
)
    ensures
        first_triggered(patterns, segment, k) <==> 0 <= k < patterns.len() && triggers(
            patterns[k],
            segment,
        ) && segment_verdict(patterns.take(k), segment) is None,
        first_denied(patterns, segments, i, k) <==> 0 <= i < segments.len() && segments[i].len()
            > 0 && first_triggered(patterns, segments[i], k) && forall|j: int|
            0 <= j < i && (#[trigger] segments[j]).len() > 0 ==> segment_verdict(
                patterns,
                segments[j],
            ) is None,
{
    if 0 <= k < patterns.len() {
        let ahead = patterns.take(k);
        law_segment_denied_iff_triggering(ahead, segment);
        assert forall|j: int| 0 <= j < k implies ahead[j] == #[trigger] patterns[j] by {}
        if first_triggered(patterns, segment, k) && segment_verdict(ahead, segment) is Some {
            let j = choose|j: int| 0 <= j < ahead.len() && triggers(#[trigger] ahead[j], segment);
            assert(triggers(patterns[j], segment));
        }
        if segment_verdict(ahead, segment) is None {
            assert forall|j: int| 0 <= j < k implies !triggers(
                #[trigger] patterns[j],
                segment,
            ) by {
                assert(!triggers(ahead[j], segment));
            }
        }
    }
}

/// What is said of a command that nothing chains: what is said of it as a segment,
/// without the whitespace at its ends; and nothing of a blank one.
pub proof fn law_single_command(patterns: Seq<CompiledPattern>, command: Seq<char>)
    requires
        forall|i: int| 0 <= i < command.len() ==> #[trigger] command[i] != ';' && command[i] != '|',
        forall|i: int, j: int|
            0 <= i && j == i + 1 && j < command.len() ==> !(#[trigger] command[i] == '&'
                && #[trigger] command[j] == '&'),
    ensures
        (forall|i: int| 0 <= i < command.len() ==> whitespace(#[trigger] command[i]))
            ==> command_verdict(patterns, command) is None,
        !(forall|i: int| 0 <= i < command.len() ==> whitespace(#[trigger] command[i]))
            ==> command_verdict(patterns, command) == segment_verdict(patterns, trimmed(command)),
{
    law_nothing_else_cuts(command);
    law_blank_text_is_trimmed_away(command);
    let all = seq![trimmed(command)];
    assert(all.first() == trimmed(command));
    assert(all.skip(1) == Seq::<Seq<char>>::empty());
    assert(first_verdict(patterns, all.skip(1)) is None);
}

/// What is said of a chain: what is said of its first part, or else what is said of the
/// second one, whichever of the operators chains them.
pub proof fn law_operators_hide_nothing(
    patterns: Seq<CompiledPattern>,
    a: Seq<char>,
    b: Seq<char>,
)
    ensures
        ({
            let verdict = if command_verdict(patterns, a) is Some {
                command_verdict(patterns, a)
            } else {
                command_verdict(patterns, b)
            };
            &&& command_verdict(patterns, a + seq![';'] + b) == verdict
            &&& !(a.len() > 0 && a[a.len() - 1] == '&') ==> command_verdict(
                patterns,
                a + seq!['&', '&'] + b,
            ) == verdict
            &&& !(a.len() > 0 && a[a.len() - 1] == '|') ==> command_verdict(
                patterns,
                a + seq!['|', '|'] + b,
            ) == verdict
            &&& !(a.len() > 0 && a[a.len() - 1] == '|') && !(b.len() > 0 && b[0] == '|')
                ==> command_verdict(patterns, a + seq!['|'] + b) == verdict
        }),
{
    law_operators_cut(a, b);
    lemma_first_verdict_concat(patterns, segments_of(a), segments_of(b));
}

/// What compiling a configuration gives: every enabled pattern that compiles, once,
/// with its own fields, found in the texts that its expression is found in. The higher
/// priority comes first, and patterns of one priority keep their order. The result says
/// which definition each compiled pattern is made of.
pub proof fn law_compilation(
    defs: Seq<PatternDefinition>,
    compiled: Seq<CompiledPattern>,
) -> (order: Seq<int>)
    requires
        compilation(defs, compiled),
    ensures
        compiled.len() == order.len(),
        forall|k: int|
            0 <= k < order.len() ==> {
                &&& 0 <= #[trigger] order[k] < defs.len()
                &&& defs[order[k]].enabled
                &&& compiled[k].id == defs[order[k]].id
                &&& compiled[k].priority == defs[order[k]].priority
                &&& compiled[k].message == defs[order[k]].message
                &&& compiled[k].validator == defs[order[k]].validator
                &&& match defs[order[k]].matcher {
                    MatcherConfig::Regex { pattern } => regex_outcome(pattern@) == Ok::<
                        Set<Seq<char>>,
                        Seq<char>,
                    >(texts_found(compiled[k].regex)),
                }
            },
        forall|i: int|
            0 <= i < defs.len() && (#[trigger] defs[i]).enabled && (match defs[i].matcher {
                MatcherConfig::Regex { pattern } => regex_outcome(pattern@) is Ok,
            }) ==> order.contains(i),
        forall|k: int, l: int|
            0 <= k < l < order.len() ==> {
                let (x, y) = (#[trigger] order[k], #[trigger] order[l]);
                defs[x].priority > defs[y].priority || (defs[x].priority == defs[y].priority && x
                    < y)
            },
{
    let order = choose|order: Seq<int>|
        {
            &&& #[trigger] ranking(defs, order)
            &&& compiled.len() == order.len()
            &&& forall|k: int|
                0 <= k < order.len() ==> compiled_from(#[trigger] compiled[k], defs[order[k]])
        };
    assert forall|k: int| 0 <= k < order.len() implies {
        &&& 0 <= #[trigger] order[k] < defs.len()
        &&& defs[order[k]].enabled
        &&& compiled[k].id == defs[order[k]].id
        &&& compiled[k].priority == defs[order[k]].priority
        &&& compiled[k].message == defs[order[k]].message
        &&& compiled[k].validator == defs[order[k]].validator
        &&& match defs[order[k]].matcher {
            MatcherConfig::Regex { pattern } => regex_outcome(pattern@) == Ok::<
                Set<Seq<char>>,
                Seq<char>,
            >(texts_found(compiled[k].regex)),
        }
    } by {
        assert(compiled_from(compiled[k], defs[order[k]]));
        assert(usable(defs[order[k]]));
    }
    assert forall|i: int|
        0 <= i < defs.len() && (#[trigger] defs[i]).enabled && (match defs[i].matcher {
            MatcherConfig::Regex { pattern } => regex_outcome(pattern@) is Ok,
        }) implies order.contains(i) by {
        assert(usable(defs[i]));
    }
    assert forall|k: int, l: int| 0 <= k < l < order.len() implies {
        let (x, y) = (#[trigger] order[k], #[trigger] order[l]);
        defs[x].priority > defs[y].priority || (defs[x].priority == defs[y].priority && x < y)
    } by {
        assert(precedes(defs, order[k], order[l]));
    }
    order
}

/// What is reported of a configuration, pattern by pattern: the id of each enabled one
/// that does not compile, with the message of the error, and nothing else.
pub proof fn law_rejections(defs: Seq<PatternDefinition>, def: PatternDefinition)
    ensures
        rejections(Seq::empty()) == Seq::<(Seq<char>, Seq<char>)>::empty(),
        rejections(defs.push(def)) == (match def.matcher {
            MatcherConfig::Regex { pattern } => if def.enabled && regex_outcome(
                pattern@,
            ) is Err {
                rejections(defs).push((def.id@, regex_outcome(pattern@)->Err_0))
            } else {
                rejections(defs)
            },
        }),
{
    let is_rejected = |d: PatternDefinition| rejected(d);
    let owed = |d: PatternDefinition| (d.id@, regex_outcome(d.matcher.text())->Err_0);
    let all = defs.push(def);
    reveal(Seq::filter);
    assert(all.drop_last() == defs);
    assert(all.last() == def);
    assert(rejections(Seq::empty()) =~= Seq::<(Seq<char>, Seq<char>)>::empty());
    let kept = defs.filter(is_rejected);
    if rejected(def) {
        assert(all.filter(is_rejected) == kept.push(def));
        assert(kept.push(def).map_values(owed) =~= kept.map_values(owed).push(owed(def)));
    } else {
        assert(all.filter(is_rejected) == kept);
    }
}

/// A rejection is told by its id and by the message of its error.
pub proof fn law_rejection_texts(rejection: RejectedPattern)
    ensures
        rejection.texts().0 == rejection.id@,
        rejection.texts().1 == rejection.error@,
{
}

} // verus!
