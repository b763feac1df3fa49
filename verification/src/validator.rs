//! Running the validators of a pattern on a command segment.
use crate::config::ValidatorConfig;
use crate::text::chars_of;
use crate::text::clean_field;
use crate::text::contains_text;
use crate::text::fields;
use crate::text::fields_of;
use crate::text::law_trailing_copies_are_taken_off;
use crate::text::lemma_fields_are_clean;
use crate::text::lemma_fields_at_separator;
use crate::text::occurs_in;
use crate::text::same_text;
use crate::text::trim_end_char;
use crate::text::whitespace;
use crate::text::without_trailing;
use crate::text::Separator;
use vstd::prelude::*;
use vstd::string::*;

verus! {

/// The words of a segment.
pub open spec fn words_of(segment: Seq<char>) -> Seq<Seq<char>> {
    fields_of(segment, Separator::Whitespace)
}

/// The texts of a list of strings.
pub open spec fn texts(list: Seq<String>) -> Seq<Seq<char>> {
    list.map_values(|s: String| s@)
}

/// `pos` is where `command` stands first among `words`.
pub open spec fn first_at(words: Seq<Seq<char>>, command: Seq<char>, pos: int) -> bool {
    &&& 0 <= pos < words.len()
    &&& words[pos] == command
    &&& forall|k: int| 0 <= k < pos ==> #[trigger] words[k] != command
}

/// `word` is a cluster of short options: it starts with one `-`, not with two.
pub open spec fn short_options(word: Seq<char>) -> bool {
    &&& word.len() > 0
    &&& word[0] == '-'
    &&& !(word.len() > 1 && word[1] == '-')
}

/// `c` stands as a short option behind position `pos`.
pub open spec fn option_given(words: Seq<Seq<char>>, pos: int, c: char) -> bool {
    exists|k: int, j: int|
        {
            &&& pos < k < words.len()
            &&& short_options(words[k])
            &&& 1 <= j < words[k].len()
            &&& #[trigger] words[k][j] == c
        }
}

/// `command` is among the words of `segment`, and each letter of each of `flags`
/// is a short option behind its first occurrence.
pub open spec fn flags_present(
    segment: Seq<char>,
    command: Seq<char>,
    flags: Seq<Seq<char>>,
) -> bool {
    exists|pos: int|
        {
            &&& #[trigger] first_at(words_of(segment), command, pos)
            &&& forall|f: int, j: int|
                0 <= f < flags.len() && 0 <= j < flags[f].len() ==> option_given(
                    words_of(segment),
                    pos,
                    #[trigger] flags[f][j],
                )
        }
}

/// An argument as it is compared: without the slashes that it ends with, unless
/// it has nothing else.
pub open spec fn normalized_argument(word: Seq<char>) -> Seq<char> {
    if without_trailing(word, '/').len() == 0 {
        word
    } else {
        without_trailing(word, '/')
    }
}

/// `word` is an argument, no option, and it or its normalized form is one of `values`.
pub open spec fn argument_matches(word: Seq<char>, values: Seq<Seq<char>>) -> bool {
    &&& !(word.len() > 0 && word[0] == '-')
    &&& values.contains(word) || values.contains(normalized_argument(word))
}

/// `command` is among the words of `segment`, and an argument behind its first
/// occurrence is one of `values`.
pub open spec fn args_match_any(
    segment: Seq<char>,
    command: Seq<char>,
    values: Seq<Seq<char>>,
) -> bool {
    exists|pos: int, k: int|
        {
            &&& #[trigger] first_at(words_of(segment), command, pos)
            &&& pos < k < words_of(segment).len()
            &&& argument_matches(#[trigger] words_of(segment)[k], values)
        }
}

/// `segment` passes `validator`.
pub open spec fn passes(validator: ValidatorConfig, segment: Seq<char>) -> bool
    decreases validator,
{
    match validator {
        ValidatorConfig::NotContains { value } => !occurs_in(segment, value@),
        ValidatorConfig::FlagsPresent { command, flags } => flags_present(
            segment,
            command@,
            texts(flags@),
        ),
        ValidatorConfig::ArgsMatchAny { command, values } => args_match_any(
            segment,
            command@,
            texts(values@),
        ),
        ValidatorConfig::AllOf { validators } => forall|i: int|
            0 <= i < validators@.len() ==> passes(#[trigger] validators@[i], segment),
        ValidatorConfig::AnyOf { validators } => exists|i: int|
            0 <= i < validators@.len() && passes(#[trigger] validators@[i], segment),
        ValidatorConfig::Not { validator } => !passes(*validator, segment),
    }
}

// ---------------------------------------------------------------------------
// Laws
// ---------------------------------------------------------------------------
/// A copy of a validator passes the same segments.
pub proof fn law_copies_pass_the_same(a: ValidatorConfig, b: ValidatorConfig, segment: Seq<char>)
    requires
        a.alike(b),
    ensures
        passes(a, segment) == passes(b, segment),
    decreases a,
{
    match (a, b) {
        (
            ValidatorConfig::FlagsPresent { command: _, flags: x },
            ValidatorConfig::FlagsPresent { command: _, flags: y },
        ) => {
            lemma_texts(x);
            lemma_texts(y);
        },
        (
            ValidatorConfig::ArgsMatchAny { command: _, values: x },
            ValidatorConfig::ArgsMatchAny { command: _, values: y },
        ) => {
            lemma_texts(x);
            lemma_texts(y);
        },
        (
            ValidatorConfig::AllOf { validators: x },
            ValidatorConfig::AllOf { validators: y },
        ) => {
            lemma_all_of(x, segment);
            lemma_all_of(y, segment);
            assert forall|i: int|
                #![trigger x@[i]]
                #![trigger y@[i]]
                0 <= i < x@.len() implies passes(x@[i], segment) == passes(y@[i], segment) by {
                law_copies_pass_the_same(x@[i], y@[i], segment);
            }
        },
        (
            ValidatorConfig::AnyOf { validators: x },
            ValidatorConfig::AnyOf { validators: y },
        ) => {
            lemma_any_of(x, segment);
            lemma_any_of(y, segment);
            assert forall|i: int|
                #![trigger x@[i]]
                #![trigger y@[i]]
                0 <= i < x@.len() implies passes(x@[i], segment) == passes(y@[i], segment) by {
                law_copies_pass_the_same(x@[i], y@[i], segment);
            }
        },
        (ValidatorConfig::Not { validator: x }, ValidatorConfig::Not { validator: y }) => {
            law_copies_pass_the_same(*x, *y, segment);
        },
        _ => {},
    }
}

/// The texts of a list are its deep view.
pub proof fn lemma_texts(list: Vec<String>)
    ensures
        texts(list@) == list.deep_view(),
{
    assert(texts(list@) =~= list.deep_view());
}

/// Negating twice changes nothing.
pub proof fn law_not_twice(validator: ValidatorConfig, segment: Seq<char>)
    ensures
        passes(
            ValidatorConfig::Not {
                validator: Box::new(ValidatorConfig::Not { validator: Box::new(validator) }),
            },
            segment,
        ) == passes(validator, segment),
{
    reveal_with_fuel(passes, 3);
}

/// All of no validators pass, and not one of them does.
pub proof fn law_no_validators(validators: Vec<ValidatorConfig>, segment: Seq<char>)
    requires
        validators@.len() == 0,
    ensures
        passes(ValidatorConfig::AllOf { validators }, segment),
        !passes(ValidatorConfig::AnyOf { validators }, segment),
{
}

/// Not all of some validators pass exactly if one of their negations does; not one of
/// them passes exactly if all their negations do.
pub proof fn law_de_morgan(
    validators: Vec<ValidatorConfig>,
    negations: Vec<ValidatorConfig>,
    segment: Seq<char>,
)
    requires
        negations@.len() == validators@.len(),
        forall|i: int|
            0 <= i < validators@.len() ==> #[trigger] negations@[i] == (ValidatorConfig::Not {
                validator: Box::new(validators@[i]),
            }),
    ensures
        !passes(ValidatorConfig::AllOf { validators }, segment) == passes(
            ValidatorConfig::AnyOf { validators: negations },
            segment,
        ),
        !passes(ValidatorConfig::AnyOf { validators }, segment) == passes(
            ValidatorConfig::AllOf { validators: negations },
            segment,
        ),
{
    assert forall|i: int| 0 <= i < validators@.len() implies passes(
        #[trigger] negations@[i],
        segment,
    ) == !passes(validators@[i], segment) by {
        reveal_with_fuel(passes, 2);
    }
    lemma_all_of(validators, segment);
    lemma_any_of(validators, segment);
    lemma_all_of(negations, segment);
    lemma_any_of(negations, segment);
    assert forall|i: int| 0 <= i < validators@.len() implies passes(
        #[trigger] validators@[i],
        segment,
    ) == !passes(negations@[i], segment) by {
        assert(negations@[i] == (ValidatorConfig::Not { validator: Box::new(validators@[i]) }));
    }
}

proof fn lemma_all_of(validators: Vec<ValidatorConfig>, segment: Seq<char>)
    ensures
        passes(ValidatorConfig::AllOf { validators }, segment) == (forall|i: int|
            0 <= i < validators@.len() ==> passes(#[trigger] validators@[i], segment)),
{
    let v = ValidatorConfig::AllOf { validators };
    assert(v->AllOf_validators@ == validators@);
    assert(forall|i: int| v->AllOf_validators@[i] == #[trigger] validators@[i]);
}

proof fn lemma_any_of(validators: Vec<ValidatorConfig>, segment: Seq<char>)
    ensures
        passes(ValidatorConfig::AnyOf { validators }, segment) == (exists|i: int|
            0 <= i < validators@.len() && passes(#[trigger] validators@[i], segment)),
{
    let v = ValidatorConfig::AnyOf { validators };
    assert(v->AnyOf_validators@ == validators@);
    assert(forall|i: int| v->AnyOf_validators@[i] == #[trigger] validators@[i]);
}

/// What each validator says: a segment lacks a text, gives the flags, has one of the
/// arguments, passes all of some validators, or one of them, or does not pass one.
pub proof fn law_validators_say(
    text: String,
    list: Vec<String>,
    validators: Vec<ValidatorConfig>,
    inner: ValidatorConfig,
    segment: Seq<char>,
)
    ensures
        passes(ValidatorConfig::NotContains { value: text }, segment) == !occurs_in(segment, text@),
        passes(ValidatorConfig::FlagsPresent { command: text, flags: list }, segment)
            == flags_present(segment, text@, list.deep_view()),
        passes(ValidatorConfig::ArgsMatchAny { command: text, values: list }, segment)
            == args_match_any(segment, text@, list.deep_view()),
        passes(ValidatorConfig::AllOf { validators }, segment) == (forall|i: int|
            0 <= i < validators@.len() ==> passes(#[trigger] validators@[i], segment)),
        passes(ValidatorConfig::AnyOf { validators }, segment) == (exists|i: int|
            0 <= i < validators@.len() && passes(#[trigger] validators@[i], segment)),
        passes(ValidatorConfig::Not { validator: Box::new(inner) }, segment) == !passes(
            inner,
            segment,
        ),
{
    lemma_texts(list);
    lemma_all_of(validators, segment);
    lemma_any_of(validators, segment);
    reveal_with_fuel(passes, 2);
}

/// The texts of a list are those of its strings, in order.
pub proof fn law_texts(list: Seq<String>)
    ensures
        texts(list).len() == list.len(),
        forall|i: int| 0 <= i < list.len() ==> #[trigger] texts(list)[i] == list[i]@,
{
}

/// Without the command among its words, a segment has neither its flags nor its
/// arguments.
pub proof fn law_command_must_be_there(
    segment: Seq<char>,
    command: Seq<char>,
    list: Seq<Seq<char>>,
)
    requires
        !fields_of(segment, Separator::Whitespace).contains(command),
    ensures
        !flags_present(segment, command, list),
        !args_match_any(segment, command, list),
{
    assert forall|p: int| !first_at(words_of(segment), command, p) by {
        if first_at(words_of(segment), command, p) {
            assert(fields_of(segment, Separator::Whitespace)[p] == command);
        }
    }
}

proof fn lemma_first_is_one(words: Seq<Seq<char>>, command: Seq<char>, p: int, q: int)
    requires
        first_at(words, command, p),
        first_at(words, command, q),
    ensures
        p == q,
{
    if p < q {
        assert(words[p] == command);
    } else if q < p {
        assert(words[q] == command);
    }
}

/// An option is given exactly if its letter stands in a word behind the command, behind
/// a single dash.
proof fn lemma_option_given(words: Seq<Seq<char>>, p: int, c: char)
    ensures
        option_given(words, p, c) <==> exists|k: int, i: int|
            {
                &&& p < k < words.len()
                &&& 1 <= i < words[k].len()
                &&& words[k][0] == '-'
                &&& words[k][1] != '-'
                &&& #[trigger] words[k][i] == c
            },
{
    if option_given(words, p, c) {
        let (k, i) = choose|k: int, i: int|
            {
                &&& p < k < words.len()
                &&& short_options(words[k])
                &&& 1 <= i < words[k].len()
                &&& #[trigger] words[k][i] == c
            };
        assert(words[k][i] == c);
    }
    if exists|k: int, i: int|
        {
            &&& p < k < words.len()
            &&& 1 <= i < words[k].len()
            &&& words[k][0] == '-'
            &&& words[k][1] != '-'
            &&& #[trigger] words[k][i] == c
        } {
        let (k, i) = choose|k: int, i: int|
            {
                &&& p < k < words.len()
                &&& 1 <= i < words[k].len()
                &&& words[k][0] == '-'
                &&& words[k][1] != '-'
                &&& #[trigger] words[k][i] == c
            };
        assert(short_options(words[k]));
    }
}

/// Wherever the command stands first among the words, a flag of one letter is given
/// exactly if the letter stands, behind a single dash, in one of the words behind it.
pub proof fn law_flag_stands_behind_the_command(
    segment: Seq<char>,
    command: Seq<char>,
    c: char,
    p: int,
)
    requires
        0 <= p < fields_of(segment, Separator::Whitespace).len(),
        fields_of(segment, Separator::Whitespace)[p] == command,
        forall|k: int|
            0 <= k < p ==> #[trigger] fields_of(segment, Separator::Whitespace)[k] != command,
    ensures
        flags_present(segment, command, seq![seq![c]]) <==> exists|k: int, i: int|
            {
                &&& p < k < fields_of(segment, Separator::Whitespace).len()
                &&& 1 <= i < fields_of(segment, Separator::Whitespace)[k].len()
                &&& fields_of(segment, Separator::Whitespace)[k][0] == '-'
                &&& fields_of(segment, Separator::Whitespace)[k][1] != '-'
                &&& #[trigger] fields_of(segment, Separator::Whitespace)[k][i] == c
            },
{
    let flags = seq![seq![c]];
    lemma_flags_at(segment, command, flags, p);
    lemma_option_given(fields_of(segment, Separator::Whitespace), p, c);
    assert(flags[0][0] == c);
}

/// Flags are given exactly if the command is there and each letter of each of them is
/// given.
pub proof fn law_flags_are_given_letter_by_letter(
    segment: Seq<char>,
    command: Seq<char>,
    flags: Seq<Seq<char>>,
)
    ensures
        flags_present(segment, command, flags) <==> fields_of(
            segment,
            Separator::Whitespace,
        ).contains(command) && forall|f: int, j: int|
            0 <= f < flags.len() && 0 <= j < flags[f].len() ==> flags_present(
                segment,
                command,
                seq![seq![#[trigger] flags[f][j]]],
            ),
{
    let words = fields_of(segment, Separator::Whitespace);
    if words.contains(command) {
        let p = lemma_first_occurrence(words, command);
        lemma_flags_at(segment, command, flags, p);
        assert forall|c: char|
            flags_present(segment, command, #[trigger] seq![seq![c]]) == option_given(
                words,
                p,
                c,
            ) by {
            lemma_flags_at(segment, command, seq![seq![c]], p);
            assert(seq![seq![c]][0][0] == c);
        }
    } else {
        law_command_must_be_there(segment, command, flags);
    }
}

proof fn lemma_flags_at(
    segment: Seq<char>,
    command: Seq<char>,
    flags: Seq<Seq<char>>,
    p: int,
)
    requires
        first_at(words_of(segment), command, p),
    ensures
        flags_present(segment, command, flags) <==> forall|f: int, j: int|
            0 <= f < flags.len() && 0 <= j < flags[f].len() ==> option_given(
                words_of(segment),
                p,
                #[trigger] flags[f][j],
            ),
{
    assert forall|q: int| #[trigger] first_at(words_of(segment), command, q) implies q == p by {
        lemma_first_is_one(words_of(segment), command, p, q);
    }
}

/// `word` is `value`, or `value` with slashes behind it.
proof fn lemma_argument(word: Seq<char>, value: Seq<char>)
    ensures
        word == value || normalized_argument(word) == value <==> word == value || (value.len() > 0
            && value[value.len() - 1] != '/' && value.len() < word.len() && word.take(
            value.len() as int,
        ) == value && forall|i: int| value.len() <= i < word.len() ==> #[trigger] word[i] == '/'),
{
    let core = without_trailing(word, '/');
    let n = lemma_stripped(word, '/');
    assert(core == word.take(n));
    if value.len() > 0 && value[value.len() - 1] != '/' && value.len() < word.len() && word.take(
        value.len() as int,
    ) == value && (forall|i: int| value.len() <= i < word.len() ==> #[trigger] word[i] == '/') {
        let tail = word.skip(value.len() as int);
        assert forall|i: int| 0 <= i < tail.len() implies #[trigger] tail[i] == '/' by {
            assert(tail[i] == word[value.len() + i]);
        }
        assert(value + tail == word);
        law_trailing_copies_are_taken_off(value, tail, '/');
    }
    if normalized_argument(word) == value && word != value {
        assert(core == value);
        assert(n == value.len());
        assert(n < word.len()) by {
            if n == word.len() {
                assert(word.take(n) == word);
            }
        }
    }
}

/// What is taken off the end is copies of the character, up to the last other one.
proof fn lemma_stripped(s: Seq<char>, c: char) -> (n: int)
    ensures
        0 <= n <= s.len(),
        without_trailing(s, c) == s.take(n),
        n > 0 ==> s[n - 1] != c,
        forall|i: int| n <= i < s.len() ==> #[trigger] s[i] == c,
    decreases s.len(),
{
    if s.len() > 0 && s.last() == c {
        let n = lemma_stripped(s.drop_last(), c);
        assert(s.drop_last().take(n) == s.take(n));
        assert forall|i: int| n <= i < s.len() implies #[trigger] s[i] == c by {
            if i < s.len() - 1 {
                assert(s.drop_last()[i] == s[i]);
            }
        }
        n
    } else {
        assert(s.take(s.len() as int) == s);
        s.len() as int
    }
}

/// Wherever the command stands first among the words, one of its arguments is in the
/// list exactly if a word behind it that starts with no dash is in the list, or is a
/// text from the list with slashes behind it.
pub proof fn law_arguments_stand_behind_the_command(
    segment: Seq<char>,
    command: Seq<char>,
    values: Seq<Seq<char>>,
    p: int,
)
    requires
        0 <= p < fields_of(segment, Separator::Whitespace).len(),
        fields_of(segment, Separator::Whitespace)[p] == command,
        forall|k: int|
            0 <= k < p ==> #[trigger] fields_of(segment, Separator::Whitespace)[k] != command,
    ensures
        args_match_any(segment, command, values) <==> exists|k: int, v: int|
            {
                let word = fields_of(segment, Separator::Whitespace)[k];
                let value = values[v];
                &&& p < k < fields_of(segment, Separator::Whitespace).len()
                &&& 0 <= v < values.len()
                &&& (#[trigger] fields_of(segment, Separator::Whitespace)[k])[0] != '-'
                &&& word == #[trigger] values[v] || (value.len() > 0 && value[value.len() - 1]
                    != '/' && value.len() < word.len() && word.take(value.len() as int) == value
                    && forall|i: int| value.len() <= i < word.len() ==> #[trigger] word[i] == '/')
            },
{
    let words = fields_of(segment, Separator::Whitespace);
    assert(first_at(words_of(segment), command, p));
    lemma_fields_are_clean(segment, Separator::Whitespace);
    if args_match_any(segment, command, values) {
        let (q, k) = choose|q: int, k: int|
            {
                &&& #[trigger] first_at(words_of(segment), command, q)
                &&& q < k < words_of(segment).len()
                &&& argument_matches(#[trigger] words_of(segment)[k], values)
            };
        lemma_first_is_one(words, command, p, q);
        let word = words[k];
        assert(clean_field(words[k], Separator::Whitespace));
        let v = if values.contains(word) {
            values.index_of(word)
        } else {
            values.index_of(normalized_argument(word))
        };
        lemma_argument(word, values[v]);
        assert(fields_of(segment, Separator::Whitespace)[k][0] != '-');
    }
    if exists|k: int, v: int|
        {
            let word = words[k];
            let value = values[v];
            &&& p < k < words.len()
            &&& 0 <= v < values.len()
            &&& (#[trigger] words[k])[0] != '-'
            &&& word == #[trigger] values[v] || (value.len() > 0 && value[value.len() - 1] != '/'
                && value.len() < word.len() && word.take(value.len() as int) == value
                && forall|i: int| value.len() <= i < word.len() ==> #[trigger] word[i] == '/')
        } {
        let (k, v) = choose|k: int, v: int|
            {
                let word = words[k];
                let value = values[v];
                &&& p < k < words.len()
                &&& 0 <= v < values.len()
                &&& (#[trigger] words[k])[0] != '-'
                &&& word == #[trigger] values[v] || (value.len() > 0 && value[value.len() - 1]
                    != '/' && value.len() < word.len() && word.take(value.len() as int) == value
                    && forall|i: int| value.len() <= i < word.len() ==> #[trigger] word[i] == '/')
            };
        lemma_argument(words[k], values[v]);
        assert(values.contains(values[v]));
        assert(argument_matches(words_of(segment)[k], values));
    }
}

/// Words in front of a segment, such as `sudo`, change nothing of what is said about a
/// command that is not among them.
pub proof fn law_words_in_front_change_nothing(
    front: Seq<char>,
    gap: char,
    segment: Seq<char>,
    command: Seq<char>,
    list: Seq<Seq<char>>,
)
    requires
        whitespace(gap),
        !fields_of(front, Separator::Whitespace).contains(command),
    ensures
        flags_present(front.push(gap) + segment, command, list) == flags_present(
            segment,
            command,
            list,
        ),
        args_match_any(front.push(gap) + segment, command, list) == args_match_any(
            segment,
            command,
            list,
        ),
{
    let whole = front.push(gap) + segment;
    let a = fields_of(front, Separator::Whitespace);
    let b = fields_of(segment, Separator::Whitespace);
    let n = a.len() as int;
    lemma_fields_at_separator(front, gap, segment, Separator::Whitespace);
    let words = words_of(whole);
    assert(words == a + b);
    if !b.contains(command) {
        law_command_must_be_there(segment, command, list);
        assert forall|k: int| 0 <= k < words.len() implies #[trigger] words[k] != command by {
            if k < n {
                assert(a[k] == words[k]);
            } else {
                assert(b[k - n] == words[k]);
            }
        }
        law_command_must_be_there(whole, command, list);
    } else {
        let p = lemma_first_occurrence(b, command);
        assert(words[n + p] == b[p]);
        assert forall|k: int| 0 <= k < n + p implies #[trigger] words[k] != command by {
            if k < n {
                assert(a[k] == words[k]);
            } else {
                assert(b[k - n] == words[k]);
            }
        }
        assert(first_at(words, command, n + p));
        assert(first_at(b, command, p));
        lemma_moved(words, b, n);
        assert forall|q: int| #[trigger] first_at(words, command, q) implies q == n + p by {
            lemma_first_is_one(words, command, n + p, q);
        }
        assert forall|q: int| #[trigger] first_at(b, command, q) implies q == p by {
            lemma_first_is_one(b, command, p, q);
        }
        assert forall|c: char|
            option_given(words, n + p, c) == #[trigger] option_given(b, p, c) by {
            if option_given(words, n + p, c) {
                let (k, j) = choose|k: int, j: int|
                    {
                        &&& n + p < k < words.len()
                        &&& short_options(words[k])
                        &&& 1 <= j < words[k].len()
                        &&& #[trigger] words[k][j] == c
                    };
                assert(b[k - n] == words[k]);
                assert(b[k - n][j] == c);
            }
            if option_given(b, p, c) {
                let (k, j) = choose|k: int, j: int|
                    {
                        &&& p < k < b.len()
                        &&& short_options(b[k])
                        &&& 1 <= j < b[k].len()
                        &&& #[trigger] b[k][j] == c
                    };
                assert(words[k + n] == b[k]);
                assert(words[k + n][j] == c);
            }
        }
        if flags_present(whole, command, list) {
            assert forall|f: int, j: int| 0 <= f < list.len() && 0 <= j < list[f].len() implies
                option_given(words_of(segment), p, #[trigger] list[f][j]) by {
                assert(option_given(words, n + p, list[f][j]));
            }
        }
        if flags_present(segment, command, list) {
            assert forall|f: int, j: int| 0 <= f < list.len() && 0 <= j < list[f].len() implies
                option_given(words_of(whole), n + p, #[trigger] list[f][j]) by {
                assert(option_given(b, p, list[f][j]));
            }
        }
        if args_match_any(whole, command, list) {
            let (q, k) = choose|q: int, k: int|
                {
                    &&& #[trigger] first_at(words_of(whole), command, q)
                    &&& q < k < words_of(whole).len()
                    &&& argument_matches(#[trigger] words_of(whole)[k], list)
                };
            assert(b[k - n] == words[k]);
            assert(argument_matches(words_of(segment)[k - n], list));
        }
        if args_match_any(segment, command, list) {
            let (q, k) = choose|q: int, k: int|
                {
                    &&& #[trigger] first_at(words_of(segment), command, q)
                    &&& q < k < words_of(segment).len()
                    &&& argument_matches(#[trigger] words_of(segment)[k], list)
                };
            assert(words[k + n] == b[k]);
            assert(argument_matches(words_of(whole)[k + n], list));
        }
    }
}

proof fn lemma_moved(words: Seq<Seq<char>>, b: Seq<Seq<char>>, n: int)
    requires
        0 <= n,
        words.len() == n + b.len(),
        forall|k: int| n <= k < words.len() ==> #[trigger] words[k] == b[k - n],
    ensures
        forall|k: int| 0 <= k < b.len() ==> words[k + n] == #[trigger] b[k],
{
}

proof fn lemma_first_occurrence(words: Seq<Seq<char>>, command: Seq<char>) -> (p: int)
    requires
        words.contains(command),
    ensures
        first_at(words, command, p),
    decreases words.len(),
{
    if words.drop_last().contains(command) {
        let p = lemma_first_occurrence(words.drop_last(), command);
        assert forall|k: int| 0 <= k < p implies #[trigger] words[k] != command by {
            assert(words.drop_last()[k] == words[k]);
        }
        p
    } else {
        let p = words.len() - 1;
        assert forall|k: int| 0 <= k < p implies #[trigger] words[k] != command by {
            assert(words.drop_last()[k] == words[k]);
        }
        let i = words.index_of(command);
        assert(words[i] == command);
        p
    }
}

// ---------------------------------------------------------------------------
// The functions
// ---------------------------------------------------------------------------
/// The position at which `command` stands first among `words`.
fn position(words: &Vec<&str>, command: &str) -> (r: Option<usize>)
    ensures
        match r {
            Some(p) => first_at(words.deep_view(), command@, p as int),
            None => forall|p: int| !first_at(words.deep_view(), command@, p),
        },
{
    let n: usize = words.len();
    let mut i: usize = 0;
    while i < n
        invariant
            n == words@.len(),
            i <= n,
            forall|k: int| 0 <= k < i ==> #[trigger] words.deep_view()[k] != command@,
        decreases n - i,
    {
        assert(words.deep_view()[i as int] == words@[i as int]@);
        if same_text(words[i], command) {
            return Some(i);
        }
        i += 1;
    }
    None
}

/// Tells whether `c` is a short option behind position `pos`.
fn is_option_given(words: &Vec<&str>, pos: usize, c: char) -> (r: bool)
    requires
        pos < words@.len(),
    ensures
        r == option_given(words.deep_view(), pos as int, c),
{
    let n: usize = words.len();
    let ghost all = words.deep_view();
    let mut k: usize = pos + 1;
    while k < n
        invariant
            n == words@.len(),
            all == words.deep_view(),
            pos < k <= n,
            forall|m: int, j: int|
                pos < m < k && short_options(all[m]) && 1 <= j < all[m].len() ==> #[trigger] all[m][j]
                    != c,
        decreases n - k,
    {
        let word = chars_of(words[k]);
        assert(all[k as int] == word@);
        let len: usize = word.len();
        if len > 0 && word[0] == '-' && !(len > 1 && word[1] == '-') {
            let mut j: usize = 1;
            while j < len
                invariant
                    len == word@.len(),
                    1 <= j <= len,
                    n == words@.len(),
                    pos < k < n,
                    all == words.deep_view(),
                    all[k as int] == word@,
                    short_options(all[k as int]),
                    forall|i: int| 1 <= i < j ==> word@[i] != c,
                decreases len - j,
            {
                if word[j] == c {
                    assert(all[k as int][j as int] == c);
                    return true;
                }
                j += 1;
            }
        }
        k += 1;
    }
    false
}

/// Checks that all of `required_flags` are given behind `command`.
pub fn validate_flags_present(segment: &str, command: &str, required_flags: &[String]) -> (r: bool)
    ensures
        r == flags_present(segment@, command@, texts(required_flags@)),
{
    let words = fields(segment, Separator::Whitespace);
    let ghost all = words_of(segment@);
    let pos: usize = match position(&words, command) {
        Some(p) => p,
        None => {
            return false;
        },
    };
    let ghost flags = texts(required_flags@);
    let n: usize = required_flags.len();
    let mut f: usize = 0;
    while f < n
        invariant
            words.deep_view() == all,
            all == words_of(segment@),
            first_at(all, command@, pos as int),
            flags == texts(required_flags@),
            n == required_flags@.len(),
            f <= n,
            forall|g: int, j: int|
                0 <= g < f && 0 <= j < flags[g].len() ==> option_given(
                    all,
                    pos as int,
                    #[trigger] flags[g][j],
                ),
        decreases n - f,
    {
        let flag = chars_of(required_flags[f].as_str());
        assert(flags[f as int] == flag@);
        let len: usize = flag.len();
        let mut j: usize = 0;
        while j < len
            invariant
                words.deep_view() == all,
                all == words_of(segment@),
                first_at(all, command@, pos as int),
                flags == texts(required_flags@),
                n == required_flags@.len(),
                f < n,
                flags[f as int] == flag@,
                len == flag@.len(),
                j <= len,
                forall|i: int| 0 <= i < j ==> option_given(all, pos as int, #[trigger] flag@[i]),
            decreases len - j,
        {
            if !is_option_given(&words, pos, flag[j]) {
                proof {
                    assert(!option_given(all, pos as int, flags[f as int][j as int]));
                    assert forall|p: int| first_at(all, command@, p) implies p == pos by {
                        if p < pos {
                            assert(all[p] == command@);
                        } else if p > pos {
                            assert(all[pos as int] == command@);
                        }
                    }
                }
                return false;
            }
            j += 1;
        }
        f += 1;
    }
    true
}

/// Tells whether `text` is one of `values`.
fn is_one_of(values: &[String], text: &str) -> (r: bool)
    ensures
        r == texts(values@).contains(text@),
{
    let ghost all = texts(values@);
    let n: usize = values.len();
    let mut i: usize = 0;
    while i < n
        invariant
            n == values@.len(),
            all == texts(values@),
            i <= n,
            forall|k: int| 0 <= k < i ==> #[trigger] all[k] != text@,
        decreases n - i,
    {
        assert(all[i as int] == values@[i as int]@);
        if same_text(values[i].as_str(), text) {
            return true;
        }
        i += 1;
    }
    false
}

/// Checks that an argument behind `command` is one of `values`.
pub fn validate_args_match_any(segment: &str, command: &str, values: &[String]) -> (r: bool)
    ensures
        r == args_match_any(segment@, command@, texts(values@)),
{
    let words = fields(segment, Separator::Whitespace);
    let ghost all = words_of(segment@);
    let pos: usize = match position(&words, command) {
        Some(p) => p,
        None => {
            return false;
        },
    };
    let n: usize = words.len();
    let mut k: usize = pos + 1;
    while k < n
        invariant
            words.deep_view() == all,
            all == words_of(segment@),
            first_at(all, command@, pos as int),
            n == words@.len(),
            pos < k <= n,
            forall|m: int| pos < m < k ==> !argument_matches(#[trigger] all[m], texts(values@)),
        decreases n - k,
    {
        let word: &str = words[k];
        assert(all[k as int] == word@);
        let is_option: bool = !word.is_empty() && word.get_char(0) == '-';
        if !is_option {
            let stripped = trim_end_char(word, '/');
            let normalized: &str = if stripped.is_empty() {
                word
            } else {
                stripped
            };
            if is_one_of(values, normalized) || is_one_of(values, word) {
                return true;
            }
        }
        k += 1;
    }
    proof {
        assert forall|p: int, m: int|
            #[trigger] first_at(all, command@, p) && p < m < all.len() implies !argument_matches(
            #[trigger] all[m],
            texts(values@),
        ) by {
            if p < pos {
                assert(all[p] == command@);
            } else if p > pos {
                assert(all[pos as int] == command@);
            }
        }
    }
    false
}

/// Runs a validator on a command segment.
pub fn execute_validator(segment: &str, validator: &ValidatorConfig) -> (r: bool)
    ensures
        r == passes(*validator, segment@),
    decreases *validator,
{
    match validator {
        ValidatorConfig::NotContains { value } => !contains_text(segment, value.as_str()),
        ValidatorConfig::FlagsPresent { command, flags } => validate_flags_present(
            segment,
            command.as_str(),
            flags.as_slice(),
        ),
        ValidatorConfig::ArgsMatchAny { command, values } => validate_args_match_any(
            segment,
            command.as_str(),
            values.as_slice(),
        ),
        ValidatorConfig::AllOf { validators } => {
            let n: usize = validators.len();
            let mut i: usize = 0;
            #[verifier::loop_isolation(false)]
            while i < n
                invariant
                    i <= n,
                    forall|j: int| 0 <= j < i ==> passes(#[trigger] validators@[j], segment@),
                decreases n - i,
            {
                assert(decreases_to!(*validator => *validators));
                assert(decreases_to!(*validators => validators@));
                assert(decreases_to!(validators@ => validators@[i as int]));
                if !execute_validator(segment, &validators[i]) {
                    return false;
                }
                i += 1;
            }
            true
        },
        ValidatorConfig::AnyOf { validators } => {
            let n: usize = validators.len();
            let mut i: usize = 0;
            #[verifier::loop_isolation(false)]
            while i < n
                invariant
                    i <= n,
                    forall|j: int| 0 <= j < i ==> !passes(#[trigger] validators@[j], segment@),
                decreases n - i,
            {
                assert(decreases_to!(*validator => validators@[i as int]));
                if execute_validator(segment, &validators[i]) {
                    return true;
                }
                i += 1;
            }
            false
        },
        ValidatorConfig::Not { validator: inner } => !execute_validator(segment, inner),
    }
}

} // verus!
