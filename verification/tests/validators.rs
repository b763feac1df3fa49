//! Validators, alone and nested.
use agent_guard::config::ValidatorConfig;
use agent_guard::validator::execute_validator;
use agent_guard::validator::validate_args_match_any;
use agent_guard::validator::validate_flags_present;

fn strings(list: &[&str]) -> Vec<String> {
    list.iter().map(|s| s.to_string()).collect()
}

fn lacks(value: &str) -> ValidatorConfig {
    ValidatorConfig::NotContains { value: value.to_string() }
}

fn negated(validator: ValidatorConfig) -> ValidatorConfig {
    ValidatorConfig::Not { validator: Box::new(validator) }
}

#[test]
fn not_contains_looks_for_a_substring() {
    assert!(execute_validator("git push", &lacks("--force")));
    assert!(!execute_validator("git push --force-with-lease", &lacks("--force")));
    assert!(!execute_validator("anything", &lacks("")));
}

#[test]
fn flags_are_read_behind_the_command() {
    let fd = strings(&["f", "d"]);
    assert!(validate_flags_present("git clean -fd", "clean", &fd));
    assert!(validate_flags_present("git clean -x -d path -f", "clean", &fd));
    assert!(!validate_flags_present("git -fd clean", "clean", &fd));
    assert!(!validate_flags_present("git clean -f", "clean", &fd));
    assert!(!validate_flags_present("git push -fd", "clean", &fd));
}

#[test]
fn flags_of_several_letters_need_each_letter() {
    assert!(validate_flags_present("rm -r -f x", "rm", &strings(&["rf"])));
    assert!(!validate_flags_present("rm -r x", "rm", &strings(&["rf"])));
}

#[test]
fn long_options_are_no_flags() {
    assert!(!validate_flags_present("git clean --fd", "clean", &strings(&["f"])));
    assert!(!validate_flags_present("git clean -- -", "clean", &strings(&["f"])));
    assert!(validate_flags_present("git clean --dry -f", "clean", &strings(&["f"])));
}

#[test]
fn no_flags_ask_only_for_the_command() {
    assert!(validate_flags_present("git clean", "clean", &[]));
    assert!(!validate_flags_present("git status", "clean", &[]));
}

#[test]
fn flags_count_from_the_first_occurrence_of_the_command() {
    assert!(validate_flags_present("clean -f clean", "clean", &strings(&["f"])));
}

#[test]
fn arguments_match_with_and_without_trailing_slashes() {
    let values = strings(&[".", "/", "dir/"]);
    assert!(validate_args_match_any("rm -rf .", "rm", &values));
    assert!(validate_args_match_any("rm -rf ./", "rm", &values));
    assert!(validate_args_match_any("rm -rf .//", "rm", &values));
    assert!(validate_args_match_any("rm -rf /", "rm", &values));
    assert!(validate_args_match_any("rm dir/", "rm", &values));
    assert!(!validate_args_match_any("rm dir", "rm", &values));
    assert!(!validate_args_match_any("rm -rf //", "rm", &values));
}

#[test]
fn options_are_no_arguments() {
    assert!(!validate_args_match_any("rm -x", "rm", &strings(&["-x"])));
    assert!(!validate_args_match_any("rm --all", "rm", &strings(&["--all"])));
}

#[test]
fn arguments_stand_behind_the_command() {
    let values = strings(&["x"]);
    assert!(validate_args_match_any("sudo rm a x", "rm", &values));
    assert!(!validate_args_match_any("x rm a", "rm", &values));
    assert!(!validate_args_match_any("ls x", "rm", &values));
}

#[test]
fn validators_nest() {
    let flags = ValidatorConfig::FlagsPresent {
        command: "rm".to_string(),
        flags: strings(&["r"]),
    };
    let arguments = ValidatorConfig::ArgsMatchAny {
        command: "rm".to_string(),
        values: strings(&["x"]),
    };
    let all = ValidatorConfig::AllOf { validators: vec![flags.clone(), arguments.clone()] };
    let any = ValidatorConfig::AnyOf { validators: vec![flags, arguments] };
    assert!(execute_validator("rm -r x", &all));
    assert!(!execute_validator("rm -r y", &all));
    assert!(!execute_validator("rm x", &all));
    assert!(execute_validator("rm -r y", &any));
    assert!(execute_validator("rm x", &any));
    assert!(!execute_validator("rm y", &any));
    assert!(!execute_validator("rm -r x", &negated(all)));
    assert!(execute_validator("rm y", &negated(any)));
}

#[test]
fn all_of_none_passes_and_one_of_none_does_not() {
    assert!(execute_validator("x", &ValidatorConfig::AllOf { validators: vec![] }));
    assert!(!execute_validator("x", &ValidatorConfig::AnyOf { validators: vec![] }));
}

#[test]
fn negating_twice_changes_nothing() {
    for segment in ["a", "b", "ab", ""] {
        assert_eq!(
            execute_validator(segment, &negated(negated(lacks("a")))),
            execute_validator(segment, &lacks("a"))
        );
    }
}

#[test]
fn negation_turns_all_into_one() {
    for segment in ["a", "b", "ab", ""] {
        let all = ValidatorConfig::AllOf { validators: vec![lacks("a"), lacks("b")] };
        let any = ValidatorConfig::AnyOf { validators: vec![lacks("a"), lacks("b")] };
        let one_negated =
            ValidatorConfig::AnyOf { validators: vec![negated(lacks("a")), negated(lacks("b"))] };
        let all_negated =
            ValidatorConfig::AllOf { validators: vec![negated(lacks("a")), negated(lacks("b"))] };
        assert_eq!(!execute_validator(segment, &all), execute_validator(segment, &one_negated));
        assert_eq!(!execute_validator(segment, &any), execute_validator(segment, &all_negated));
    }
}

#[test]
fn copies_pass_the_same_segments() {
    let validator = ValidatorConfig::AllOf {
        validators: vec![
            ValidatorConfig::AnyOf {
                validators: vec![
                    ValidatorConfig::FlagsPresent {
                        command: "c".to_string(),
                        flags: strings(&["x", "y"]),
                    },
                    ValidatorConfig::ArgsMatchAny {
                        command: "c".to_string(),
                        values: strings(&["v"]),
                    },
                ],
            },
            negated(lacks("c")),
        ],
    };
    let copy = validator.clone();
    assert_eq!(format!("{:?}", copy), format!("{:?}", validator));
    for segment in ["c -xy", "c -x", "c v", "v", ""] {
        assert_eq!(execute_validator(segment, &copy), execute_validator(segment, &validator));
    }
}
