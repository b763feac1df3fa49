//! Configurations, and the patterns compiled from them.
use agent_guard::config::default_enabled;
use agent_guard::config::default_priority;
use agent_guard::config::default_schema_version;
use agent_guard::config::ConfigMetadata;
use agent_guard::config::GuardConfig;
use agent_guard::config::MatcherConfig;
use agent_guard::config::PatternDefinition;
use agent_guard::config::ValidatorConfig;
use agent_guard::pattern::evaluate_command;
use agent_guard::pattern::evaluate_segment;
use agent_guard::pattern::find_denied;
use agent_guard::pattern::find_triggered;
use agent_guard::pattern::is_triggered;

fn text(value: &toml::Value, key: &str) -> String {
    value.get(key).unwrap().as_str().unwrap().to_string()
}

fn list(value: &toml::Value, key: &str) -> Vec<toml::Value> {
    match value.get(key) {
        Some(items) => items.as_array().unwrap().clone(),
        None => Vec::new(),
    }
}

fn texts(value: &toml::Value, key: &str) -> Vec<String> {
    list(value, key).iter().map(|v| v.as_str().unwrap().to_string()).collect()
}

fn validator_from_toml(value: &toml::Value) -> ValidatorConfig {
    let all = |key: &str| list(value, key).iter().map(validator_from_toml).collect();
    match text(value, "type").as_str() {
        "not_contains" => ValidatorConfig::NotContains { value: text(value, "value") },
        "flags_present" => ValidatorConfig::FlagsPresent {
            command: text(value, "command"),
            flags: texts(value, "flags"),
        },
        "args_match_any" => ValidatorConfig::ArgsMatchAny {
            command: text(value, "command"),
            values: texts(value, "values"),
        },
        "all_of" => ValidatorConfig::AllOf { validators: all("validators") },
        "any_of" => ValidatorConfig::AnyOf { validators: all("validators") },
        "not" => ValidatorConfig::Not {
            validator: Box::new(validator_from_toml(value.get("validator").unwrap())),
        },
        other => panic!("unknown validator {}", other),
    }
}

fn pattern_from_toml(value: &toml::Value) -> PatternDefinition {
    PatternDefinition {
        id: text(value, "id"),
        priority: match value.get("priority") {
            Some(n) => n.as_integer().unwrap() as u32,
            None => default_priority(),
        },
        enabled: match value.get("enabled") {
            Some(b) => b.as_bool().unwrap(),
            None => default_enabled(),
        },
        matcher: MatcherConfig::Regex {
            pattern: text(value.get("matcher").unwrap(), "pattern"),
        },
        validator: value.get("validator").map(validator_from_toml),
        message: text(value, "message"),
    }
}

/// Reads a configuration from TOML.
fn config_from_toml(source: &str) -> GuardConfig {
    let value: toml::Value = toml::from_str(source).unwrap();
    GuardConfig {
        schema_version: match value.get("schema_version") {
            Some(v) => v.as_str().unwrap().to_string(),
            None => default_schema_version(),
        },
        metadata: value.get("metadata").map(|m| ConfigMetadata {
            source: text(m, "source"),
            version: text(m, "version"),
            description: None,
        }),
        patterns: list(&value, "patterns").iter().map(pattern_from_toml).collect(),
    }
}

#[test]
fn config_loads_embedded_defaults() {
    let config = GuardConfig::load_from_embedded();
    assert_eq!(config.schema_version, "1.0");
    assert!(!config.patterns.is_empty());

    // Verify all expected patterns are present
    let pattern_ids: Vec<&str> = config.patterns.iter().map(|p| p.id.as_str()).collect();
    assert!(pattern_ids.contains(&"meta.git.force_push"));
    assert!(pattern_ids.contains(&"meta.git.reset_hard"));
    assert!(pattern_ids.contains(&"meta.git.branch_force_delete"));
    assert!(pattern_ids.contains(&"meta.git.stash_drop"));
    assert!(pattern_ids.contains(&"meta.git.stash_clear"));
}

#[test]
fn config_default_patterns_are_enabled() {
    let config = GuardConfig::load(None, None);

    // All default patterns should be enabled
    for pattern in &config.patterns {
        assert!(
            pattern.enabled,
            "Pattern {} should be enabled by default",
            pattern.id
        );
    }

    // Verify we have the expected number of patterns
    assert!(
        config.patterns.len() >= 8,
        "Should have at least 8 default patterns"
    );
}

#[test]
fn config_can_parse_custom_toml() {
    let toml = r#"
schema_version = "1.0"

[[patterns]]
id = "meta.git.force_push"
enabled = false
matcher = { type = "regex", pattern = 'git\s+push.*--force' }
message = "Force push disabled"

[[patterns]]
id = "meta.git.reset_hard"
enabled = true
matcher = { type = "regex", pattern = 'git\s+reset.*--hard' }
message = "Custom reset message"
"#;
    let config: GuardConfig = config_from_toml(toml);
    assert_eq!(config.schema_version, "1.0");
    assert_eq!(config.patterns.len(), 2);

    assert!(!config.patterns[0].enabled);
    assert_eq!(config.patterns[0].id, "meta.git.force_push");

    assert!(config.patterns[1].enabled);
    assert_eq!(config.patterns[1].message, "Custom reset message");
}

#[test]
fn disabled_pattern_is_not_checked() {
    // Create a custom config with git_force_push disabled
    let toml = r#"
schema_version = "1.0"

[[patterns]]
id = "meta.git.force_push"
enabled = false
matcher = { type = "regex", pattern = 'git\s+push.*\s+(--force|-f)\b(?!-with-lease)' }
message = "test"
"#;
    let config: GuardConfig = config_from_toml(toml);
    let patterns = config.compile_patterns();

    // This command should normally be denied, but with the pattern disabled it should pass
    let result = evaluate_segment("git push --force origin main", &patterns);
    assert!(result.is_none());
}

#[test]
fn custom_message_overrides_default() {
    let toml = r#"
schema_version = "1.0"

[[patterns]]
id = "meta.git.force_push"
enabled = true
matcher = { type = "regex", pattern = 'git\s+push.*(--force|-f)\b' }
message = "TEAM POLICY: No force push ever!"
"#;
    let config: GuardConfig = config_from_toml(toml);
    let patterns = config.compile_patterns();
    let result = evaluate_segment("git push --force", &patterns).unwrap();
    assert_eq!(result.reason, "TEAM POLICY: No force push ever!");
}

#[test]
fn pattern_registry_covers_all_patterns() {
    // Ensure all expected patterns are in the default config
    let config = GuardConfig::load_from_embedded();
    let pattern_ids: Vec<&str> = config.patterns.iter().map(|p| p.id.as_str()).collect();

    assert!(pattern_ids.contains(&"meta.git.force_push"));
    assert!(pattern_ids.contains(&"meta.git.reset_hard"));
    assert!(pattern_ids.contains(&"meta.git.clean_force"));
    assert!(pattern_ids.contains(&"meta.git.checkout_dot"));
    assert!(pattern_ids.contains(&"meta.git.branch_force_delete"));
    assert!(pattern_ids.contains(&"meta.git.stash_drop"));
    assert!(pattern_ids.contains(&"meta.git.stash_clear"));
    assert!(pattern_ids.contains(&"meta.rm.dangerous_paths"));
}

#[test]
fn patterns_sorted_by_priority() {
    let toml = r#"
schema_version = "1.0"

[[patterns]]
id = "low"
priority = 50
enabled = true
matcher = { type = "regex", pattern = 'test' }
message = "low priority"

[[patterns]]
id = "high"
priority = 200
enabled = true
matcher = { type = "regex", pattern = 'test' }
message = "high priority"

[[patterns]]
id = "medium"
priority = 100
enabled = true
matcher = { type = "regex", pattern = 'test' }
message = "medium priority"
"#;
    let config: GuardConfig = config_from_toml(toml);
    let patterns = config.compile_patterns();

    // Should be sorted by priority (highest first)
    assert_eq!(patterns[0].priority, 200);
    assert_eq!(patterns[1].priority, 100);
    assert_eq!(patterns[2].priority, 50);
}

fn pattern(id: &str, priority: u32, enabled: bool, regex: &str) -> PatternDefinition {
    PatternDefinition {
        id: id.to_string(),
        priority,
        enabled,
        matcher: MatcherConfig::Regex { pattern: regex.to_string() },
        validator: None,
        message: format!("message of {}", id),
    }
}

fn config(patterns: Vec<PatternDefinition>) -> GuardConfig {
    GuardConfig { schema_version: default_schema_version(), metadata: None, patterns }
}

#[test]
fn fields_have_their_defaults() {
    assert_eq!(default_schema_version(), "1.0");
    assert_eq!(default_priority(), 100);
    assert!(default_enabled());
    let config = config_from_toml(
        "[[patterns]]\nid = \"x\"\nmatcher = { type = \"regex\", pattern = 'x' }\nmessage = \"m\"\n",
    );
    assert_eq!(config.schema_version, "1.0");
    assert!(config.metadata.is_none());
    assert_eq!(config.patterns[0].priority, 100);
    assert!(config.patterns[0].enabled);
}

#[test]
fn the_project_goes_before_the_user_and_the_user_before_the_default() {
    let project = || config(vec![pattern("project", 1, true, "x")]);
    let user = || config(vec![pattern("user", 1, true, "x")]);
    assert_eq!(GuardConfig::load(Some(project()), Some(user())).patterns[0].id, "project");
    assert_eq!(GuardConfig::load(Some(project()), None).patterns[0].id, "project");
    assert_eq!(GuardConfig::load(None, Some(user())).patterns[0].id, "user");
    assert_eq!(GuardConfig::load(None, None).patterns.len(), 8);
}

#[test]
fn built_in_patterns_all_compile() {
    let (compiled, rejects) = GuardConfig::load_from_embedded().compile_with_rejects();
    assert_eq!(compiled.len(), 8);
    assert!(rejects.is_empty());
}

#[test]
fn built_in_ids_are_distinct() {
    let config = GuardConfig::load_from_embedded();
    for i in 0..config.patterns.len() {
        for j in 0..i {
            assert_ne!(config.patterns[i].id, config.patterns[j].id);
        }
    }
}

#[test]
fn patterns_that_do_not_compile_are_reported() {
    let (compiled, rejects) = config(vec![
        pattern("first", 1, true, "a("),
        pattern("good", 1, true, "a"),
        pattern("off", 1, false, "b("),
        pattern("second", 9, true, "(?!x)"),
    ])
    .compile_with_rejects();
    let ids: Vec<&str> = rejects.iter().map(|r| r.id.as_str()).collect();
    assert_eq!(ids, vec!["first", "second"]);
    assert_eq!(rejects[0].error, regex::Regex::new("a(").unwrap_err().to_string());
    assert!(rejects[0].error.contains("unclosed group"));
    assert_eq!(rejects[1].error, regex::Regex::new("(?!x)").unwrap_err().to_string());
    assert_eq!(compiled.len(), 1);
    assert_eq!(compiled[0].id, "good");
}

#[test]
fn patterns_of_one_priority_keep_their_order() {
    let compiled = config(vec![
        pattern("a", 5, true, "x"),
        pattern("b", 7, true, "x"),
        pattern("c", 5, true, "x"),
        pattern("d", 7, true, "x"),
        pattern("e", 6, true, "x"),
    ])
    .compile_patterns();
    let ids: Vec<&str> = compiled.iter().map(|p| p.id.as_str()).collect();
    assert_eq!(ids, vec!["b", "d", "e", "a", "c"]);
}

#[test]
fn the_triggered_pattern_of_the_highest_priority_decides() {
    let compiled = config(vec![
        pattern("low", 1, true, "x"),
        pattern("high", 9, true, "xy"),
        pattern("off", 99, false, "x"),
        pattern("broken", 99, true, "x("),
        pattern("same", 9, true, "y"),
    ])
    .compile_patterns();
    let reason = |segment: &str| evaluate_segment(segment, &compiled).map(|d| d.reason);
    assert_eq!(reason("xy"), Some("message of high".to_string()));
    assert_eq!(reason("x"), Some("message of low".to_string()));
    assert_eq!(reason("y"), Some("message of same".to_string()));
    assert_eq!(reason("z"), None);
}

#[test]
fn a_validator_can_withhold_a_match() {
    let mut guarded = pattern("guarded", 9, true, "^run");
    guarded.validator = Some(ValidatorConfig::NotContains { value: "--dry".to_string() });
    let compiled = config(vec![guarded, pattern("other", 1, true, "run")]).compile_patterns();
    assert!(is_triggered(&compiled[0], "run it"));
    assert!(!is_triggered(&compiled[0], "run it --dry"));
    assert!(!is_triggered(&compiled[0], "do run it"));
    assert_eq!(
        evaluate_segment("run it --dry", &compiled).unwrap().reason,
        "message of other"
    );
}

#[test]
fn no_patterns_allow_everything() {
    assert!(evaluate_command("rm -rf /; git push --force", &[]).is_none());
    assert!(evaluate_segment("rm -rf /", &[]).is_none());
}

#[test]
fn empty_segments_are_passed_over() {
    let compiled = config(vec![pattern("any", 1, true, "^")]).compile_patterns();
    assert!(evaluate_command("", &compiled).is_none());
    assert!(evaluate_command(" ; && | ", &compiled).is_none());
    assert!(evaluate_command(";x", &compiled).is_some());
    assert!(evaluate_segment("", &compiled).is_some());
}

#[test]
fn the_first_denied_segment_of_a_chain_gives_the_reason() {
    let compiled =
        config(vec![pattern("a", 1, true, "a"), pattern("b", 9, true, "b")]).compile_patterns();
    let reason = |command: &str| evaluate_command(command, &compiled).map(|d| d.reason);
    assert_eq!(reason("a && b"), Some("message of a".to_string()));
    assert_eq!(reason("b || a"), Some("message of b".to_string()));
    assert_eq!(reason("c | b"), Some("message of b".to_string()));
    assert_eq!(reason("c; d"), None);
}

#[test]
fn validators_can_be_read_from_toml() {
    let config = config_from_toml(
        r#"
[[patterns]]
id = "nested"
matcher = { type = "regex", pattern = 'go' }
validator = { type = "all_of", validators = [
    { type = "not", validator = { type = "not_contains", value = "now" } },
    { type = "any_of", validators = [
        { type = "flags_present", command = "go", flags = ["x"] },
        { type = "args_match_any", command = "go", values = ["far"] },
    ] },
] }
message = "no"
"#,
    );
    let compiled = config.compile_patterns();
    assert!(evaluate_segment("go far now", &compiled).is_some());
    assert!(evaluate_segment("go -x now", &compiled).is_some());
    assert!(evaluate_segment("go far", &compiled).is_none());
    assert!(evaluate_segment("go now", &compiled).is_none());
}

#[test]
fn the_denied_segment_and_its_pattern_are_found() {
    let compiled =
        config(vec![pattern("a", 1, true, "a"), pattern("b", 9, true, "b")]).compile_patterns();
    assert_eq!(find_triggered("ab", &compiled), Some(0));
    assert_eq!(find_triggered("a", &compiled), Some(1));
    assert_eq!(find_triggered("c", &compiled), None);
    assert_eq!(find_denied("c;; a && b", &compiled), Some(("a", 1)));
    assert_eq!(find_denied("c | d", &compiled), None);
}
