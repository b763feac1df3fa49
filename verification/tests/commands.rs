//! The verdicts of the built-in configuration on commands.
use agent_guard::builtin;
use agent_guard::config::GuardConfig;
use agent_guard::denial::DenyReason;
use agent_guard::pattern;

/// Evaluates a command with the built-in configuration.
fn evaluate_command(command: &str) -> Option<DenyReason> {
    let patterns = GuardConfig::load(None, None).compile_patterns();
    pattern::evaluate_command(command, &patterns)
}

#[test]
fn denies_git_push_force() {
    assert!(evaluate_command("git push --force origin main").is_some());
}

#[test]
fn denies_git_push_f() {
    assert!(evaluate_command("git push -f origin main").is_some());
}

#[test]
fn allows_git_push_force_with_lease() {
    assert!(evaluate_command("git push --force-with-lease origin main").is_none());
}

#[test]
fn allows_git_push_force_with_lease_equals() {
    assert!(evaluate_command("git push --force-with-lease=main origin main").is_none());
}

#[test]
fn allows_normal_git_push() {
    assert!(evaluate_command("git push origin main").is_none());
}

#[test]
fn allows_git_push_no_force() {
    assert!(evaluate_command("git push").is_none());
}

#[test]
fn denies_git_reset_hard() {
    assert!(evaluate_command("git reset --hard").is_some());
}

#[test]
fn denies_git_reset_hard_with_ref() {
    assert!(evaluate_command("git reset --hard HEAD~3").is_some());
}

#[test]
fn allows_git_reset_soft() {
    assert!(evaluate_command("git reset --soft HEAD~1").is_none());
}

#[test]
fn allows_git_reset_no_flag() {
    assert!(evaluate_command("git reset HEAD file.txt").is_none());
}

#[test]
fn denies_git_clean_fd() {
    assert!(evaluate_command("git clean -fd").is_some());
}

#[test]
fn denies_git_clean_fdx() {
    assert!(evaluate_command("git clean -fdx").is_some());
}

#[test]
fn denies_git_clean_fxd() {
    assert!(evaluate_command("git clean -fxd").is_some());
}

#[test]
fn denies_git_clean_df() {
    assert!(evaluate_command("git clean -df").is_some());
}

#[test]
fn allows_git_clean_dry_run() {
    assert!(evaluate_command("git clean -nd").is_none());
}

#[test]
fn allows_git_clean_no_force() {
    assert!(evaluate_command("git clean -n").is_none());
}

#[test]
fn denies_git_checkout_dot() {
    assert!(evaluate_command("git checkout .").is_some());
}

#[test]
fn denies_git_checkout_dashdash_dot() {
    assert!(evaluate_command("git checkout -- .").is_some());
}

#[test]
fn allows_git_checkout_branch() {
    assert!(evaluate_command("git checkout main").is_none());
}

#[test]
fn allows_git_checkout_specific_file() {
    assert!(evaluate_command("git checkout -- src/main.rs").is_none());
}

#[test]
fn allows_git_checkout_b() {
    assert!(evaluate_command("git checkout -b feature/new").is_none());
}

#[test]
fn denies_rm_rf_dot() {
    assert!(evaluate_command("rm -rf .").is_some());
}

#[test]
fn denies_rm_rf_parent() {
    assert!(evaluate_command("rm -rf ..").is_some());
}

#[test]
fn denies_rm_rf_slash() {
    assert!(evaluate_command("rm -rf /").is_some());
}

#[test]
fn denies_rm_rf_meta() {
    assert!(evaluate_command("rm -rf .meta").is_some());
}

#[test]
fn denies_rm_rf_star() {
    assert!(evaluate_command("rm -rf *").is_some());
}

#[test]
fn denies_rm_fr_dot() {
    assert!(evaluate_command("rm -fr .").is_some());
}

#[test]
fn allows_rm_rf_specific_dir() {
    assert!(evaluate_command("rm -rf node_modules").is_none());
}

#[test]
fn allows_rm_rf_specific_path() {
    assert!(evaluate_command("rm -rf target/debug").is_none());
}

#[test]
fn allows_rm_without_rf() {
    assert!(evaluate_command("rm file.txt").is_none());
}

#[test]
fn denies_destructive_in_compound() {
    assert!(evaluate_command("git add . && git push --force").is_some());
}

#[test]
fn allows_safe_compound() {
    assert!(evaluate_command("git add . && git commit -m msg && git push").is_none());
}

#[test]
fn denies_second_segment_in_semicolon() {
    assert!(evaluate_command("echo hi; git reset --hard").is_some());
}

#[test]
fn allows_git_status() {
    assert!(evaluate_command("git status").is_none());
}

#[test]
fn allows_cargo_build() {
    assert!(evaluate_command("cargo build").is_none());
}

#[test]
fn allows_ls() {
    assert!(evaluate_command("ls -la").is_none());
}

#[test]
fn allows_meta_commands() {
    assert!(evaluate_command("meta git status").is_none());
    assert!(evaluate_command("meta exec -- cargo test").is_none());
}

#[test]
fn force_push_reason_suggests_lease() {
    let denial = evaluate_command("git push --force").unwrap();
    assert!(denial.reason.contains("--force-with-lease"));
}

#[test]
fn reset_hard_reason_suggests_snapshot() {
    let denial = evaluate_command("git reset --hard").unwrap();
    assert!(denial.reason.contains("snapshot"));
}

#[test]
fn clean_reason_suggests_dry_run() {
    let denial = evaluate_command("git clean -fd").unwrap();
    assert!(denial.reason.contains("-nd"));
}

#[test]
fn denies_force_push_piped() {
    assert!(evaluate_command("git push --force origin main | tee output.log").is_some());
}

#[test]
fn denies_reset_hard_piped() {
    assert!(evaluate_command("git reset --hard | cat").is_some());
}

#[test]
fn denies_git_clean_f_d_separate() {
    assert!(evaluate_command("git clean -f -d").is_some());
}

#[test]
fn denies_git_clean_d_f_separate() {
    assert!(evaluate_command("git clean -d -f").is_some());
}

#[test]
fn denies_git_clean_f_d_x_separate() {
    assert!(evaluate_command("git clean -f -d -x").is_some());
}

#[test]
fn allows_git_clean_f_only() {
    // -f alone without -d should be allowed (only removes files, not dirs)
    assert!(evaluate_command("git clean -f").is_none());
}

#[test]
fn denies_rm_rf_meta_yaml() {
    assert!(evaluate_command("rm -rf .meta.yaml").is_some());
}

#[test]
fn denies_rm_rf_meta_yml() {
    assert!(evaluate_command("rm -rf .meta.yml").is_some());
}

#[test]
fn denies_rm_rf_home_tilde() {
    assert!(evaluate_command("rm -rf ~").is_some());
}

#[test]
fn denies_rm_rf_home_var() {
    assert!(evaluate_command("rm -rf $HOME").is_some());
}

#[test]
fn denies_rm_rf_dot_star() {
    assert!(evaluate_command("rm -rf ./*").is_some());
}

#[test]
fn denies_rm_rf_parent_star() {
    assert!(evaluate_command("rm -rf ../*").is_some());
}

#[test]
fn denies_rm_rf_trailing_slash() {
    assert!(evaluate_command("rm -rf ./").is_some());
}

#[test]
fn denies_rm_rf_multiple_targets_with_dangerous() {
    // Should catch .meta even among safe targets
    assert!(evaluate_command("rm -rf node_modules .meta target").is_some());
}

#[test]
fn denies_git_branch_force_delete() {
    assert!(evaluate_command("git branch -D feature-branch").is_some());
}

#[test]
fn denies_git_branch_force_delete_multiple() {
    assert!(evaluate_command("git branch -D feat1 feat2").is_some());
}

#[test]
fn allows_git_branch_safe_delete() {
    assert!(evaluate_command("git branch -d feature-branch").is_none());
}

#[test]
fn allows_git_branch_list() {
    assert!(evaluate_command("git branch").is_none());
    assert!(evaluate_command("git branch -v").is_none());
    assert!(evaluate_command("git branch -a").is_none());
}

#[test]
fn allows_git_branch_create() {
    assert!(evaluate_command("git branch new-feature").is_none());
}

#[test]
fn branch_delete_reason_suggests_safe_alternative() {
    let denial = evaluate_command("git branch -D old-branch").unwrap();
    assert!(denial.reason.contains("git branch -d"));
    assert!(denial.reason.contains("safe delete"));
}

#[test]
fn denies_git_stash_drop() {
    assert!(evaluate_command("git stash drop").is_some());
}

#[test]
fn denies_git_stash_drop_with_ref() {
    assert!(evaluate_command("git stash drop stash@{0}").is_some());
}

#[test]
fn denies_git_stash_clear() {
    assert!(evaluate_command("git stash clear").is_some());
}

#[test]
fn allows_git_stash() {
    assert!(evaluate_command("git stash").is_none());
}

#[test]
fn allows_git_stash_push() {
    assert!(evaluate_command("git stash push -m 'WIP'").is_none());
}

#[test]
fn allows_git_stash_list() {
    assert!(evaluate_command("git stash list").is_none());
}

#[test]
fn allows_git_stash_show() {
    assert!(evaluate_command("git stash show").is_none());
    assert!(evaluate_command("git stash show stash@{0}").is_none());
}

#[test]
fn allows_git_stash_apply() {
    assert!(evaluate_command("git stash apply").is_none());
    assert!(evaluate_command("git stash apply stash@{1}").is_none());
}

#[test]
fn allows_git_stash_pop() {
    assert!(evaluate_command("git stash pop").is_none());
}

#[test]
fn stash_drop_reason_suggests_alternatives() {
    let denial = evaluate_command("git stash drop").unwrap();
    assert!(denial.reason.contains("git stash list"));
    assert!(denial.reason.contains("git stash apply"));
}

#[test]
fn stash_clear_reason_suggests_alternatives() {
    let denial = evaluate_command("git stash clear").unwrap();
    assert!(denial.reason.contains("ALL stash entries"));
    assert!(denial.reason.contains("git stash drop"));
}

#[test]
fn denies_force_push_piped_no_spaces() {
    assert!(evaluate_command("git push --force|tee output.log").is_some());
}

#[test]
fn denies_reset_hard_piped_no_spaces() {
    assert!(evaluate_command("git reset --hard|cat").is_some());
}

#[test]
fn pipe_in_compound_with_destructive() {
    assert!(evaluate_command("git add .|git commit -m msg && git push --force").is_some());
}

#[test]
fn compound_with_branch_delete() {
    assert!(evaluate_command("git checkout main && git branch -D old-feature").is_some());
}

#[test]
fn compound_with_stash_clear() {
    assert!(evaluate_command("git stash && git stash clear").is_some());
}

#[test]
fn all_new_patterns_in_one_chain() {
    assert!(
        evaluate_command("git branch -D feat1 && git stash drop && git reset --hard").is_some()
    );
}

#[test]
fn patterns_are_cached_across_evaluations() {
    // The patterns are loaded and compiled once
    let patterns = GuardConfig::load(None, None).compile_patterns();
    let result1 = pattern::evaluate_command("git status", &patterns);
    assert!(result1.is_none());

    // Later evaluations use the same patterns
    let result2 = pattern::evaluate_command("git push --force", &patterns);
    assert!(result2.is_some());

    let result3 = pattern::evaluate_command("git branch -D test", &patterns);
    assert!(result3.is_some());
}

#[test]
fn each_built_in_pattern_gives_its_own_reason() {
    for (command, message) in [
        ("git push -f", builtin::FORCE_PUSH_MESSAGE),
        ("git reset --hard", builtin::RESET_HARD_MESSAGE),
        ("git clean -fd", builtin::CLEAN_FORCE_MESSAGE),
        ("git checkout -- .", builtin::CHECKOUT_DOT_MESSAGE),
        ("git branch -D x", builtin::BRANCH_FORCE_DELETE_MESSAGE),
        ("git stash drop", builtin::STASH_DROP_MESSAGE),
        ("git stash clear", builtin::STASH_CLEAR_MESSAGE),
        ("rm -rf *", builtin::DANGEROUS_RM_MESSAGE),
    ] {
        assert_eq!(evaluate_command(command).unwrap().reason, message, "{}", command);
    }
}

#[test]
fn chaining_hides_nothing() {
    for op in ["&&", "||", ";", "|", " && ", " || ", " ; ", " | "] {
        assert!(evaluate_command(&format!("ls{}git reset --hard", op)).is_some());
        assert!(evaluate_command(&format!("git reset --hard{}ls", op)).is_some());
        assert!(evaluate_command(&format!("ls{}pwd", op)).is_none());
    }
}

#[test]
fn a_safe_push_does_not_excuse_a_forced_one() {
    assert!(evaluate_command("git push --force-with-lease && git push --force").is_some());
}

#[test]
fn blank_commands_are_allowed() {
    assert!(evaluate_command("").is_none());
    assert!(evaluate_command(" \t ").is_none());
    assert!(evaluate_command("&& || ; |").is_none());
}
