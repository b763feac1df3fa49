//! Keeping file tools inside the allowed directories.
use agent_guard::denial::DenyReason;
use agent_guard::path::components;
use agent_guard::path::is_within;
use agent_guard::path::normalize_path;
use agent_guard::resolve;
use agent_guard::sandbox;
use std::path::Path;

/// Asks the disk.
fn canonicalize(path: &str) -> Option<String> {
    Path::new(path).canonicalize().ok().map(|p| p.to_string_lossy().to_string())
}

fn resolve_path(path: &str) -> String {
    resolve::resolve_path(path, &canonicalize)
}

fn evaluate_file_path_with_allowed(
    tool_name: &str,
    file_path: &str,
    allowed: &str,
) -> Option<DenyReason> {
    sandbox::evaluate_file_path_with_allowed(tool_name, file_path, allowed, &canonicalize)
}

#[test]
fn file_path_allows_within_prefix() {
    let allowed = ["/tmp/worktrees/test", "/tmp"].join(":");
    let allowed = allowed.as_str();
    assert!(evaluate_file_path_with_allowed(
        "Edit",
        "/tmp/worktrees/test/src/main.rs",
        allowed
    )
    .is_none());
    assert!(evaluate_file_path_with_allowed("Write", "/tmp/somefile.txt", allowed).is_none());
}

#[test]
fn file_path_denies_outside_prefix() {
    let allowed = "/tmp/worktrees/test";
    let result =
        evaluate_file_path_with_allowed("Edit", "/Users/matt/real-repo/src/main.rs", allowed);
    assert!(result.is_some());
    assert!(result
        .unwrap()
        .reason
        .contains("outside the allowed workspace"));
}

#[test]
fn file_path_denies_read_outside() {
    let allowed = "/tmp/worktrees/test";
    let result =
        evaluate_file_path_with_allowed("Read", "/Users/matt/real-repo/secrets.env", allowed);
    assert!(result.is_some());
}

#[test]
fn file_path_multiple_prefixes() {
    let allowed = ["/tmp/worktrees/test", "/home/user/.kb", "/tmp"].join(":");
    let allowed = allowed.as_str();
    assert!(evaluate_file_path_with_allowed(
        "Write",
        "/home/user/.kb/workspace/task.md",
        allowed,
    )
    .is_none());
    assert!(
        evaluate_file_path_with_allowed("Edit", "/tmp/worktrees/test/code.rs", allowed)
            .is_none()
    );
    let result =
        evaluate_file_path_with_allowed("Edit", "/home/user/real-code/main.rs", allowed);
    assert!(result.is_some());
}

#[test]
fn file_path_denial_includes_tool_name() {
    let allowed = "/tmp/allowed";
    let result =
        evaluate_file_path_with_allowed("NotebookEdit", "/forbidden/notebook.ipynb", allowed)
            .unwrap();
    assert!(result.reason.contains("NotebookEdit"));
}

#[test]
fn file_path_denies_traversal_via_dotdot() {
    let allowed = "/tmp/worktrees/test";
    // Attempt to escape via .. in a non-existent path
    let result = evaluate_file_path_with_allowed(
        "Write",
        "/tmp/worktrees/test/nonexistent/../../etc/passwd",
        allowed,
    );
    assert!(result.is_some(), "path traversal via .. should be denied");
}

#[test]
fn file_path_denies_prefix_partial_match() {
    let allowed = "/tmp/safe";
    // /tmp/safevil should NOT match /tmp/safe
    let result = evaluate_file_path_with_allowed("Edit", "/tmp/safevil/malicious.sh", allowed);
    assert!(
        result.is_some(),
        "partial directory name match should be denied"
    );
}

#[test]
fn file_path_denies_empty_path() {
    let allowed = "/tmp/worktrees/test";
    let result = evaluate_file_path_with_allowed("Edit", "", allowed);
    assert!(result.is_some(), "empty path should be denied");
    assert!(result.unwrap().reason.contains("must be absolute"));
}

#[test]
fn file_path_denies_whitespace_only_path() {
    let allowed = "/tmp/worktrees/test";
    let result = evaluate_file_path_with_allowed("Write", "   ", allowed);
    assert!(result.is_some(), "whitespace-only path should be denied");
}

#[test]
fn file_path_denies_relative_path() {
    let allowed = "/tmp/worktrees/test";
    let result = evaluate_file_path_with_allowed("Write", "../../etc/passwd", allowed);
    assert!(result.is_some(), "relative path should be denied");
    assert!(result.unwrap().reason.contains("must be absolute"));
}

#[test]
fn resolve_path_handles_existing_paths() {
    let resolved = resolve_path("/tmp");
    assert!(resolved.starts_with('/'));
    // On macOS, /tmp -> /private/tmp
    assert!(resolved == "/tmp" || resolved == "/private/tmp");
}

#[test]
fn resolve_path_handles_nonexistent_files() {
    let resolved = resolve_path("/tmp/nonexistent_guard_test_file.rs");
    // Should resolve parent (/tmp or /private/tmp) + filename
    assert!(resolved.ends_with("nonexistent_guard_test_file.rs"));
}

/// A disk without any entry.
fn nothing(_path: &str) -> Option<String> {
    None
}

/// A disk with `/`, `/tmp`, which is a link to `/private/tmp`, and `/private/tmp/work`.
fn linked(path: &str) -> Option<String> {
    match path {
        "/" => Some("/".to_string()),
        "/tmp" | "/private/tmp" => Some("/private/tmp".to_string()),
        "/tmp/work" | "/private/tmp/work" => Some("/private/tmp/work".to_string()),
        _ => None,
    }
}

#[test]
fn components_are_those_of_the_standard_library() {
    for path in [
        "", "/", "//", ".", "..", "./", "./a", "a/.", "a/./b", "/a//b/", "/./a", "/../a", "../a",
        ".a", "..a", "a/..", "//a/./../b//", "...", " /a", "é/日/",
    ] {
        let expected: Vec<String> = Path::new(path)
            .components()
            .map(|c| c.as_os_str().to_string_lossy().to_string())
            .collect();
        assert_eq!(components(path), expected, "{}", path);
    }
}

#[test]
fn normal_forms_have_no_dots() {
    assert_eq!(normalize_path("/a/./b/../c"), "/a/c");
    assert_eq!(normalize_path("/../../a"), "/a");
    assert_eq!(normalize_path("/"), "/");
    assert_eq!(normalize_path("/a/.."), "/");
    assert_eq!(normalize_path("//a///b/"), "/a/b");
    assert_eq!(normalize_path("a/../../b"), "b");
    assert_eq!(normalize_path("./a"), "a");
    assert_eq!(normalize_path(".."), "");
    assert_eq!(normalize_path(""), "");
}

#[test]
fn normalizing_twice_is_normalizing_once() {
    for path in ["/a/../b", "a/./b", "../..", "/", "", "//x//..//y"] {
        let once = normalize_path(path);
        assert_eq!(normalize_path(&once), once);
    }
}

#[test]
fn within_compares_whole_components() {
    assert!(is_within("/tmp/safe/x", "/tmp/safe"));
    assert!(is_within("/tmp/safe", "/tmp/safe/"));
    assert!(is_within("/tmp/safe", "/"));
    assert!(!is_within("/tmp/safevil", "/tmp/safe"));
    assert!(!is_within("/tmp", "/tmp/safe"));
    assert!(!is_within("tmp/safe", "/tmp"));
    for (a, b) in [("/a/b", "/a"), ("/a", "/a/b"), ("a/b", "a"), ("/ab", "/a"), ("x", ""), ("./a", "a")] {
        assert_eq!(is_within(a, b), Path::new(a).starts_with(b), "{} {}", a, b);
    }
}

#[test]
fn within_can_be_chained() {
    assert!(is_within("/a/b/c", "/a/b"));
    assert!(is_within("/a/b", "/a"));
    assert!(is_within("/a/b/c", "/a"));
}

#[test]
fn known_paths_resolve_to_their_canonical_form() {
    assert_eq!(resolve::resolve_path("/tmp", &linked), "/private/tmp");
    assert_eq!(resolve::resolve_path("/tmp/work", &linked), "/private/tmp/work");
}

#[test]
fn unknown_paths_resolve_from_their_deepest_known_ancestor() {
    assert_eq!(resolve::resolve_path("/tmp/new.rs", &linked), "/private/tmp/new.rs");
    assert_eq!(resolve::resolve_path("/tmp/a/b/c", &linked), "/private/tmp/a/b/c");
    assert_eq!(resolve::resolve_path("/tmp/work/x", &linked), "/private/tmp/work/x");
    assert_eq!(resolve::resolve_path("/home/x", &linked), "/home/x");
}

#[test]
fn dots_in_unknown_parts_are_taken_out() {
    assert_eq!(resolve::resolve_path("/tmp/a/../b", &linked), "/private/tmp/b");
    assert_eq!(resolve::resolve_path("/tmp/work/x/../../y/z", &linked), "/private/tmp/y/z");
    assert_eq!(resolve::resolve_path("/x/..", &linked), "/");
}

#[test]
fn without_a_disk_paths_are_normalized() {
    for path in ["/a/b/../c", "/a", "a/./b", "..", "", "/"] {
        assert_eq!(resolve::resolve_path(path, &nothing), normalize_path(path));
    }
}

#[test]
fn resolution_agrees_with_the_disk() {
    let root = std::path::PathBuf::from("/");
    assert_eq!(resolve_path("/"), root.canonicalize().unwrap().to_string_lossy());
    assert_eq!(resolve_path("/no_such_entry/x/../y"), "/no_such_entry/y");
}

#[test]
fn links_are_followed_on_both_sides() {
    let check = |path: &str, allowed: &str| {
        sandbox::evaluate_file_path_with_allowed("Edit", path, allowed, &linked).is_none()
    };
    assert!(check("/tmp/work/x", "/private/tmp"));
    assert!(check("/private/tmp/work/x", "/tmp"));
    assert!(check("/tmp/new", "/tmp"));
    assert!(!check("/tmp/new", "/tmp/work"));
}

#[test]
fn denied_paths_are_named_in_the_reason() {
    let denial =
        sandbox::evaluate_file_path_with_allowed("Edit", " /etc/x ", "/tmp", &nothing).unwrap();
    assert_eq!(
        denial.reason,
        "Edit blocked: ' /etc/x ' is outside the allowed workspace. Stay within your worktree."
    );
    let denial =
        sandbox::evaluate_file_path_with_allowed("Write", "x/y", "/tmp", &nothing).unwrap();
    assert_eq!(denial.reason, "Write blocked: path must be absolute, got 'x/y'.");
    let denial = sandbox::evaluate_file_path_with_allowed("Read", "", "/tmp", &nothing).unwrap();
    assert_eq!(denial.reason, "Read blocked: path must be absolute, got ''.");
}

#[test]
fn paths_are_trimmed_before_they_are_checked() {
    assert!(
        sandbox::evaluate_file_path_with_allowed("Edit", " /tmp/x\n", "/tmp", &nothing).is_none()
    );
}

#[test]
fn no_list_or_an_empty_one_allows_every_path() {
    assert!(sandbox::evaluate_file_path("Edit", "/etc/passwd", None, &nothing).is_none());
    assert!(sandbox::evaluate_file_path("Edit", "relative", None, &nothing).is_none());
    assert!(sandbox::evaluate_file_path("Edit", "/etc/passwd", Some(""), &nothing).is_none());
    assert!(sandbox::evaluate_file_path("Edit", "/etc/passwd", Some("/tmp"), &nothing).is_some());
    assert!(sandbox::evaluate_file_path("Edit", "/tmp/x", Some("/tmp"), &nothing).is_none());
}

#[test]
fn a_list_of_nothing_but_colons_denies_every_path() {
    assert!(sandbox::evaluate_file_path("Edit", "/tmp/x", Some("::"), &nothing).is_some());
}

#[test]
fn lists_of_allowed_paths_add_up() {
    let check = |path: &str, allowed: &str| {
        sandbox::evaluate_file_path_with_allowed("Edit", path, allowed, &nothing).is_none()
    };
    for path in ["/a/x", "/b/x", "/c/x", "/a"] {
        assert_eq!(check(path, "/a::/b"), check(path, "/a") || check(path, "/b"));
    }
}

#[test]
fn an_allowed_directory_is_allowed_itself() {
    for directory in ["/tmp/work", "/tmp/", "/", "/x/../y"] {
        assert!(sandbox::evaluate_file_path_with_allowed("Edit", directory, directory, &linked)
            .is_none());
    }
}

/// A disk with `/`, `/w`, `/out`, and `/w/link`, which is a link to `/out`.
fn escaping(path: &str) -> Option<String> {
    match path {
        "/" | "/w" | "/out" => Some(path.to_string()),
        "/w/link" => Some("/out".to_string()),
        _ => None,
    }
}

#[test]
fn a_missing_entry_does_not_hide_a_link() {
    assert_eq!(resolve::resolve_path("/w/link/no/../f", &escaping), "/out/f");
    assert_eq!(resolve::resolve_path("/w/link/no/../../f", &escaping), "/f");
    assert!(sandbox::evaluate_file_path_with_allowed("Edit", "/w/link/no/../f", "/w", &escaping)
        .is_some());
    assert!(sandbox::evaluate_file_path_with_allowed("Edit", "/w/no/../f", "/w", &escaping)
        .is_none());
}

#[test]
fn resolving_twice_is_resolving_once() {
    for path in ["/tmp", "/tmp/new.rs", "/tmp/work/x/y", "/home/x", "/", "/w/link", "/w/link/a/b"] {
        for disk in [linked, escaping, nothing] {
            let once = resolve::resolve_path(path, &disk);
            assert_eq!(resolve::resolve_path(&once, &disk), once);
        }
        let once = resolve_path(path);
        assert_eq!(resolve_path(&once), once);
    }
}

#[test]
fn only_absolute_paths_are_resolved() {
    assert_eq!(sandbox::path_to_resolve(" /a b\n"), Some("/a b"));
    assert_eq!(sandbox::path_to_resolve("a"), None);
    assert_eq!(sandbox::path_to_resolve("  "), None);
}

#[test]
fn a_normal_form_is_absolute_exactly_if_the_path_is() {
    for path in ["/a/..", "/", "a/../b", "..", "", "./x", "/../x"] {
        assert_eq!(normalize_path(path).starts_with('/'), path.starts_with('/'));
    }
}
