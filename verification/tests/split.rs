//! Cutting compound commands.
use agent_guard::split::find_standalone_pipe;
use agent_guard::split::split_compound_command;

#[test]
fn split_simple_command() {
    assert_eq!(split_compound_command("git status"), vec!["git status"]);
}

#[test]
fn split_and_chain() {
    assert_eq!(
        split_compound_command("git add . && git commit -m msg"),
        vec!["git add .", "git commit -m msg"]
    );
}

#[test]
fn split_or_chain() {
    assert_eq!(split_compound_command("cmd1 || cmd2"), vec!["cmd1", "cmd2"]);
}

#[test]
fn split_semicolon() {
    assert_eq!(split_compound_command("cmd1; cmd2"), vec!["cmd1", "cmd2"]);
}

#[test]
fn split_mixed_delimiters() {
    assert_eq!(
        split_compound_command("cmd1 && cmd2; cmd3 || cmd4"),
        vec!["cmd1", "cmd2", "cmd3", "cmd4"]
    );
}

#[test]
fn split_pipe_delimiter() {
    assert_eq!(
        split_compound_command("git push --force | tee log.txt"),
        vec!["git push --force", "tee log.txt"]
    );
}

#[test]
fn split_pipe_does_not_confuse_or() {
    // " || " should be matched as OR, not as two pipes
    assert_eq!(split_compound_command("cmd1 || cmd2"), vec!["cmd1", "cmd2"]);
}

#[test]
fn split_pipe_no_spaces() {
    assert_eq!(
        split_compound_command("git status|tee log.txt"),
        vec!["git status", "tee log.txt"]
    );
}

#[test]
fn split_pipe_mixed_spacing() {
    assert_eq!(
        split_compound_command("cmd1|cmd2 | cmd3"),
        vec!["cmd1", "cmd2", "cmd3"]
    );
}

#[test]
fn split_does_not_break_or_without_spaces() {
    // "cmd1||cmd2" should still be treated as OR (not two pipes)
    assert_eq!(split_compound_command("cmd1||cmd2"), vec!["cmd1", "cmd2"]);
}

#[test]
fn split_cuts_at_every_delimiter() {
    assert_eq!(split_compound_command("a&&b||c;d|e"), vec!["a", "b", "c", "d", "e"]);
}

#[test]
fn split_keeps_empty_segments() {
    assert_eq!(split_compound_command(""), vec![""]);
    assert_eq!(split_compound_command("  "), vec![""]);
    assert_eq!(split_compound_command(";"), vec!["", ""]);
    assert_eq!(split_compound_command("a ;; b"), vec!["a", "", "b"]);
}

#[test]
fn split_takes_two_bars_before_one() {
    assert_eq!(split_compound_command("|||"), vec!["", "", ""]);
    assert_eq!(split_compound_command("a|||b"), vec!["a", "", "b"]);
    assert_eq!(split_compound_command("a||||b"), vec!["a", "", "b"]);
}

#[test]
fn split_leaves_single_ampersands() {
    assert_eq!(split_compound_command("a & b"), vec!["a & b"]);
    assert_eq!(split_compound_command("a &&& b"), vec!["a", "& b"]);
}

#[test]
fn split_does_not_look_at_quotes() {
    assert_eq!(split_compound_command("echo 'a;b'"), vec!["echo 'a", "b'"]);
}

#[test]
fn split_handles_text_beyond_ascii() {
    assert_eq!(
        split_compound_command("écho ß|\u{3000}日本 && \u{1F600};é"),
        vec!["écho ß", "日本", "\u{1F600}", "é"]
    );
}

#[test]
fn segments_are_their_own_only_segments() {
    for segment in split_compound_command(" a  b && c| d;e || | f ") {
        assert_eq!(split_compound_command(segment), vec![segment]);
    }
}

#[test]
fn segments_of_a_chain_are_those_of_its_parts() {
    let a = "x | y";
    let b = "z; w";
    for op in ["&&", "||", ";", "|"] {
        let chain = format!("{}{}{}", a, op, b);
        let mut parts = split_compound_command(a);
        parts.extend(split_compound_command(b));
        assert_eq!(split_compound_command(&chain), parts);
    }
}

#[test]
fn standalone_pipe_is_found_by_its_byte() {
    assert_eq!(find_standalone_pipe("a|b"), Some(1));
    assert_eq!(find_standalone_pipe("é|b"), Some(2));
    assert_eq!(find_standalone_pipe("a||b|c"), Some(4));
    assert_eq!(find_standalone_pipe("|"), Some(0));
}

#[test]
fn standalone_pipe_is_no_part_of_a_longer_run() {
    assert_eq!(find_standalone_pipe(""), None);
    assert_eq!(find_standalone_pipe("a||b"), None);
    assert_eq!(find_standalone_pipe("|||"), None);
    assert_eq!(find_standalone_pipe("a && b"), None);
}
