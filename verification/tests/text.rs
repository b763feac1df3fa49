//! Trimming, cutting into fields, searching and comparing.
use agent_guard::text::chars_of;
use agent_guard::text::contains_text;
use agent_guard::text::fields;
use agent_guard::text::is_whitespace;
use agent_guard::text::same_text;
use agent_guard::text::trim;
use agent_guard::text::trim_end_char;
use agent_guard::text::Separator;

const SAMPLES: [&str; 9] = [
    "",
    " ",
    "a",
    "  a b  c\t",
    "\u{a0}é\u{2003}",
    "\n\r\n",
    "a\u{200b} b",
    "/a//b/",
    "\u{3000}日本 語\u{85}",
];

#[test]
fn whitespace_is_that_of_unicode() {
    for c in '\0'..=char::MAX {
        assert_eq!(is_whitespace(c), c.is_whitespace(), "{:?}", c);
    }
}

#[test]
fn trim_takes_whitespace_off_both_ends() {
    assert_eq!(trim("  a b \t\n"), "a b");
    for s in SAMPLES {
        assert_eq!(trim(s), s.trim());
    }
}

#[test]
fn trim_twice_is_trim_once() {
    for s in SAMPLES {
        assert_eq!(trim(trim(s)), trim(s));
    }
}

#[test]
fn trim_end_char_takes_all_copies() {
    assert_eq!(trim_end_char("a/b//", '/'), "a/b");
    assert_eq!(trim_end_char("//", '/'), "");
    assert_eq!(trim_end_char("éé", 'é'), "");
    assert_eq!(trim_end_char("a", '/'), "a");
}

#[test]
fn fields_are_runs_between_separators() {
    assert_eq!(fields(":a::b:", Separator::Char(':')), vec!["a", "b"]);
    assert_eq!(fields("::", Separator::Char(':')), Vec::<&str>::new());
    for s in SAMPLES {
        let words: Vec<&str> = s.split_whitespace().collect();
        assert_eq!(fields(s, Separator::Whitespace), words);
    }
}

#[test]
fn texts_are_compared_whole() {
    assert!(same_text("", ""));
    assert!(same_text("é", "é"));
    assert!(!same_text("e", "é"));
    assert!(!same_text("ab", "a"));
    assert!(!same_text("ab", "ac"));
}

#[test]
fn texts_are_searched_for() {
    assert!(contains_text("abc", "bc"));
    assert!(contains_text("abc", ""));
    assert!(contains_text("", ""));
    assert!(contains_text("aab", "ab"));
    assert!(!contains_text("abc", "cb"));
    assert!(!contains_text("a", "ab"));
    assert!(contains_text("日本語", "本"));
}

#[test]
fn characters_are_listed_in_order() {
    assert_eq!(chars_of("aé日"), vec!['a', 'é', '日']);
}
