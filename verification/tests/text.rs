use irc::text::{replace_text, same_text, text_contains, text_starts_with, trim};

#[test]
fn trim_removes_unicode_white_space_at_both_ends() {
    assert_eq!(trim(" \t\r\n a b \u{3000}\u{85}"), "a b");
    assert_eq!(trim("   "), "");
    assert_eq!(trim(""), "");
    assert_eq!(trim(trim("  x  ")), trim("  x  "));
    for s in [" a ", "\u{a0}x\u{2028}", "\u{200b}y", "z"] {
        assert_eq!(trim(s), s.trim());
    }
}

#[test]
fn replace_matches_the_standard_library() {
    for (s, f, t) in [
        ("aaa", "aa", "b"),
        ("abc", "", "-"),
        ("", "", "-"),
        ("", "x", "y"),
        ("hello bot, bot", "bot", "sbw"),
        ("ababab", "aba", "X"),
    ] {
        assert_eq!(replace_text(s, f, t), s.replace(f, t), "{:?}", (s, f, t));
    }
}

#[test]
fn searching_and_comparing() {
    assert!(text_contains("somebot", "bot"));
    assert!(text_contains("x", ""));
    assert!(!text_contains("bo", "bot"));
    assert!(text_starts_with("https://github.com/a", "https://github.com/"));
    assert!(!text_starts_with("http", "https"));
    assert!(same_text("PING", "PING"));
    assert!(!same_text("PING", "PONG"));
    assert!(!same_text("PING", "PIN"));
}
