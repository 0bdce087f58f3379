use minigrep::{contains, lines};

#[test]
fn line_feed_ends_a_line() {
    assert_eq!(lines("a\nb"), vec!["a", "b"]);
    assert_eq!(lines("one\ntwo\nthree"), vec!["one", "two", "three"]);
}

#[test]
fn carriage_return_before_line_feed_is_dropped() {
    assert_eq!(lines("a\r\nb"), vec!["a", "b"]);
    assert_eq!(lines("a\r\nb\r\n"), vec!["a", "b"]);
}

#[test]
fn only_one_carriage_return_is_dropped() {
    assert_eq!(lines("a\r\r\nb"), vec!["a\r", "b"]);
}

#[test]
fn carriage_return_elsewhere_stays() {
    assert_eq!(lines("a\rb\nc"), vec!["a\rb", "c"]);
    assert_eq!(lines("a\r"), vec!["a\r"]);
    assert_eq!(lines("a\n\rb"), vec!["a", "\rb"]);
}

#[test]
fn last_line_needs_no_ending() {
    assert_eq!(lines("a\nb"), lines("a\nb\n"));
    assert_eq!(lines("a"), vec!["a"]);
}

#[test]
fn empty_lines_are_lines() {
    assert_eq!(lines("\n"), vec![""]);
    assert_eq!(lines("\n\n"), vec!["", ""]);
    assert_eq!(lines("a\n\nb"), vec!["a", "", "b"]);
    assert_eq!(lines("\r\n"), vec![""]);
}

#[test]
fn empty_text_has_no_lines() {
    assert_eq!(lines(""), Vec::<&str>::new());
}

#[test]
fn lines_agree_with_the_standard_library() {
    let texts = [
        "",
        "\n",
        "\r",
        "\r\n",
        "a",
        "a\n",
        "a\r\n",
        "a\r\r\n",
        "\na",
        "a\n\n\nb\r\n\r\nc\r",
        "I'm nobody! Who are you?\r\nAre you nobody, too?\r\n",
        "\u{e9}t\u{e9}\n\u{65e5}\u{672c}\r\n\u{1f600}\n",
        "\u{85}\u{2028}x\n\u{a}",
    ];
    for text in texts {
        let expected: Vec<&str> = text.lines().collect();
        assert_eq!(lines(text), expected);
    }
}

#[test]
fn contains_finds_a_run_of_characters() {
    assert!(contains("safe, fast, productive.", "fast"));
    assert!(contains("safe, fast, productive.", "safe"));
    assert!(contains("safe, fast, productive.", "."));
    assert!(contains("abc", "abc"));
    assert!(!contains("abc", "abcd"));
    assert!(!contains("abc", "ac"));
    assert!(!contains("Duct tape.", "duct"));
}

#[test]
fn contains_finds_the_empty_text_everywhere() {
    assert!(contains("abc", ""));
    assert!(contains("", ""));
    assert!(!contains("", "a"));
}

#[test]
fn contains_agrees_with_the_standard_library() {
    let texts = ["", "a", "ab", "aab", "abab", "\u{e9}", "a\u{e9}b", "\u{65e5}\u{672c}", "\u{1f600}x"];
    for hay in texts {
        for needle in texts {
            assert_eq!(contains(hay, needle), hay.contains(needle));
        }
    }
}
