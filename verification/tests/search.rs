use minigrep::{search, search_case_insensitive};

#[test]
fn one_result() {
    let query = "safe";
    let content = "/\nRust:\nsafe, fast, productive.\npick three.";

    assert_eq!(vec!["safe, fast, productive."], search(query, content));
}

#[test]
fn case_sensitive() {
    let query = "duct";
    let content = "/\nRust:\nsafe, fast, productive.\npick three.\nDuct tape.";

    assert_eq!(vec!["safe, fast, productive."], search(query, content));
}

#[test]
fn case_insensitive() {
    let query = "rUst";
    let content = "/\nRust:\nsafe, fast, productive.\npick three.\nTrust me.";

    assert_eq!(
        vec!["Rust:", "Trust me."],
        search_case_insensitive(query, content)
    );
}

#[test]
fn exact_search_finds_the_one_line() {
    let content = "Rust:\nsafe, fast, productive.\npick three.";
    assert_eq!(search("safe", content), vec!["safe, fast, productive."]);
}

#[test]
fn exact_search_tells_capitals_apart() {
    let content = "Rust:\nsafe, fast, productive.\npick three.\nDuct tape.";
    assert_eq!(search("duct", content), vec!["safe, fast, productive."]);
    assert_eq!(search("Duct", content), vec!["Duct tape."]);
}

#[test]
fn folded_search_ignores_capitals() {
    let content = "Rust:\nsafe, fast, productive.\npick three.\nTrust me.";
    assert_eq!(
        search_case_insensitive("rUst", content),
        vec!["Rust:", "Trust me."]
    );
}

#[test]
fn folded_search_returns_lines_as_written() {
    let content = "ALPHA beta\nGamma\nalpha BETA";
    assert_eq!(
        search_case_insensitive("Alpha Beta", content),
        vec!["ALPHA beta", "alpha BETA"]
    );
}

#[test]
fn folded_search_folds_beyond_ascii() {
    let content = "\u{c9}COLE\n\u{e9}cole\necole";
    assert_eq!(
        search_case_insensitive("\u{c9}c", content),
        vec!["\u{c9}COLE", "\u{e9}cole"]
    );
    assert_eq!(search("\u{c9}c", content), Vec::<&str>::new());
}

#[test]
fn empty_query_finds_every_line() {
    let content = "one\n\ntwo\r\nthree";
    assert_eq!(search("", content), vec!["one", "", "two", "three"]);
    assert_eq!(
        search_case_insensitive("", content),
        vec!["one", "", "two", "three"]
    );
}

#[test]
fn empty_text_has_no_line_to_find() {
    assert_eq!(search("a", ""), Vec::<&str>::new());
    assert_eq!(search("", ""), Vec::<&str>::new());
    assert_eq!(search_case_insensitive("", ""), Vec::<&str>::new());
}

#[test]
fn absent_query_finds_nothing() {
    let content = "Rust:\nsafe, fast, productive.\npick three.";
    assert_eq!(search("monomorphization", content).len(), 0);
    assert_eq!(search_case_insensitive("MONO", content).len(), 0);
}

#[test]
fn query_does_not_match_across_lines() {
    assert_eq!(search("ab", "a\nb"), Vec::<&str>::new());
    assert_eq!(search("a\nb", "a\nb"), Vec::<&str>::new());
    assert_eq!(search("a\r", "a\r\nb"), Vec::<&str>::new());
}

#[test]
fn found_lines_keep_their_order_and_number() {
    let content = "b1\na\nb2\nb1\na\nb3";
    assert_eq!(search("b", content), vec!["b1", "b2", "b1", "b3"]);
    assert_eq!(search("a", content), vec!["a", "a"]);
    assert_eq!(
        search_case_insensitive("B", content),
        vec!["b1", "b2", "b1", "b3"]
    );
}

#[test]
fn folded_search_finds_what_exact_search_finds() {
    let content = "Rust:\nsafe, fast, productive.\npick three.\nTrust me.\nrust";
    for query in ["ust", "Rust", "e", "T", "", "pick three."] {
        let folded = search_case_insensitive(query, content);
        for line in search(query, content) {
            assert!(folded.contains(&line));
        }
    }
}

#[test]
fn final_sigma_escapes_the_folded_search() {
    let content = "\u{391}\u{3a3}";
    assert_eq!(search("\u{3a3}", content), vec!["\u{391}\u{3a3}"]);
    assert_eq!(
        search_case_insensitive("\u{3a3}", content),
        Vec::<&str>::new()
    );
}

#[test]
fn same_search_twice_gives_the_same_lines() {
    let content = "Rust:\nsafe, fast, productive.\npick three.\nTrust me.";
    assert_eq!(search("us", content), search("us", content));
    assert_eq!(
        search_case_insensitive("US", content),
        search_case_insensitive("US", content)
    );
}

#[test]
fn queries_beyond_ascii_match_whole_characters() {
    let content = "na\u{ef}ve\nnaive\n\u{65e5}\u{672c}\u{8a9e}\n\u{1f600} ok";
    assert_eq!(search("\u{ef}", content), vec!["na\u{ef}ve"]);
    assert_eq!(search("\u{672c}", content), vec!["\u{65e5}\u{672c}\u{8a9e}"]);
    assert_eq!(search("\u{1f600}", content), vec!["\u{1f600} ok"]);
    assert_eq!(search("\u{1f601}", content), Vec::<&str>::new());
}
