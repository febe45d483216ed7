use minigrep::{contains_substring, matching_lines, search, search_case_insensitive, split_lines, Config};

#[test]
fn case_sensitive() {
    let query = "duct";
    let contents = "\
Rust:
safe, fast, productive.
Pick three.";

    assert_eq!(
        vec!["safe, fast, productive."],
        search(query, contents, false)
    );
}

#[test]
fn case_insensitive() {
    let query = "RusT";
    let contents = "\
Rust:
safe, fast, productive.
Pick three.
Trust me.";

    assert_eq!(
        vec!["Rust:", "Trust me."],
        search_case_insensitive(query, contents, false)
    );
}

#[test]
fn case_sensitive_inverse() {
    let query = "duct";
    let contents = "\
Rust:
safe, fast, productive.
Pick three.";

    assert_eq!(vec!["Rust:", "Pick three."], search(query, contents, true));
}

#[test]
fn case_insensitive_inverse() {
    let query = "RusT";
    let contents = "\
Rust:
safe, fast, productive.
Pick three.
Trust me.";

    assert_eq!(
        vec!["safe, fast, productive.", "Pick three."],
        search_case_insensitive(query, contents, true)
    );
}

#[test]
fn empty_query_returns_every_line() {
    let contents = "one\ntwo\nthree";
    assert_eq!(vec!["one", "two", "three"], search("", contents, false));
}

#[test]
fn empty_query_inverse_returns_no_lines() {
    let contents = "one\ntwo\nthree";
    assert_eq!(Vec::<&str>::new(), search("", contents, true));
}

#[test]
fn no_match_returns_empty() {
    let contents = "one\ntwo\nthree";
    assert_eq!(Vec::<&str>::new(), search("seven", contents, false));
}

#[test]
fn repeated_runs_are_identical() {
    let query = "RusT";
    let contents = "Rust:\nsafe, fast, productive.\nPick three.\nTrust me.";
    assert_eq!(
        search(query, contents, true),
        search(query, contents, true)
    );
    assert_eq!(
        search_case_insensitive(query, contents, false),
        search_case_insensitive(query, contents, false)
    );
}

#[test]
fn inverse_search_is_the_complement() {
    let query = "duct";
    let contents = "Rust:\nsafe, fast, productive.\nPick three.";
    let matched = search(query, contents, false);
    let inverse = search(query, contents, true);
    let complement: Vec<&str> = split_lines(contents)
        .into_iter()
        .filter(|line| !matched.contains(line))
        .collect();
    assert_eq!(complement, inverse);
}

#[test]
fn case_insensitive_search_equals_search_on_lowered_text() {
    let query = "RusT";
    let contents = "Rust:\nsafe, fast, productive.\nPick three.\nTrust me.";
    let insensitive: Vec<String> = search_case_insensitive(query, contents, false)
        .into_iter()
        .map(|line| line.to_lowercase())
        .collect();
    let lowered_query = query.to_lowercase();
    let lowered_contents = contents.to_lowercase();
    let on_lowered: Vec<&str> = search(&lowered_query, &lowered_contents, false);
    assert_eq!(insensitive, on_lowered);
}

#[test]
fn matching_lines_dispatches_on_ignore_case() {
    let contents = "Rust:\nTrust me.";
    let sensitive = Config {
        query: String::from("RusT"),
        file_path: String::from("poem.txt"),
        ignore_case: false,
        inverse: false,
    };
    let insensitive = Config {
        query: String::from("RusT"),
        file_path: String::from("poem.txt"),
        ignore_case: true,
        inverse: false,
    };
    assert_eq!(Vec::<&str>::new(), matching_lines(&sensitive, contents));
    assert_eq!(vec!["Rust:", "Trust me."], matching_lines(&insensitive, contents));
}

#[test]
fn split_lines_of_empty_text_is_empty() {
    assert_eq!(Vec::<&str>::new(), split_lines(""));
}

#[test]
fn split_lines_trailing_newline_adds_no_line() {
    assert_eq!(vec!["one", "two"], split_lines("one\ntwo\n"));
}

#[test]
fn split_lines_sole_newline_is_one_empty_line() {
    assert_eq!(vec![""], split_lines("\n"));
}

#[test]
fn split_lines_strips_carriage_returns() {
    assert_eq!(vec!["one", "two"], split_lines("one\r\ntwo\r\n"));
}

#[test]
fn split_lines_keeps_a_bare_trailing_carriage_return() {
    assert_eq!(vec!["abc\r"], split_lines("abc\r"));
    assert_eq!(vec!["one", "two\r"], split_lines("one\ntwo\r"));
    assert_eq!(vec!["a\r"], split_lines("a\r\r\n"));
}

#[test]
fn search_finds_a_bare_trailing_carriage_return() {
    assert_eq!(vec!["abc\r"], search("\r", "abc\r", false));
}

#[test]
fn empty_query_case_insensitive_boundary() {
    let contents = "One\nTwo\nThree";
    assert_eq!(
        vec!["One", "Two", "Three"],
        search_case_insensitive("", contents, false)
    );
    assert_eq!(
        Vec::<&str>::new(),
        search_case_insensitive("", contents, true)
    );
}

#[test]
fn split_lines_keeps_inner_empty_lines() {
    assert_eq!(vec!["one", "", "two"], split_lines("one\n\ntwo"));
}

#[test]
fn contains_substring_concrete_values() {
    assert!(contains_substring("hello world", "o w"));
    assert!(contains_substring("hello", "hello"));
    assert!(contains_substring("hello", ""));
    assert!(contains_substring("", ""));
    assert!(!contains_substring("hello", "world"));
    assert!(!contains_substring("ab", "abc"));
    assert!(!contains_substring("", "a"));
}
