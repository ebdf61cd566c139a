use minigrep::search;
use minigrep::search_case_insensitive;

#[test]
fn case_sensitive() {
    let query = "duct";
    let contents = "Rust: \nsafe, fast, productive.\nPick three.\nDuct tape";
    assert_eq!(vec!["safe, fast, productive."], search(query, contents));
}

#[test]
fn case_insensitive() {
    let query = "rUsT";
    let contents = "Rust:\nsafe, fast, productive.\nPick three.\nTrust me.";
    assert_eq!(vec!["Rust:", "Trust me."], search_case_insensitive(query, contents));
}

#[test]
fn empty_query_returns_every_line() {
    let contents = "Rust:\nsafe, fast, productive.\nPick three.";
    assert_eq!(
        vec!["Rust:", "safe, fast, productive.", "Pick three."],
        search("", contents)
    );
}

#[test]
fn empty_query_case_insensitive_returns_every_line() {
    let contents = "Rust:\nsafe, fast, productive.";
    assert_eq!(
        vec!["Rust:", "safe, fast, productive."],
        search_case_insensitive("", contents)
    );
}

#[test]
fn empty_contents_give_no_lines() {
    assert_eq!(Vec::<&str>::new(), search("duct", ""));
    assert_eq!(Vec::<&str>::new(), search_case_insensitive("duct", ""));
}

#[test]
fn empty_query_on_empty_contents_gives_no_lines() {
    assert_eq!(Vec::<&str>::new(), search("", ""));
}

#[test]
fn search_is_case_sensitive() {
    assert_eq!(Vec::<&str>::new(), search("rUsT", "Rust:\nTrust me."));
}

#[test]
fn capitalized_match_is_skipped_by_case_sensitive_search() {
    let contents = "Rust:\nsafe, fast, productive.\nPick three.\nDuct tape";
    assert_eq!(vec!["safe, fast, productive."], search("duct", contents));
}

#[test]
fn searching_twice_yields_identical_output() {
    let query = "st";
    let contents = "Rust:\nsafe, fast, productive.\nPick three.\nTrust me.";
    let first = search(query, contents);
    let second = search(query, contents);
    assert_eq!(first, second);
}

#[test]
fn trailing_newline_opens_no_empty_line() {
    assert_eq!(vec!["a", "b"], search("", "a\nb\n"));
}

#[test]
fn carriage_returns_are_stripped_from_line_ends() {
    assert_eq!(vec!["one", "two", "three"], search("", "one\r\ntwo\r\nthree"));
    assert_eq!(vec!["two"], search("two", "one\r\ntwo\r\n"));
}

#[test]
fn interior_carriage_return_stays_in_the_line() {
    assert_eq!(vec!["a\rb"], search("b", "a\rb\nc"));
}

#[test]
fn blank_interior_lines_are_kept() {
    assert_eq!(vec!["a", "", "b"], search("", "a\n\nb"));
}

#[test]
fn repeated_matching_lines_appear_once_each() {
    assert_eq!(vec!["x", "x"], search("x", "x\ny\nx"));
}

#[test]
fn line_with_two_occurrences_is_reported_once() {
    assert_eq!(vec!["abab"], search("ab", "abab\nc"));
}

#[test]
fn query_spanning_a_line_break_matches_nowhere() {
    assert_eq!(Vec::<&str>::new(), search("a\nb", "a\nb"));
}

#[test]
fn case_insensitive_search_folds_beyond_ascii() {
    assert_eq!(
        vec!["ÄPFEL im Korb"],
        search_case_insensitive("äpfel", "ÄPFEL im Korb\nBirnen")
    );
}
