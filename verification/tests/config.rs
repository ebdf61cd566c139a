use minigrep::run_search;
use minigrep::Config;

fn args(list: &[&str]) -> Vec<String> {
    list.iter().map(|a| a.to_string()).collect()
}

#[test]
fn build_without_any_argument_reports_the_missing_query() {
    let result = Config::build(Vec::new(), false);
    assert_eq!(Err("Did not get a query string"), result.map(|_| ()));
}

#[test]
fn build_with_only_the_program_name_reports_the_missing_query() {
    let result = Config::build(args(&["minigrep"]), false);
    assert_eq!(Err("Did not get a query string"), result.map(|_| ()));
}

#[test]
fn build_without_a_file_path_reports_it() {
    let result = Config::build(args(&["minigrep", "duct"]), false);
    assert_eq!(Err("Did not get a file path"), result.map(|_| ()));
}

#[test]
fn build_takes_query_then_file_path() {
    let config = Config::build(args(&["minigrep", "duct", "poem.txt"]), false).unwrap();
    assert_eq!("duct", config.query);
    assert_eq!("poem.txt", config.file_path);
    assert!(!config.ignore_case);
}

#[test]
fn build_keeps_the_case_flag_it_is_given() {
    let relaxed = Config::build(args(&["minigrep", "duct", "poem.txt"]), true).unwrap();
    assert!(relaxed.ignore_case);
    let strict = Config::build(args(&["minigrep", "duct", "poem.txt"]), false).unwrap();
    assert!(!strict.ignore_case);
}

#[test]
fn build_ignores_arguments_past_the_file_path() {
    let config = Config::build(args(&["minigrep", "duct", "poem.txt", "extra"]), true).unwrap();
    assert_eq!("duct", config.query);
    assert_eq!("poem.txt", config.file_path);
}

#[test]
fn run_search_matches_case_sensitively_by_default() {
    let config = Config::build(args(&["minigrep", "Trust", "poem.txt"]), false).unwrap();
    let contents = "Rust:\nsafe, fast, productive.\nPick three.\nTrust me.\n";
    assert_eq!(vec!["Trust me."], run_search(&config, contents));
}

#[test]
fn run_search_dispatches_on_the_case_flag() {
    let contents = "Rust:\nsafe, fast, productive.\nPick three.\nTrust me.";
    let strict = Config::build(args(&["minigrep", "rust", "poem.txt"]), false).unwrap();
    assert_eq!(vec!["Trust me."], run_search(&strict, contents));
    let relaxed = Config::build(args(&["minigrep", "rust", "poem.txt"]), true).unwrap();
    assert_eq!(vec!["Rust:", "Trust me."], run_search(&relaxed, contents));
}
