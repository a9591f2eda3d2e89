use minigrep::config::{MISSING_FILE_PATH, MISSING_QUERY};
use minigrep::lines::next_line;
use minigrep::text::contains_text;
use minigrep::{search, search_case_insensitive, select_lines, Config};

fn strings(v: &[&str]) -> Vec<String> {
    v.iter().map(|s| s.to_string()).collect()
}

#[test]
fn case_sensitive() {
    let query = "duct";
    let contents = "\
Rust:
Safe, fast, productive.
Pick three.";

    assert_eq!(vec!["Safe, fast, productive."], search(query, contents));
}

#[test]
fn case_insensitive() {
    let query = "rUsT";
    let contents = "\
Rust:
safe, fast, productive.
Pick three.
Trust me.";

    assert_eq!(
        vec!["Rust:", "Trust me."],
        search_case_insensitive(query, contents)
    );
}

#[test]
fn empty_query_returns_every_line() {
    let contents = "one\ntwo\n\nthree";
    assert_eq!(vec!["one", "two", "", "three"], search("", contents));
}

#[test]
fn absent_query_returns_nothing() {
    let contents = "alpha\nbeta\ngamma";
    assert!(search("delta", contents).is_empty());
    assert!(search_case_insensitive("DELTA", contents).is_empty());
}

#[test]
fn exact_matches_are_kept_when_case_is_ignored() {
    let contents = "Rust:\nsafe, fast\nTrust me.\nrust";
    let exact = search("rust", contents);
    let folded = search_case_insensitive("rust", contents);
    assert_eq!(vec!["Trust me.", "rust"], exact);
    assert_eq!(vec!["Rust:", "Trust me.", "rust"], folded);
    for line in exact {
        assert!(folded.contains(&line));
    }
}

#[test]
fn case_sensitive_search_respects_case() {
    assert_eq!(Vec::<&str>::new(), search("RUST", "rust\nRust"));
    assert_eq!(vec!["Rust"], search("Ru", "rust\nRust"));
}

#[test]
fn lines_end_at_newline_or_crlf() {
    let contents = "first\r\nsecond\nthird\n";
    assert_eq!(vec!["first", "second", "third"], search("", contents));
    assert_eq!(vec!["first"], search("st", "first\r\nsecond"));
    assert_eq!(vec!["a\r"], search("a", "a\r"));
}

#[test]
fn empty_content_has_no_lines() {
    assert!(search("", "").is_empty());
    assert!(search_case_insensitive("", "").is_empty());
}

#[test]
fn lone_newline_is_one_empty_line() {
    assert_eq!(vec![""], search("", "\n"));
    assert_eq!(vec!["", ""], search("", "\n\n"));
}

#[test]
fn multibyte_text_is_searched() {
    let contents = "héllo wörld\nplain\nGRÜN";
    assert_eq!(vec!["héllo wörld"], search("wö", contents));
    assert_eq!(vec!["GRÜN"], search_case_insensitive("grün", contents));
}

#[test]
fn next_line_splits_first_line() {
    assert_eq!(("ab", "cd\nef"), next_line("ab\r\ncd\nef"));
    assert_eq!(("last", ""), next_line("last"));
    assert_eq!(("", "x"), next_line("\nx"));
}

#[test]
fn contains_text_finds_substrings() {
    assert!(contains_text("productive", "duct"));
    assert!(contains_text("abc", ""));
    assert!(contains_text("", ""));
    assert!(!contains_text("", "a"));
    assert!(!contains_text("duc", "duct"));
    assert!(contains_text("abc", "abc"));
    assert!(!contains_text("aXc", "abc"));
}

#[test]
fn build_fails_without_query() {
    let env: Vec<(String, String)> = Vec::new();
    assert_eq!(MISSING_QUERY, Config::build(&strings(&["prog"]), &env).unwrap_err());
    assert_eq!(MISSING_QUERY, Config::build(&[], &env).unwrap_err());
}

#[test]
fn build_fails_without_file_path() {
    let env: Vec<(String, String)> = Vec::new();
    assert_eq!(
        MISSING_FILE_PATH,
        Config::build(&strings(&["prog", "q"]), &env).unwrap_err()
    );
}

#[test]
fn build_reads_query_and_path() {
    let env = vec![("HOME".to_string(), "/root".to_string())];
    let config = Config::build(&strings(&["prog", "q", "f"]), &env).unwrap();
    assert_eq!("q", config.query);
    assert_eq!("f", config.file_path);
    assert!(!config.ignore_case);
}

#[test]
fn build_ignores_case_when_variable_present() {
    let env = vec![
        ("PATH".to_string(), "/bin".to_string()),
        ("IGNORE_CASE".to_string(), String::new()),
    ];
    let config = Config::build(&strings(&["prog", "q", "f", "extra"]), &env).unwrap();
    assert!(config.ignore_case);
    let env = vec![("IGNORE_CASE_NOT".to_string(), "1".to_string())];
    let config = Config::build(&strings(&["prog", "q", "f"]), &env).unwrap();
    assert!(!config.ignore_case);
}

#[test]
fn select_lines_follows_config() {
    let contents = "Rust:\nsafe\nTrust me.";
    let mut config = Config {
        query: "rUsT".to_string(),
        file_path: "poem.txt".to_string(),
        ignore_case: false,
    };
    assert!(select_lines(&config, contents).is_empty());
    config.ignore_case = true;
    assert_eq!(vec!["Rust:", "Trust me."], select_lines(&config, contents));
}
