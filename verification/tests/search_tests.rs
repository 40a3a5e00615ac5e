use minigrep::{search, search_case_insensitive, split_lines};

#[test]
fn one_result() {
    let query = "duct";
    let content = "\
            Rust:\n\
            safe, fast, productive.\n\
            Pick three.
        ";

    assert_eq!(vec!["safe, fast, productive."], search(query, content));
}

#[test]
fn case_sensitive() {
    let query = "duct";
    let content = "\
            Rust:\n\
            safe, fast, productive.\n\
            Pick three.\n\
            Duct tape.
        ";

    assert_eq!(vec!["safe, fast, productive."], search(query, content));
}

#[test]
fn case_insensitive() {
    let query = "rUsT";
    let content = "\
            Rust:\n\
            safe, fast, productive.\n\
            Pick three.\n\
            Trust me.
        ";

    assert_eq!(vec!["Rust:", "Trust me."], search_case_insensitive(query, content));
}

#[test]
fn insensitive_search_is_a_strict_superset_when_casing_varies() {
    let query = "duct";
    let content = "Rust:\nsafe, fast, productive.\nPick three.\nDuct tape.";

    let sensitive = search(query, content);
    let insensitive = search_case_insensitive(query, content);

    assert_eq!(vec!["safe, fast, productive."], sensitive);
    assert_eq!(vec!["safe, fast, productive.", "Duct tape."], insensitive);
    assert!(sensitive.iter().all(|line| insensitive.contains(line)));
    assert!(sensitive.len() < insensitive.len());
}

#[test]
fn searching_twice_yields_identical_results() {
    let query = "st";
    let content = "Rust:\nsafe, fast, productive.\nPick three.";

    assert_eq!(search(query, content), search(query, content));
    assert_eq!(
        search_case_insensitive(query, content),
        search_case_insensitive(query, content),
    );
}

#[test]
fn absent_query_yields_empty_result() {
    let content = "Rust:\nsafe, fast, productive.\nPick three.";

    assert_eq!(Vec::<&str>::new(), search("monomorphization", content));
    assert_eq!(Vec::<&str>::new(), search_case_insensitive("monomorphization", content));
}

#[test]
fn query_matching_only_in_other_case_yields_empty_sensitive_result() {
    let content = "Duct tape.";

    assert_eq!(Vec::<&str>::new(), search("duct", content));
    assert_eq!(vec!["Duct tape."], search_case_insensitive("duct", content));
}

#[test]
fn empty_query_matches_every_line() {
    let content = "Rust:\nsafe, fast, productive.\nPick three.";

    assert_eq!(vec!["Rust:", "safe, fast, productive.", "Pick three."], search("", content));
    assert_eq!(
        vec!["Rust:", "safe, fast, productive.", "Pick three."],
        search_case_insensitive("", content),
    );
}

#[test]
fn empty_content_has_no_lines() {
    assert_eq!(Vec::<&str>::new(), search("", ""));
    assert_eq!(Vec::<&str>::new(), search_case_insensitive("q", ""));
}

#[test]
fn uppercase_query_is_lowercased_before_matching() {
    let content = "air duct\nnothing here";

    assert_eq!(vec!["air duct"], search_case_insensitive("DUCT", content));
}

#[test]
fn trailing_newline_opens_no_extra_line() {
    assert_eq!(vec!["a", "b"], split_lines("a\nb\n"));
    assert_eq!(vec!["a", "b"], split_lines("a\nb"));
    assert_eq!(vec![""], split_lines("\n"));
    assert_eq!(Vec::<&str>::new(), split_lines(""));
    assert_eq!(vec!["a", "", "b"], split_lines("a\n\nb"));
}

#[test]
fn carriage_return_line_feed_ends_a_line() {
    assert_eq!(vec!["a", "b"], split_lines("a\r\nb\r\n"));
    assert_eq!(vec![""], split_lines("\r\n"));
    assert_eq!(vec!["a\r"], split_lines("a\r"));
    assert_eq!(vec!["a\rb", "c"], split_lines("a\rb\nc"));
}
