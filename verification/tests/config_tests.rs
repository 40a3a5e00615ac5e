use minigrep::{run_search, Config};

fn args(items: &[&str]) -> Vec<String> {
    items.iter().map(|s| s.to_string()).collect()
}

#[test]
fn missing_filename_is_reported() {
    let r = Config::new(&args(&["prog", "duct"]), false);
    assert_eq!(Err("Didn't get a file name"), r.map(|_| ()));
}

#[test]
fn missing_query_is_reported() {
    let r = Config::new(&args(&["prog"]), false);
    assert_eq!(Err("Didn't get a query string"), r.map(|_| ()));
}

#[test]
fn full_arguments_build_a_case_sensitive_config() {
    let c = Config::new(&args(&["prog", "duct", "poem.txt"]), false).unwrap();
    assert_eq!("duct", c.query);
    assert_eq!("poem.txt", c.filename);
    assert!(c.case_sensitive);
}

#[test]
fn env_toggle_disables_case_sensitivity() {
    let c = Config::new(&args(&["prog", "rUsT", "poem.txt"]), true).unwrap();
    assert!(!c.case_sensitive);

    let content = "Rust:\nTrust me.\nnothing";
    assert_eq!(vec!["Rust:", "Trust me."], run_search(&c, content));
}

#[test]
fn case_sensitive_config_selects_exact_search() {
    let c = Config::new(&args(&["prog", "duct", "poem.txt"]), false).unwrap();

    let content = "safe, fast, productive.\nDuct tape.";
    assert_eq!(vec!["safe, fast, productive."], run_search(&c, content));
}
