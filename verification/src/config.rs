//! The run configuration: the query, the file to search, and whether the
//! search is case-sensitive, built once from the command-line arguments and
//! the presence of the `CASE_INSENSITIVE` environment toggle.

use vstd::prelude::*;

verus! {

/// What one run searches for, where, and how.
pub struct Config {
    pub query: String,
    pub filename: String,
    pub case_sensitive: bool,
}

impl Config {
    /// Build a configuration from the command-line arguments — the first of
    /// which is the program name and is ignored — and from whether the
    /// `CASE_INSENSITIVE` environment variable is set.  The second argument
    /// is the query and the third the file name; each must be present, and
    /// the presence of the toggle switches the search to case-insensitive.
    pub fn new(args: &Vec<String>, case_insensitive_set: bool) -> (r: Result<
        Config,
        &'static str,
    >)
        ensures
            args@.len() >= 3 ==> (r matches Ok(c) && c.query@ == args@[1]@ && c.filename@
                == args@[2]@ && c.case_sensitive == !case_insensitive_set),
            args@.len() < 2 ==> (r matches Err(m) && m@ == "Didn't get a query string"@),
            args@.len() == 2 ==> (r matches Err(m) && m@ == "Didn't get a file name"@),
    {
        if args.len() < 2 {
            return Err("Didn't get a query string");
        }
        if args.len() < 3 {
            return Err("Didn't get a file name");
        }
        let query = args[1].clone();
        let filename = args[2].clone();
        Ok(Config { query, filename, case_sensitive: !case_insensitive_set })
    }
}

} // verus!
