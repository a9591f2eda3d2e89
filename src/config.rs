//! The settings of one search, taken from the command line and the environment.
use vstd::prelude::*;
use vstd::string::StringExecFns;
use vstd::string::StringSliceAdditionalSpecFns;
use vstd::utf8::encode_utf8;
use crate::search::{bytes_of_all, matching_lines, matching_lines_folded, search, search_case_insensitive};

verus! {

/// The environment variable whose presence asks for a case-insensitive search.
pub const IGNORE_CASE_VAR: &'static str = "IGNORE_CASE";

/// Error when the command line names no query.
pub const MISSING_QUERY: &'static str = "Didn't get a query string";

/// Error when the command line names no file.
pub const MISSING_FILE_PATH: &'static str = "Didn't get a file path";

/// What to search for, where, and whether case matters.
#[derive(Debug)]
pub struct Config {
    pub query: String,
    pub file_path: String,
    pub ignore_case: bool,
}

/// The environment, as name and value pairs, sets the variable `name`.
pub open spec fn env_has(env: Seq<(String, String)>, name: Seq<char>) -> bool {
    exists|i: int| 0 <= i < env.len() && (#[trigger] env[i]).0@ == name
}

impl Config {
    /// Reads the query and the file path from `args`, whose first element is
    /// the program's name, and turns case-insensitive search on when `env`
    /// has a variable `IGNORE_CASE`, whatever its value.
    pub fn build(args: &[String], env: &[(String, String)]) -> (r: Result<Config, &'static str>)
        ensures
            args@.len() < 2 ==> r == Err::<Config, &'static str>(MISSING_QUERY),
            args@.len() == 2 ==> r == Err::<Config, &'static str>(MISSING_FILE_PATH),
            args@.len() >= 3 ==> (r matches Ok(c) && c.query@ == args@[1]@ && c.file_path@
                == args@[2]@ && c.ignore_case == env_has(env@, IGNORE_CASE_VAR@)),
    {
        if args.len() < 2 {
            return Err(MISSING_QUERY);
        }
        if args.len() < 3 {
            return Err(MISSING_FILE_PATH);
        }
        let query = args[1].clone();
        let file_path = args[2].clone();
        let key = String::from_str(IGNORE_CASE_VAR);
        let mut ignore_case = false;
        let mut i: usize = 0;
        while i < env.len()
            invariant
                key@ == IGNORE_CASE_VAR@,
                i <= env@.len(),
                ignore_case == exists|j: int| 0 <= j < i && (#[trigger] env@[j]).0@ == key@,
            decreases env@.len() - i,
        {
            if env[i].0 == key {
                ignore_case = true;
            }
            i = i + 1;
        }
        Ok(Config { query, file_path, ignore_case })
    }
}

/// The lines of `contents` that match the query of `config`, with case
/// ignored when `config` asks for it.
pub fn select_lines<'a>(config: &Config, contents: &'a str) -> (r: Vec<&'a str>)
    ensures
        bytes_of_all(r@) == (if config.ignore_case {
            matching_lines_folded(encode_utf8(config.query@), contents.spec_bytes())
        } else {
            matching_lines(encode_utf8(config.query@), contents.spec_bytes())
        }),
{
    let query: &str = config.query.as_str();
    if config.ignore_case {
        search_case_insensitive(query, contents)
    } else {
        search(query, contents)
    }
}

} // verus!
