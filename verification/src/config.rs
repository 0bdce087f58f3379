//! The configuration of one search run, and the run on a loaded text.

use vstd::prelude::*;
use vstd::string::*;
use crate::search::{matching_lines, matching_lines_folded, search, search_case_insensitive};

verus! {

/// The name of the environment variable that asks for a search without
/// regard to case. That it is set is what counts, not its value.
pub const IGNORE_CASE_VARIABLE: &'static str = "IGNORE_CASE";

/// What one run searches for, where, and how it compares.
#[derive(Debug)]
pub struct Config {
    pub query: String,
    pub file_path: String,
    pub ignore_case: bool,
}

/// Why no configuration could be built.
#[derive(Debug, Clone, Copy, PartialEq, Eq, Structural)]
pub enum ConfigError {
    /// Fewer than three arguments: the program's name, the query and the
    /// path of the file.
    InsufficientArguments,
}

impl ConfigError {
    /// The error in words.
    pub fn message(&self) -> (text: &'static str)
        ensures
            text@ == "Not enough arguments"@,
    {
        match self {
            ConfigError::InsufficientArguments => "Not enough arguments",
        }
    }
}

impl Config {
    /// Builds the configuration from the program's arguments and from the
    /// value of the environment variable `IGNORE_CASE_VARIABLE`, `None`
    /// where it is not set. The first argument is the program's name, the
    /// second the query, the third the path; further ones are ignored.
    pub fn build(args: &[String], case_flag: Option<&str>) -> (built: Result<Config, ConfigError>)
        ensures
            args@.len() < 3 ==> built == Err::<Config, ConfigError>(
                ConfigError::InsufficientArguments,
            ),
            args@.len() >= 3 ==> built is Ok && built->Ok_0.query@ == args@[1]@
                && built->Ok_0.file_path@ == args@[2]@ && built->Ok_0.ignore_case
                == case_flag is Some,
    {
        if args.len() < 3 {
            return Err(ConfigError::InsufficientArguments);
        }
        let query = args[1].clone();
        let file_path = args[2].clone();
        let ignore_case = case_flag.is_some();
        Ok(Config { query, file_path, ignore_case })
    }
}

/// The lines of `content` that a run with `config` prints, in order: those
/// that contain the query, compared as the configuration asks.
pub fn run<'a>(config: &Config, content: &'a str) -> (printed: Vec<&'a str>)
    ensures
        printed.deep_view() == (if config.ignore_case {
            matching_lines_folded(config.query@, content@)
        } else {
            matching_lines(config.query@, content@)
        }),
{
    if config.ignore_case {
        search_case_insensitive(config.query.as_str(), content)
    } else {
        search(config.query.as_str(), content)
    }
}

} // verus!
