//! What a run of the search is asked to do.

use vstd::prelude::*;
use vstd::string::*;
use crate::fold::selected_lines;
use crate::matcher::{search, search_case_insensitive};
use crate::model::texts_of;

verus! {

/// A query, the path of the file to search, and whether case is ignored.
pub struct Config {
    query: String,
    file_path: String,
    ignore_case: bool,
}

/// What a `Config` holds, as plain values.
pub struct ConfigView {
    pub query: Seq<char>,
    pub file_path: Seq<char>,
    pub ignore_case: bool,
}

impl View for Config {
    type V = ConfigView;

    closed spec fn view(&self) -> ConfigView {
        ConfigView {
            query: self.query@,
            file_path: self.file_path@,
            ignore_case: self.ignore_case,
        }
    }
}

impl Config {
    /// The lines that this configuration selects from `contents`.
    pub open spec fn selects(&self, contents: Seq<char>) -> Seq<Seq<char>> {
        selected_lines(self@.query, contents, self@.ignore_case)
    }

    /// Reads a configuration off a command line. `args[0]` is the program's
    /// name, `args[1]` the query and `args[2]` the file's path; what follows
    /// is ignored. Without a query, or without a path, there is no
    /// configuration, and the error says which of the two is missing first.
    pub fn build(args: Vec<String>, ignore_case: bool) -> (built: Result<Config, &'static str>)
        ensures
            args@.len() <= 1 ==> built is Err && built->Err_0@ == "No query string specified"@,
            args@.len() == 2 ==> built is Err && built->Err_0@ == "No file path specified"@,
            args@.len() >= 3 ==> built is Ok && built->Ok_0@ == (ConfigView {
                query: args@[1]@,
                file_path: args@[2]@,
                ignore_case,
            }),
    {
        let mut args = args;
        if args.len() <= 1 {
            return Err("No query string specified");
        }
        if args.len() == 2 {
            return Err("No file path specified");
        }
        let file_path = args.swap_remove(2);
        let query = args.swap_remove(1);
        Ok(Config { query, file_path, ignore_case })
    }

    /// The query.
    pub fn query(&self) -> (query: &str)
        ensures
            query@ == self@.query,
    {
        self.query.as_str()
    }

    /// The path of the file to search.
    pub fn file_path(&self) -> (file_path: &str)
        ensures
            file_path@ == self@.file_path,
    {
        self.file_path.as_str()
    }

    /// Whether the search ignores case.
    pub fn ignore_case(&self) -> (ignore_case: bool)
        ensures
            ignore_case == self@.ignore_case,
    {
        self.ignore_case
    }

    /// Searches `contents` for the query, with or without regard to case as
    /// the configuration says.
    pub fn find_in<'a>(&self, contents: &'a str) -> (found: Vec<&'a str>)
        ensures
            texts_of(found@) == self.selects(contents@),
    {
        if self.ignore_case {
            search_case_insensitive(self.query.as_str(), contents)
        } else {
            search(self.query.as_str(), contents)
        }
    }
}

} // verus!
