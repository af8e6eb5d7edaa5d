//! Plain configuration values for a corpus: the token rule, the corpus
//! name, its text files, and whether to persist statistics.
//!
//! Reading and writing the structured configuration file is left to the
//! caller, which hands the parsed values in here.

use vstd::prelude::*;

verus! {

/// The token-matching rule: a pattern string and a case-folding flag.
pub struct Tokenize {
    pub token: String,
    pub ignore_case: bool,
}

impl Default for Tokenize {
    /// An empty pattern, case kept.
    fn default() -> (r: Tokenize)
        ensures
            r.token@.len() == 0,
            !r.ignore_case,
    {
        Tokenize { token: String::new(), ignore_case: false }
    }
}

/// The corpus section: its name, the relative paths of its text files,
/// and whether per-file statistics are persisted.
pub struct Corpora {
    pub name: String,
    pub texts: Vec<String>,
    pub save_statistics: bool,
}

/// The whole configuration.
pub struct Config {
    pub tokenize: Tokenize,
    pub corpora: Corpora,
}

} // verus!
