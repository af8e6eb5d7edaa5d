//! An earlier shape of the tokenizer configuration: explicit stop and
//! ignore lists instead of a match pattern.

use vstd::prelude::*;

verus! {

/// Token rule given as delimiter strings to split on, token strings to
/// drop, and a case-folding flag.
pub struct Tokenize {
    pub stop: Vec<String>,
    pub ignore: Vec<String>,
    pub ignore_case: bool,
}

impl Default for Tokenize {
    /// Splitting on a single space, dropping nothing, keeping case.
    fn default() -> (r: Tokenize)
        ensures
            r.stop@.len() == 1,
            r.stop@[0]@ == " "@,
            r.ignore@.len() == 0,
            !r.ignore_case,
    {
        let mut stop: Vec<String> = Vec::new();
        stop.push(" ".to_owned());
        Tokenize { stop, ignore: Vec::new(), ignore_case: false }
    }
}

/// Whole configuration of this earlier shape.
pub struct Config {
    pub tokenize: Tokenize,
}

} // verus!
