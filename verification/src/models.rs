//! The configuration shape the pipeline consumes, and the test that
//! matches file names against a configured extension.

use vstd::prelude::*;
use crate::scan::str_eq;

verus! {

/// How files of one extension are scanned: the delimiters that bracket a
/// documentation block, and the character that marks a content line.
#[derive(Debug)]
pub struct ConfigFormat {
    pub extension: String,
    pub start: String,
    pub end: String,
    pub delimiter: char,
}

/// The configuration of a run: the ordering index, possibly empty, and
/// the recognized file formats.
#[derive(Debug)]
pub struct Config {
    pub index: Vec<String>,
    pub formats: Vec<ConfigFormat>,
}

/// `t` ends with `suffix`.
pub open spec fn ends_with(t: Seq<char>, suffix: Seq<char>) -> bool {
    t.len() >= suffix.len() && t.skip(t.len() - suffix.len()) == suffix
}

/// Decides whether a file name ends with the given extension.
pub fn matches_extension(name: &str, extension: &str) -> (r: bool)
    ensures
        r == ends_with(name@, extension@),
{
    let n = name.unicode_len();
    let m = extension.unicode_len();
    if m > n {
        return false;
    }
    let tail = name.substring_char(n - m, n);
    proof {
        assert(tail@ =~= name@.skip(n - m));
    }
    str_eq(tail, extension)
}

} // verus!
