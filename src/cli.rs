//! The settings a run of the rewriter is given.
use vstd::prelude::*;

verus! {

/// `std::path::PathBuf`, carried through as an opaque value.
#[verifier::external_type_specification]
#[verifier::external_body]
pub struct ExPathBuf(std::path::PathBuf);

/// Settings of one rewrite of a playlist.
#[derive(Debug, PartialEq, Eq)]
pub struct Args {
    /// Number of trailing path segments that must match.
    pub depth: u8,
    /// Whether file extensions count in a match.
    pub strict_extension: bool,
    /// The playlist to rewrite.
    pub path: std::path::PathBuf,
}

impl Args {
    /// Whether extensions are taken off names before they are matched.
    pub fn ignore_extension(&self) -> (r: bool)
        ensures
            r == !self.strict_extension,
    {
        !self.strict_extension
    }
}

/// Number of trailing path segments matched when no depth is given.
pub fn default_depth() -> (r: u8)
    ensures
        r == 1,
{
    1
}

} // verus!
