//! The failure a template can be rejected with.

use vstd::prelude::*;

verus! {

/// Why compiling a template failed.
#[derive(Debug, PartialEq, Eq, Clone, Copy)]
pub enum Error {
    /// The template text is malformed: a tag or a section is left open, a
    /// delimiter change is incomplete, or a section is closed that is not the
    /// innermost open one.
    Parse,
}

/// What compiling returns.
pub type Result<T> = std::result::Result<T, Error>;

} // verus!
