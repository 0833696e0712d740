//! The path separator of the platform the library runs on.

use vstd::prelude::*;

verus! {

/// `std::path::MAIN_SEPARATOR`: the primary separator of path components on
/// this platform. std documents it as `\` on Windows and `/` elsewhere; the
/// contract states only that it is one of the two, since which one depends on
/// the platform the code was built for.
#[verifier::external_body]
pub(crate) fn main_separator() -> (c: char)
    ensures
        c == '/' || c == '\\',
{
    std::path::MAIN_SEPARATOR
}

} // verus!
