//! The reference-counted strings of the `arcstr` crate.

use arcstr::ArcStr;
use vstd::prelude::*;

verus! {

/// The shared, immutable string of the `arcstr` crate, whose insides are private
/// to that crate.
#[verifier::external_type_specification]
#[verifier::external_body]
pub struct ExArcStr(arcstr::ArcStr);

/// The characters that an `ArcStr` holds.
pub uninterp spec fn arc_text(string: ArcStr) -> Seq<char>;

/// `ArcStr::as_str` borrows the text that the string holds.
pub assume_specification[ ArcStr::as_str ](string: &ArcStr) -> (text: &str)
    ensures
        text@ == arc_text(*string),
;

/// `ArcStr::clone` counts one more owner of the same allocation and returns it, so
/// that the clone is the string itself and no copy of its text.
pub assume_specification[ <ArcStr as Clone>::clone ](string: &ArcStr) -> (clone: ArcStr)
    ensures
        clone == *string,
;

/// `ArcStr::from` on a `&str` makes a string that holds a copy of the text. It
/// fails only where memory does: a text with no room left for the string's header
/// in one allocation counts as too long to copy.
#[verifier::external_body]
pub(crate) fn arc_from(text: &str) -> (string: ArcStr)
    ensures
        arc_text(string) == text@,
{
    ArcStr::from(text)
}

} // verus!
