//! Text in quotation marks, for error messages.

use vstd::prelude::*;

verus! {

/// What `{:?}` prints of a string that holds the characters `s`: the text in
/// double quotes, with the escapes that `Debug` for `str` writes.
pub uninterp spec fn debug_quoted(s: Seq<char>) -> Seq<char>;

/// `Debug` for `str`, through `format!`. Claims only that the text printed is
/// a function of the characters; which characters are escaped is left to the
/// standard library's tables.
#[verifier::external_body]
pub(crate) fn quote(s: &str) -> (r: String)
    ensures
        r@ == debug_quoted(s@),
{
    format!("{s:?}")
}

} // verus!
