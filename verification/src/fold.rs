//! Case folding, as the standard library does it.

use vstd::prelude::*;
use vstd::string::*;

verus! {

/// The lower-case form of a text: what `str::to_lowercase` returns for it.
/// It depends on the characters alone, not on a locale, and may differ in
/// length from the text it was made from.
pub uninterp spec fn lowercase(s: Seq<char>) -> Seq<char>;

/// `str::to_lowercase` of the standard library. Nothing is proved of it: the
/// contract only gives its result the name `lowercase`, so that two calls
/// on equal texts are known to return equal texts.
pub assume_specification[ str::to_lowercase ](s: &str) -> (folded: String)
    ensures
        folded@ == lowercase(s@),
;

} // verus!
