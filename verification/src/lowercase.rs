//! Lowercase, as the standard library makes it.
//!
//! Putting a text in lowercase is left to `str::to_lowercase`. Nothing here
//! proves what it returns: the library takes its word, and only this much of
//! it, that the same text always gives the same lowercase form.

use vstd::prelude::*;

verus! {

/// The lowercase form that `str::to_lowercase` gives a text.
pub uninterp spec fn lowercase(text: Seq<char>) -> Seq<char>;

/// `str::to_lowercase` of the standard library: the text in lowercase, by
/// Unicode's rules, as a new `String`. The result is a function of the text
/// alone; the contract gives it the name `lowercase` and says nothing else of it.
pub assume_specification[ str::to_lowercase ](text: &str) -> (lowered: String)
    ensures
        lowered@ == lowercase(text@),
;

} // verus!
