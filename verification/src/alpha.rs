use vstd::prelude::*;

verus! {

/// What `char::is_alphabetic` returns for a character. The Unicode
/// `Alphabetic` property depends on the character alone, so the classification
/// is given a name here rather than being restated.
pub uninterp spec fn is_alpha(c: char) -> bool;

/// Relies on `char::is_alphabetic` of std: whether the character has the
/// Unicode `Alphabetic` property, a pure classification of the character.
pub assume_specification[ char::is_alphabetic ](c: char) -> (r: bool)
    ensures
        r == is_alpha(c),
;

} // verus!
