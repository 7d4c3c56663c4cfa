//! Upper and lower case.

use crate::compose;
use vstd::prelude::*;

verus! {

/// What `str::to_lowercase` makes of a text.
pub uninterp spec fn lowercase(s: Seq<char>) -> Seq<char>;

/// What `char::to_uppercase` makes of a character.
pub uninterp spec fn uppercase(c: char) -> Seq<char>;

/// The characters are all ASCII ones.
pub open spec fn is_ascii(s: Seq<char>) -> bool {
    forall|i: int| 0 <= i < s.len() ==> #[trigger] s[i] as u32 <= 127
}

/// `str::to_lowercase`: the text in lower case, which rests on the text alone. Of ASCII
/// characters it makes what `str::to_ascii_lowercase` makes of them: the capital letters become
/// small ones, and the others stay.
#[verifier::external_body]
pub(crate) fn to_lower_case(text: &str) -> (r: String)
    ensures
        r@ == lowercase(text@),
        is_ascii(text@) ==> r@ == compose::lowered(text@),
{
    text.to_lowercase()
}

/// `char::to_uppercase`: the characters that are the upper case of one, which rest on it alone.
#[verifier::external_body]
pub(crate) fn to_upper_case(c: char) -> (r: String)
    ensures
        r@ == uppercase(c),
{
    c.to_uppercase().collect()
}

} // verus!
