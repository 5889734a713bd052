use vstd::prelude::*;

verus! {

/// `String::push` of std: the character is appended at the end of the string,
/// and what the string held before stays in front of it.
pub assume_specification[ String::push ](s: &mut String, ch: char)
    ensures
        final(s)@ == old(s)@.push(ch),
;

} // verus!
