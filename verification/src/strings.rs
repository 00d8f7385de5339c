//! What this crate takes for granted of `String`, beyond what vstd says.

use vstd::prelude::*;

verus! {

/// `String::push`: the character is appended.
pub assume_specification[ String::push ](text: &mut String, letter: char)
    ensures
        final(text)@ == old(text)@.push(letter),
;

/// `String::pop`: the last character is removed and returned; an empty
/// string stays empty and gives `None`.
pub assume_specification[ String::pop ](text: &mut String) -> (letter: Option<char>)
    ensures
        old(text)@.len() > 0 ==> letter == Some(old(text)@.last()) && final(text)@ == old(
            text,
        )@.drop_last(),
        old(text)@.len() == 0 ==> letter == None::<char> && final(text)@ == old(text)@,
;

} // verus!
