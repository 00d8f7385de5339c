//! What a dictionary answers when asked how a prefix may go on.

use vstd::prelude::*;

verus! {

/// One letter that may follow a prefix, and whether the prefix with that
/// letter is a whole word of the dictionary.
#[derive(Clone, Copy, Debug, PartialEq, Eq, Structural)]
pub struct NextLetter {
    pub char: char,
    pub would_be_word: bool,
}

/// The first candidate that carries `letter`, if there is one.
pub open spec fn first_offer(candidates: Seq<NextLetter>, letter: char) -> Option<NextLetter>
    decreases candidates.len(),
{
    if candidates.len() == 0 {
        None
    } else if candidates[0].char == letter {
        Some(candidates[0])
    } else {
        first_offer(candidates.drop_first(), letter)
    }
}

/// `letter` is among the candidates.
pub open spec fn offers(candidates: Seq<NextLetter>, letter: char) -> bool {
    first_offer(candidates, letter) is Some
}

/// `letter` is among the candidates, and the first candidate that carries it
/// says that it ends a word.
pub open spec fn completes(candidates: Seq<NextLetter>, letter: char) -> bool {
    first_offer(candidates, letter) matches Some(candidate) && candidate.would_be_word
}

/// Finds the first candidate that carries `letter`.
pub fn find_next_letter(candidates: &Vec<NextLetter>, letter: char) -> (found: Option<NextLetter>)
    ensures
        found == first_offer(candidates@, letter),
{
    let mut i: usize = 0;
    assert(candidates@.skip(0) =~= candidates@);
    while i < candidates.len()
        invariant
            i <= candidates.len(),
            first_offer(candidates@, letter) == first_offer(candidates@.skip(i as int), letter),
        decreases candidates.len() - i,
    {
        if candidates[i].char == letter {
            return Some(candidates[i]);
        }
        assert(candidates@.skip(i as int).drop_first() =~= candidates@.skip(i as int + 1));
        i = i + 1;
    }
    None
}

/// A letter is offered exactly if some candidate carries it.
pub proof fn lemma_offers_some_candidate(candidates: Seq<NextLetter>, letter: char)
    ensures
        offers(candidates, letter) <==> exists|i: int|
            0 <= i < candidates.len() && (#[trigger] candidates[i]).char == letter,
        first_offer(candidates, letter) matches Some(candidate) ==> candidate.char == letter
            && candidates.contains(candidate),
    decreases candidates.len(),
{
    if candidates.len() > 0 {
        let rest = candidates.drop_first();
        lemma_offers_some_candidate(rest, letter);
        if candidates[0].char == letter {
        } else {
            if offers(rest, letter) {
                let i = choose|i: int| 0 <= i < rest.len() && (#[trigger] rest[i]).char == letter;
                assert(candidates[i + 1] == rest[i]);
            }
            if exists|i: int| 0 <= i < candidates.len() && (#[trigger] candidates[i]).char == letter {
                let i = choose|i: int|
                    0 <= i < candidates.len() && (#[trigger] candidates[i]).char == letter;
                assert(rest[i - 1] == candidates[i]);
            }
            if first_offer(candidates, letter) is Some {
                let found = first_offer(candidates, letter)->0;
                let i = choose|i: int| 0 <= i < rest.len() && rest[i] == found;
                assert(candidates[i + 1] == found);
            }
        }
    }
}

} // verus!
