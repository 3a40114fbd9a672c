//! The mathematical model: a set of words, and what the queries say of it.

use vstd::prelude::*;

verus! {

/// Some word of `words` starts with `prefix`.
pub open spec fn extends_to_word(words: Set<Seq<char>>, prefix: Seq<char>) -> bool {
    exists|w: Seq<char>| #[trigger] words.contains(w) && prefix.is_prefix_of(w)
}

/// What a prefix query answers: the empty prefix is always found, any other
/// one exactly when some word of `words` starts with it.
pub open spec fn has_prefix(words: Set<Seq<char>>, prefix: Seq<char>) -> bool {
    prefix.len() == 0 || extends_to_word(words, prefix)
}

/// The words stored after inserting `history`, in this order, into an empty
/// tree.
pub open spec fn words_after(history: Seq<Seq<char>>) -> Set<Seq<char>>
    decreases history.len(),
{
    if history.len() == 0 {
        Set::empty()
    } else {
        words_after(history.drop_last()).insert(history.last())
    }
}

} // verus!
