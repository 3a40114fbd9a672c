//! What holds of every tree, stated over the set of words it stores.
//!
//! `Trie::new` gives the empty set and `Trie::insert` adds one word to it,
//! so after a history of insertions the tree stores `words_after` of that
//! history. Both queries answer from the stored set alone: the full-word
//! query by membership, the prefix query by `has_prefix`.

use crate::words::{has_prefix, words_after};
use vstd::prelude::*;

verus! {

/// A word is stored after a history of insertions exactly if the history
/// holds it.
pub proof fn lemma_words_after(history: Seq<Seq<char>>, word: Seq<char>)
    ensures
        words_after(history).contains(word) <==> history.contains(word),
    decreases history.len(),
{
    if history.len() > 0 {
        let earlier = history.drop_last();
        lemma_words_after(earlier, word);
        if history.contains(word) {
            let i = choose|i: int| 0 <= i < history.len() && history[i] == word;
            if i < earlier.len() {
                assert(earlier[i] == word);
            }
        }
        if earlier.contains(word) {
            let i = choose|i: int| 0 <= i < earlier.len() && earlier[i] == word;
            assert(history[i] == word);
        }
    }
}

/// A joined history holds what either part holds.
pub proof fn lemma_joined_history(first: Seq<Seq<char>>, second: Seq<Seq<char>>, word: Seq<char>)
    ensures
        (first + second).contains(word) <==> first.contains(word) || second.contains(word),
{
    let joined = first + second;
    if joined.contains(word) {
        let i = choose|i: int| 0 <= i < joined.len() && joined[i] == word;
        if i < first.len() {
            assert(first[i] == word);
        } else {
            assert(second[i - first.len()] == word);
        }
    }
    if first.contains(word) {
        let i = choose|i: int| 0 <= i < first.len() && first[i] == word;
        assert(joined[i] == word);
    }
    if second.contains(word) {
        let i = choose|i: int| 0 <= i < second.len() && second[i] == word;
        assert(joined[first.len() + i] == word);
    }
}

/// Once a word is inserted, the full-word query finds it.
pub proof fn law_inserted_word_is_found(words: Set<Seq<char>>, word: Seq<char>)
    ensures
        words.insert(word).contains(word),
{
}

/// Once a word is inserted, the prefix query finds each of its prefixes,
/// from the empty one to the word itself.
pub proof fn law_prefixes_of_inserted_word_are_found(
    words: Set<Seq<char>>,
    word: Seq<char>,
    prefix: Seq<char>,
)
    requires
        prefix.is_prefix_of(word),
    ensures
        has_prefix(words.insert(word), prefix),
{
    assert(words.insert(word).contains(word));
}

/// The full-word query does not find a word that was never inserted,
/// whether or not it begins or continues one that was.
pub proof fn law_only_inserted_words_are_found(history: Seq<Seq<char>>, word: Seq<char>)
    requires
        !history.contains(word),
    ensures
        !words_after(history).contains(word),
{
    lemma_words_after(history, word);
}

/// Inserting a word that is already stored changes nothing.
pub proof fn law_insert_is_idempotent(words: Set<Seq<char>>, word: Seq<char>)
    ensures
        words.insert(word).insert(word) == words.insert(word),
{
}

/// Where a history inserts a word once, inserting it any number of times in
/// a row at that place leaves the same words stored, and so the same answer
/// to every query.
pub proof fn law_repeated_insert_changes_nothing(
    before: Seq<Seq<char>>,
    word: Seq<char>,
    times: nat,
    after: Seq<Seq<char>>,
)
    requires
        times >= 1,
    ensures
        words_after(before + Seq::new(times, |i: int| word) + after) == words_after(
            before + seq![word] + after,
        ),
{
    let many = Seq::new(times, |i: int| word);
    let once = seq![word];
    assert forall|w: Seq<char>| many.contains(w) <==> once.contains(w) by {
        if many.contains(w) {
            let i = choose|i: int| 0 <= i < many.len() && many[i] == w;
            assert(once[0] == w);
        }
        if once.contains(w) {
            assert(many[0] == w);
        }
    }
    assert forall|w: Seq<char>|
        (before + many + after).contains(w) <==> (before + once + after).contains(w) by {
        lemma_joined_history(before, many, w);
        lemma_joined_history(before + many, after, w);
        lemma_joined_history(before, once, w);
        lemma_joined_history(before + once, after, w);
    }
    law_order_does_not_matter(before + many + after, before + once + after);
}

/// Two histories that insert the same words, in whatever order, leave the
/// same words stored, and so the same answer to every query.
pub proof fn law_order_does_not_matter(first: Seq<Seq<char>>, second: Seq<Seq<char>>)
    requires
        forall|w: Seq<char>| first.contains(w) <==> second.contains(w),
    ensures
        words_after(first) == words_after(second),
{
    assert forall|w: Seq<char>|
        words_after(first).contains(w) <==> words_after(second).contains(w) by {
        lemma_words_after(first, w);
        lemma_words_after(second, w);
    }
}

/// The prefix query finds the empty string in every tree, and the full-word
/// query finds it only once it was inserted.
pub proof fn law_empty_string(words: Set<Seq<char>>)
    ensures
        has_prefix(words, Seq::<char>::empty()),
        !words_after(Seq::<Seq<char>>::empty()).contains(Seq::<char>::empty()),
        words.insert(Seq::<char>::empty()).contains(Seq::<char>::empty()),
{
}

} // verus!
