//! The tree itself: its nodes, how it is built and how it is searched.

use crate::words::{extends_to_word, has_prefix};
use std::collections::HashMap;
use vstd::prelude::*;

verus! {

/// A node of the prefix tree: one child for each symbol that continues a
/// stored word from here, and a flag that says whether a stored word ends
/// here.
///
/// Children are keyed by the symbol's scalar value.
#[derive(Debug)]
pub struct TrieNode {
    children: HashMap<u32, Box<TrieNode>>,
    is_end_of_word: bool,
}

/// A set of words, held as a prefix tree.
///
/// The view of a `Trie` is the set of words that were inserted into it.
#[derive(Debug)]
pub struct Trie {
    root: TrieNode,
}

impl TrieNode {
    /// Whether a stored word ends at this node.
    pub closed spec fn ends_word(&self) -> bool {
        self.is_end_of_word
    }

    /// The children of this node, each under the scalar value of the symbol
    /// that leads to it.
    pub closed spec fn edges(&self) -> Map<u32, Box<TrieNode>> {
        self.children@
    }

    /// Following `word` from this node, symbol by symbol, ends at a node
    /// that is marked as the end of a word.
    pub open spec fn accepts(&self, word: Seq<char>) -> bool
        decreases word.len(),
    {
        if word.len() == 0 {
            self.ends_word()
        } else {
            let key = word[0] as u32;
            self.edges().contains_key(key) && self.edges()[key].accepts(word.drop_first())
        }
    }

    /// `path` can be followed from this node, symbol by symbol, to its end.
    pub open spec fn reaches(&self, path: Seq<char>) -> bool
        decreases path.len(),
    {
        if path.len() == 0 {
            true
        } else {
            let key = path[0] as u32;
            self.edges().contains_key(key) && self.edges()[key].reaches(path.drop_first())
        }
    }

    /// A node without children at which no word ends.
    pub fn new() -> (node: Self)
        ensures
            !node.ends_word(),
            node.edges() == Map::<u32, Box<TrieNode>>::empty(),
    {
        Self { children: HashMap::new(), is_end_of_word: false }
    }
}

impl View for Trie {
    type V = Set<Seq<char>>;

    closed spec fn view(&self) -> Set<Seq<char>> {
        Set::new(|w: Seq<char>| self.root.accepts(w))
    }
}

impl Trie {
    /// Every path that leaves the root leads on to the end of a stored word:
    /// the tree holds no node that no word needs.
    #[verifier::type_invariant]
    spec fn no_dead_branch(&self) -> bool {
        forall|p: Seq<char>|
            p.len() > 0 && #[trigger] self.root.reaches(p) ==> exists|w: Seq<char>|
                p.is_prefix_of(w) && #[trigger] self.root.accepts(w)
    }

    /// The paths of the tree are the prefixes of its words, besides the
    /// empty one, which is always there.
    proof fn lemma_paths_are_prefixes(&self, path: Seq<char>)
        requires
            self.no_dead_branch(),
        ensures
            self.root.reaches(path) == has_prefix(self@, path),
    {
        if path.len() > 0 {
            if self.root.reaches(path) {
                let w = choose|w: Seq<char>| path.is_prefix_of(w) && #[trigger] self.root.accepts(w);
                assert(self@.contains(w));
            }
            if extends_to_word(self@, path) {
                let w = choose|w: Seq<char>| #[trigger] self@.contains(w) && path.is_prefix_of(w);
                self.root.lemma_prefix_of_accepted(w, path.len() as int);
                assert(w.take(path.len() as int) =~= path);
            }
        }
    }

    /// An empty tree.
    pub fn new() -> (trie: Self)
        ensures
            trie@ == Set::<Seq<char>>::empty(),
    {
        let root = TrieNode::new();
        proof {
            root.lemma_leaf();
        }
        Self { root }
    }

    /// Adds `word` to the stored words. Nothing else changes: a word that
    /// was stored stays, and one that was not is not found afterwards unless
    /// it is `word`.
    pub fn insert(&mut self, word: &str)
        ensures
            final(self)@ == old(self)@.insert(word@),
            final(self)@.contains(word@),
            forall|p: Seq<char>| p.is_prefix_of(word@) ==> has_prefix(final(self)@, p),
    {
        proof {
            use_type_invariant(&*self);
        }
        // The walk below leaves the tree unfinished until its last step, so
        // it works on the root taken out of `self`.
        let mut root = TrieNode::new();
        std::mem::swap(&mut root, &mut self.root);
        let ghost root0 = root;
        let mut node = &mut root;
        proof {
            final(node).lemma_grafts_at_root(root0);
        }
        for c in it: word.chars()
            invariant
                it.seq() == word@,
                node.hangs_below(root0, word@.take(it.index())),
                after_borrow(root).grafts(root0, word@.take(it.index()), *final(node)),
        {
            let ghost path = word@.take(it.index());
            let ghost before = *node;
            let ghost parent = *final(node);
            node = node.children.entry(c as u32).or_insert(Box::new(TrieNode::new()));
            proof {
                assert(word@.take(it.index() + 1) =~= path.push(c));
                before.lemma_hangs_below_step(root0, path, c, *node);
                after_borrow(root).lemma_grafts_step(root0, path, before, parent, c, *final(node));
            }
        }
        let ghost before = *node;
        node.is_end_of_word = true;
        proof {
            assert(word@.take(word@.len() as int) =~= word@);
            root.lemma_grafts_marked(root0, word@, before, *node);
            assert forall|p: Seq<char>| p.len() > 0 && #[trigger] root.reaches(p) implies exists|
                w: Seq<char>,
            |
                p.is_prefix_of(w) && #[trigger] root.accepts(w) by {
                if p.is_prefix_of(word@) {
                    assert(root.accepts(word@));
                } else {
                    let w = choose|w: Seq<char>| p.is_prefix_of(w) && #[trigger] root0.accepts(w);
                    assert(root.accepts(w));
                }
            }
        }
        self.root = root;
        proof {
            assert forall|p: Seq<char>| p.is_prefix_of(word@) implies has_prefix(self@, p) by {
                assert(self@.contains(word@));
            }
        }
    }

    /// Follows `word` from the root. For a prefix query the answer is
    /// whether the walk got to the end of `word`; for a full-word query,
    /// whether it ended at the end of a stored word.
    fn search(&mut self, word: &str, prefix: bool) -> (found: bool)
        ensures
            *final(self) == *old(self),
            found == if prefix {
                old(self).root.reaches(word@)
            } else {
                old(self).root.accepts(word@)
            },
    {
        let mut node = &self.root;
        proof {
            self.root.lemma_grafts_at_root(self.root);
        }
        for c in it: word.chars()
            invariant
                it.seq() == word@,
                node.hangs_below(self.root, word@.take(it.index())),
                self.root.reaches(word@.take(it.index())),
        {
            let ghost path = word@.take(it.index());
            let ghost rest = word@.skip(it.index() + 1);
            proof {
                assert(word@.take(it.index() + 1) =~= path.push(c));
                assert(word@ =~= path + (seq![c] + rest));
                node.lemma_step(c, rest);
                node.lemma_step(c, Seq::<char>::empty());
                assert(path + (seq![c] + Seq::<char>::empty()) =~= path.push(c));
            }
            if let Some(next_node) = node.children.get(&(c as u32)) {
                proof {
                    node.lemma_hangs_below_step(self.root, path, c, **next_node);
                }
                node = next_node;
            } else {
                return false;
            }
        }
        proof {
            let end = Seq::<char>::empty();
            assert(word@.take(word@.len() as int) + end =~= word@);
            assert(node.accepts(end) == self.root.accepts(word@));
        }
        if prefix {
            return true;
        } else {
            node.is_end_of_word
        }
    }

    /// Whether `word` is the empty string or the beginning of a stored
    /// word. The tree is left as it was.
    pub fn search_prefix(&mut self, word: &str) -> (found: bool)
        ensures
            found == has_prefix(old(self)@, word@),
            *final(self) == *old(self),
    {
        proof {
            use_type_invariant(&*self);
            self.lemma_paths_are_prefixes(word@);
        }
        self.search(word, true)
    }

    /// Whether `word` is a stored word. The tree is left as it was.
    pub fn search_full_world(&mut self, word: &str) -> (found: bool)
        ensures
            found == old(self)@.contains(word@),
            *final(self) == *old(self),
    {
        self.search(word, false)
    }
}

} // verus!
