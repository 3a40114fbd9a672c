//! How the words and paths of a tree change when one of its subtrees does.

use crate::tree::TrieNode;
use vstd::prelude::*;

verus! {

impl TrieNode {
    /// `self` is what stands below `path` in `root`: the subtree found there,
    /// or a node without edges and flag where `root` has no such path.
    pub open spec fn hangs_below(&self, root: TrieNode, path: Seq<char>) -> bool {
        &&& forall|s: Seq<char>| #[trigger] self.accepts(s) == root.accepts(path + s)
        &&& forall|s: Seq<char>|
            #[trigger] self.reaches(s) == (s.len() == 0 || root.reaches(path + s))
    }

    /// `self` is `root` with the subtree below `path` replaced by `sub`, the
    /// nodes along `path` created where they were missing.
    pub open spec fn grafts(&self, root: TrieNode, path: Seq<char>, sub: TrieNode) -> bool {
        &&& forall|w: Seq<char>| #[trigger]
            self.accepts(w) == if path.is_prefix_of(w) {
                sub.accepts(w.skip(path.len() as int))
            } else {
                root.accepts(w)
            }
        &&& forall|p: Seq<char>| #[trigger]
            self.reaches(p) == if path.is_prefix_of(p) {
                sub.reaches(p.skip(path.len() as int))
            } else {
                root.reaches(p) || p.is_prefix_of(path)
            }
    }

    /// A word or path that starts with `c` is followed through the edge for
    /// `c`, if there is one.
    pub proof fn lemma_step(&self, c: char, rest: Seq<char>)
        ensures
            self.accepts(seq![c] + rest) == (self.edges().contains_key(c as u32)
                && self.edges()[c as u32].accepts(rest)),
            self.reaches(seq![c] + rest) == (self.edges().contains_key(c as u32)
                && self.edges()[c as u32].reaches(rest)),
    {
        assert((seq![c] + rest).drop_first() =~= rest);
    }

    /// A node without edges reaches nothing but itself, and accepts the
    /// empty word or nothing, as its flag says.
    pub proof fn lemma_leaf(&self)
        requires
            self.edges() == Map::<u32, Box<TrieNode>>::empty(),
        ensures
            forall|p: Seq<char>| #[trigger] self.reaches(p) <==> p.len() == 0,
            forall|w: Seq<char>| #[trigger] self.accepts(w) <==> w.len() == 0 && self.ends_word(),
    {
    }

    /// Where a word is accepted, each of its prefixes is a path.
    pub proof fn lemma_prefix_of_accepted(&self, word: Seq<char>, len: int)
        requires
            self.accepts(word),
            0 <= len <= word.len(),
        ensures
            self.reaches(word.take(len)),
        decreases len,
    {
        if len > 0 {
            let child = self.edges()[word[0] as u32];
            child.lemma_prefix_of_accepted(word.drop_first(), len - 1);
            assert(word.take(len).drop_first() =~= word.drop_first().take(len - 1));
        }
    }

    /// Before the first step: a tree is itself grafted at its root, and
    /// stands below the empty path in itself.
    pub proof fn lemma_grafts_at_root(&self, root: TrieNode)
        ensures
            self.grafts(root, Seq::<char>::empty(), *self),
            root.hangs_below(root, Seq::<char>::empty()),
    {
        let none = Seq::<char>::empty();
        assert(forall|w: Seq<char>| none.is_prefix_of(w) && w.skip(0) == w && none + w == w);
    }

    /// One step down: the child of `self` for `c`, or a bare node where
    /// there is none, is what stands below `path` extended by `c`.
    pub proof fn lemma_hangs_below_step(
        &self,
        root: TrieNode,
        path: Seq<char>,
        c: char,
        child: TrieNode,
    )
        requires
            self.hangs_below(root, path),
            self.edges().contains_key(c as u32) ==> child == *self.edges()[c as u32],
            !self.edges().contains_key(c as u32) ==> !child.ends_word() && child.edges()
                == Map::<u32, Box<TrieNode>>::empty(),
        ensures
            child.hangs_below(root, path.push(c)),
    {
        assert forall|s: Seq<char>| #[trigger]
            child.accepts(s) == root.accepts(path.push(c) + s) by {
            self.lemma_step(c, s);
            assert(path.push(c) + s =~= path + (seq![c] + s));
        }
        assert forall|s: Seq<char>| #[trigger]
            child.reaches(s) == (s.len() == 0 || root.reaches(path.push(c) + s)) by {
            self.lemma_step(c, s);
            assert(path.push(c) + s =~= path + (seq![c] + s));
        }
    }

    /// One step down: where `parent` takes the place of `before` and differs
    /// from it only in its child for `c`, the tree as a whole is `root` with
    /// that child grafted below `path` extended by `c`.
    pub proof fn lemma_grafts_step(
        &self,
        root: TrieNode,
        path: Seq<char>,
        before: TrieNode,
        parent: TrieNode,
        c: char,
        child: TrieNode,
    )
        requires
            self.grafts(root, path, parent),
            before.hangs_below(root, path),
            parent.ends_word() == before.ends_word(),
            parent.edges() == before.edges().insert(c as u32, Box::new(child)),
        ensures
            self.grafts(root, path.push(c), child),
    {
        let n = path.len() as int;
        let longer = path.push(c);
        assert forall|w: Seq<char>| #[trigger]
            self.accepts(w) == if longer.is_prefix_of(w) {
                child.accepts(w.skip(n + 1))
            } else {
                root.accepts(w)
            } by {
            lemma_prefix_push(path, c, w);
            if path.is_prefix_of(w) {
                let tail = w.skip(n);
                assert(path + tail =~= w);
                assert(before.accepts(tail) == root.accepts(w));
                if tail.len() > 0 {
                    assert(tail.drop_first() =~= w.skip(n + 1));
                    parent.lemma_step(tail[0], tail.drop_first());
                    before.lemma_step(tail[0], tail.drop_first());
                    if tail[0] != c {
                        lemma_keys_differ(tail[0], c);
                    }
                }
            }
        }
        assert forall|p: Seq<char>| #[trigger]
            self.reaches(p) == if longer.is_prefix_of(p) {
                child.reaches(p.skip(n + 1))
            } else {
                root.reaches(p) || p.is_prefix_of(longer)
            } by {
            lemma_prefix_push(path, c, p);
            if path.is_prefix_of(p) {
                let tail = p.skip(n);
                assert(path + tail =~= p);
                if tail.len() > 0 {
                    assert(tail =~= seq![tail[0]] + tail.drop_first());
                    assert(tail.drop_first() =~= p.skip(n + 1));
                    parent.lemma_step(tail[0], tail.drop_first());
                    before.lemma_step(tail[0], tail.drop_first());
                    if tail[0] != c {
                        lemma_keys_differ(tail[0], c);
                    }
                }
            }
        }
    }

    /// The last step: with the node below `word` marked as the end of a word,
    /// the tree holds `word` besides what `root` held, and its paths are
    /// those of `root` and the prefixes of `word`.
    pub proof fn lemma_grafts_marked(
        &self,
        root: TrieNode,
        word: Seq<char>,
        before: TrieNode,
        marked: TrieNode,
    )
        requires
            self.grafts(root, word, marked),
            before.hangs_below(root, word),
            marked.ends_word(),
            marked.edges() == before.edges(),
        ensures
            forall|w: Seq<char>| #[trigger] self.accepts(w) == (w == word || root.accepts(w)),
            forall|p: Seq<char>| #[trigger]
                self.reaches(p) == (p.is_prefix_of(word) || root.reaches(p)),
    {
        let n = word.len() as int;
        assert(word.is_prefix_of(word));
        assert forall|w: Seq<char>| #[trigger]
            self.accepts(w) == (w == word || root.accepts(w)) by {
            if word.is_prefix_of(w) {
                let tail = w.skip(n);
                assert(word + tail =~= w);
                assert(before.accepts(tail) == root.accepts(w));
            }
        }
        assert forall|p: Seq<char>| #[trigger]
            self.reaches(p) == (p.is_prefix_of(word) || root.reaches(p)) by {
            if word.is_prefix_of(p) {
                let tail = p.skip(n);
                assert(word + tail =~= p);
                assert(before.reaches(tail) == (tail.len() == 0 || root.reaches(p)));
            }
        }
    }
}

/// Two symbols label the same edge only if they are the same symbol.
pub proof fn lemma_keys_differ(a: char, b: char)
    requires
        a != b,
    ensures
        a as u32 != b as u32,
{
}

/// How the prefixes of a sequence extended by one symbol relate to those of
/// the sequence itself.
pub proof fn lemma_prefix_push(path: Seq<char>, c: char, w: Seq<char>)
    ensures
        path.push(c).is_prefix_of(w) <==> path.is_prefix_of(w) && w.len() > path.len()
            && w[path.len() as int] == c,
        w.is_prefix_of(path.push(c)) <==> w.is_prefix_of(path) || w == path.push(c),
{
    let longer = path.push(c);
    let n = path.len() as int;
    if longer.is_prefix_of(w) {
        assert(w[n] == longer[n]);
    }
    if w.is_prefix_of(longer) && w.len() > n {
        assert(w =~= longer);
    }
}

} // verus!
