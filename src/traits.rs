//! The contract that every trie engine meets.
use vstd::prelude::*;

use crate::model::{
    classify, node_paths, stored_words, total_len, with_word, word_seqs, NodeType, TrieError,
};

verus! {

/// A word tree: a set of words over `char` symbols, built once from a list
/// and grown one word at a time, that classifies any query path.
pub trait WordTree: Sized {
    /// The engine's internal invariant.
    spec fn wf(&self) -> bool;

    /// The words the tree stores; the empty word is never one of them.
    spec fn words(&self) -> Set<Seq<char>>;

    /// What every well-formed tree satisfies: it never stores the empty
    /// word, and it has finitely many nodes.
    proof fn lemma_wf(&self)
        requires
            self.wf(),
        ensures
            !self.words().contains(Seq::<char>::empty()),
            node_paths(self.words()).finite(),
    ;

    /// Builds a tree holding every non-empty word of `words`.
    fn build(words: Vec<Vec<char>>) -> (r: Self)
        requires
            total_len(word_seqs(words@)) < usize::MAX,
        ensures
            r.wf(),
            r.words() == stored_words(word_seqs(words@)),
    ;

    /// Follows `word` from the root: `None` as soon as a symbol has no
    /// matching child, else the kind of the node where the path ends.
    fn find_word(&self, word: &[char]) -> (r: Option<NodeType<char>>)
        requires
            self.wf(),
        ensures
            r == classify(self.words(), word@),
    ;

    /// Stores `word`, sharing every node of its longest stored prefix; the
    /// empty word leaves the tree as it is.
    fn add_word(&mut self, word: &[char])
        requires
            old(self).wf(),
            node_paths(old(self).words()).len() + word@.len() <= usize::MAX,
        ensures
            final(self).wf(),
            final(self).words() == with_word(old(self).words(), word@),
    ;

    /// Removing a word is declared but not supported: it always fails with
    /// `TrieError::Unsupported` and leaves the tree as it is.
    fn delete_word(&self, word: &[char]) -> (r: Result<(), TrieError>)
        ensures
            r == Err::<(), TrieError>(TrieError::Unsupported),
    ;
}

/// A node that carries a symbol.
pub trait TrieNode {
    /// The symbol of the node.
    spec fn symbol(&self) -> char;

    fn value(&self) -> (r: char)
        ensures
            r == self.symbol(),
    ;
}

} // verus!
