//! Properties that hold of every word tree, over the shared model.
use vstd::prelude::*;

use crate::arena_trie::ArenaTrie;
use crate::hash_trie::HashTrie;
use crate::model::{
    classify, lemma_add_prefixes, lemma_empty_node_paths, lemma_node_paths_prefix,
    lemma_node_paths_with_word, node_paths, stored_words, with_word, NodeType, ROOT_SYMBOL,
};
use crate::traits::WordTree;

verus! {

/// The two engines, each built from the same list of words, classify every
/// query alike and have the same number of nodes.
pub proof fn lemma_engines_agree(ws: Seq<Seq<char>>, arena: ArenaTrie, hash: HashTrie, x: Seq<char>)
    requires
        arena.wf(),
        hash.wf(),
        arena.words() == stored_words(ws),
        hash.words() == stored_words(ws),
    ensures
        classify(arena.words(), x) == classify(hash.words(), x),
        node_paths(arena.words()).len() == node_paths(hash.words()).len(),
{
}

/// Inserting a word a second time changes neither the classification of
/// any query nor the number of nodes.
pub proof fn lemma_insert_twice(words: Set<Seq<char>>, w: Seq<char>, x: Seq<char>)
    ensures
        with_word(with_word(words, w), w) == with_word(words, w),
        classify(with_word(with_word(words, w), w), x) == classify(with_word(words, w), x),
        node_paths(with_word(with_word(words, w), w)).len() == node_paths(
            with_word(words, w),
        ).len(),
{
    if w.len() > 0 {
        assert(words.insert(w).insert(w) =~= words.insert(w));
    }
}

/// A trie holding one word `w` has one node per symbol of it, and the root.
pub proof fn lemma_single_word_size(w: Seq<char>)
    ensures
        node_paths(with_word(Set::empty(), w)).len() == w.len() + 1,
{
    let np = node_paths(Set::<Seq<char>>::empty());
    lemma_empty_node_paths();
    lemma_node_paths_with_word(Set::empty(), w);
    assert(w.subrange(0, 0) =~= Seq::<char>::empty());
    assert forall|j: int| 0 < j <= w.len() implies !np.contains(#[trigger] w.subrange(0, j)) by {
        assert(w.subrange(0, j).len() > 0);
    }
    lemma_add_prefixes(np, w, 0);
}

/// Extending a stored path by one symbol that has no node yet adds exactly
/// one node: the shared prefix is not duplicated.
pub proof fn lemma_extension_adds_one(words: Set<Seq<char>>, w: Seq<char>, c: char)
    requires
        node_paths(words).finite(),
        node_paths(words).contains(w),
        !node_paths(words).contains(w.push(c)),
    ensures
        node_paths(with_word(words, w.push(c))).len() == node_paths(words).len() + 1,
{
    let v = w.push(c);
    let np = node_paths(words);
    lemma_node_paths_with_word(words, v);
    assert forall|j: int| 0 <= j <= w.len() implies np.contains(#[trigger] v.subrange(0, j)) by {
        lemma_node_paths_prefix(words, w, j);
        assert(v.subrange(0, j) =~= w.subrange(0, j));
    }
    assert forall|j: int| w.len() < j <= v.len() implies !np.contains(#[trigger] v.subrange(0, j)) by {
        assert(v.subrange(0, j) =~= v);
    }
    lemma_add_prefixes(np, v, w.len());
}

/// A query whose first `j` symbols leave the trie is absent, whatever its
/// remaining symbols are.
pub proof fn lemma_absent_on_break(words: Set<Seq<char>>, x: Seq<char>, j: int)
    requires
        0 <= j <= x.len(),
        !node_paths(words).contains(x.subrange(0, j)),
    ensures
        classify(words, x) is None,
{
    if node_paths(words).contains(x) {
        lemma_node_paths_prefix(words, x, j);
    }
}

/// The empty query ends on the root, which never ends a word.
pub proof fn lemma_empty_query(ws: Seq<Seq<char>>)
    ensures
        classify(stored_words(ws), Seq::<char>::empty()) == Some(
            NodeType::IncompleteWord(ROOT_SYMBOL),
        ),
{
}

} // verus!
