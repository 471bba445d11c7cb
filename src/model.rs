//! The abstract word-tree that both trie engines implement.
//!
//! A trie is described by the set of words it stores. Its nodes stand for
//! the empty path of the root and every prefix of a stored word, each one
//! exactly once, and a query is classified by where its path ends.
use vstd::prelude::*;

verus! {

/// The symbol held by the root of every trie; no query path ends on it
/// except the empty one.
pub const ROOT_SYMBOL: char = '\0';

/// What a query finds at the end of its path, with the symbol of that node.
#[derive(Debug, Clone, Copy, PartialEq, Eq)]
pub enum NodeType<T> {
    /// The path exists and its last node ends a stored word.
    CompleteWord(T),
    /// The path exists but only as a prefix of longer stored words.
    IncompleteWord(T),
}

/// The error of an operation that the word-tree contract declares but that
/// no engine supports.
#[derive(Debug, Clone, Copy, PartialEq, Eq)]
pub enum TrieError {
    Unsupported,
}

/// Every prefix of `w`, from the empty one to `w` itself.
pub open spec fn prefixes(w: Seq<char>) -> Set<Seq<char>> {
    Set::new(|p: Seq<char>| p.is_prefix_of(w))
}

/// The paths of the nodes of a trie that stores `words`: the root's empty
/// path and every prefix of a stored word.
pub open spec fn node_paths(words: Set<Seq<char>>) -> Set<Seq<char>> {
    Set::new(
        |p: Seq<char>| p.len() == 0 || exists|w: Seq<char>| words.contains(w) && p.is_prefix_of(w),
    )
}

/// The symbol of the node that the path `x` ends on.
pub open spec fn last_symbol(x: Seq<char>) -> char {
    if x.len() == 0 {
        ROOT_SYMBOL
    } else {
        x.last()
    }
}

/// How a query `x` is classified against a trie that stores `words`:
/// `None` where its path leaves the trie.
pub open spec fn classify(words: Set<Seq<char>>, x: Seq<char>) -> Option<NodeType<char>> {
    if !node_paths(words).contains(x) {
        None
    } else if words.contains(x) {
        Some(NodeType::CompleteWord(last_symbol(x)))
    } else {
        Some(NodeType::IncompleteWord(last_symbol(x)))
    }
}

/// The words stored after inserting `w`; the empty word is never stored.
pub open spec fn with_word(words: Set<Seq<char>>, w: Seq<char>) -> Set<Seq<char>> {
    if w.len() == 0 {
        words
    } else {
        words.insert(w)
    }
}

/// The words that a trie built from the list `ws` stores.
pub open spec fn stored_words(ws: Seq<Seq<char>>) -> Set<Seq<char>> {
    Set::new(|w: Seq<char>| w.len() > 0 && ws.contains(w))
}

/// The number of symbols over all the words of `ws`.
pub open spec fn total_len(ws: Seq<Seq<char>>) -> nat
    decreases ws.len(),
{
    if ws.len() == 0 {
        0
    } else {
        total_len(ws.drop_last()) + ws.last().len()
    }
}

/// The view of a list of words as symbol sequences.
pub open spec fn word_seqs(ws: Seq<Vec<char>>) -> Seq<Seq<char>> {
    ws.map_values(|w: Vec<char>| w@)
}

/// A trie with no word has the root alone.
pub proof fn lemma_empty_node_paths()
    ensures
        node_paths(Set::empty()) == set![Seq::<char>::empty()],
        node_paths(Set::empty()).finite(),
        node_paths(Set::empty()).len() == 1,
{
    assert forall|p: Seq<char>| #[trigger] node_paths(Set::empty()).contains(p) implies p
        == Seq::<char>::empty() by {
        assert(p =~= Seq::<char>::empty());
    }
    assert(node_paths(Set::empty()) =~= set![Seq::<char>::empty()]);
}

/// The node paths are closed under taking prefixes.
pub proof fn lemma_node_paths_prefix(words: Set<Seq<char>>, x: Seq<char>, j: int)
    requires
        node_paths(words).contains(x),
        0 <= j <= x.len(),
    ensures
        node_paths(words).contains(x.subrange(0, j)),
{
    if j > 0 {
        let w = choose|w: Seq<char>| words.contains(w) && x.is_prefix_of(w);
        assert(x.subrange(0, j).is_prefix_of(w)) by {
            assert(x.subrange(0, j) =~= w.subrange(0, j));
        }
    }
}

/// Inserting a word adds exactly its prefixes to the node paths.
pub proof fn lemma_node_paths_with_word(words: Set<Seq<char>>, w: Seq<char>)
    ensures
        node_paths(with_word(words, w)) == node_paths(words) + prefixes(w),
{
    let after = node_paths(with_word(words, w));
    let both = node_paths(words) + prefixes(w);
    assert forall|p: Seq<char>| after.contains(p) implies both.contains(p) by {
        if p.len() > 0 {
            let v = choose|v: Seq<char>| with_word(words, w).contains(v) && p.is_prefix_of(v);
            if v != w {
                assert(words.contains(v));
            }
        }
    }
    assert forall|p: Seq<char>| both.contains(p) implies after.contains(p) by {
        if p.len() > 0 && prefixes(w).contains(p) {
            assert(with_word(words, w).contains(w));
        } else if p.len() > 0 {
            let v = choose|v: Seq<char>| words.contains(v) && p.is_prefix_of(v);
            assert(with_word(words, w).contains(v));
        }
    }
    assert(after =~= both);
}

/// The prefixes of a non-empty word are those of the word without its last
/// symbol, and the word itself.
pub proof fn lemma_prefixes_step(w: Seq<char>)
    requires
        w.len() > 0,
    ensures
        prefixes(w) == prefixes(w.drop_last()).insert(w),
{
    let v = w.drop_last();
    assert forall|p: Seq<char>| #[trigger] prefixes(w).contains(p) implies prefixes(v).contains(p)
        || p == w by {
        if p.len() < w.len() {
            assert(p =~= v.subrange(0, p.len() as int));
        } else {
            assert(p =~= w);
        }
    }
    assert forall|p: Seq<char>| #[trigger] prefixes(v).contains(p) implies prefixes(w).contains(
        p,
    ) by {
        assert(p =~= w.subrange(0, p.len() as int));
    }
    assert(w.is_prefix_of(w));
    assert(prefixes(w) =~= prefixes(v).insert(w));
}

/// Adding the prefixes of `w` to a set that holds exactly its first `m + 1`
/// of them adds `w.len() - m` elements.
pub proof fn lemma_add_prefixes(s: Set<Seq<char>>, w: Seq<char>, m: nat)
    requires
        s.finite(),
        m <= w.len(),
        forall|j: int| 0 <= j <= m ==> s.contains(#[trigger] w.subrange(0, j)),
        forall|j: int| m < j <= w.len() ==> !s.contains(#[trigger] w.subrange(0, j)),
    ensures
        (s + prefixes(w)).finite(),
        (s + prefixes(w)).len() == s.len() + w.len() - m,
    decreases w.len(),
{
    if w.len() == m {
        assert forall|p: Seq<char>| prefixes(w).contains(p) implies s.contains(p) by {
            assert(p == w.subrange(0, p.len() as int));
        }
        assert(s + prefixes(w) =~= s);
    } else {
        let v = w.drop_last();
        assert forall|j: int| 0 <= j <= m implies s.contains(#[trigger] v.subrange(0, j)) by {
            assert(v.subrange(0, j) =~= w.subrange(0, j));
        }
        assert forall|j: int| m < j <= v.len() implies !s.contains(#[trigger] v.subrange(0, j)) by {
            assert(v.subrange(0, j) =~= w.subrange(0, j));
        }
        lemma_add_prefixes(s, v, m);
        lemma_prefixes_step(w);
        assert(w.subrange(0, w.len() as int) =~= w);
        assert(!s.contains(w));
        assert(s + prefixes(w) =~= (s + prefixes(v)).insert(w));
    }
}

/// Adding the prefixes of `w` to a set that holds the empty path adds at
/// most one element per symbol.
pub proof fn lemma_add_prefixes_bound(s: Set<Seq<char>>, w: Seq<char>)
    requires
        s.finite(),
        s.contains(Seq::<char>::empty()),
    ensures
        (s + prefixes(w)).finite(),
        (s + prefixes(w)).len() <= s.len() + w.len(),
    decreases w.len(),
{
    if w.len() == 0 {
        assert forall|p: Seq<char>| prefixes(w).contains(p) implies s.contains(p) by {
            assert(p =~= Seq::<char>::empty());
        }
        assert(s + prefixes(w) =~= s);
    } else {
        let v = w.drop_last();
        lemma_add_prefixes_bound(s, v);
        lemma_prefixes_step(w);
        assert(s + prefixes(w) =~= (s + prefixes(v)).insert(w));
    }
}

/// Inserting a word adds at most one node per symbol of it.
pub proof fn lemma_with_word_size(words: Set<Seq<char>>, w: Seq<char>)
    requires
        node_paths(words).finite(),
    ensures
        node_paths(with_word(words, w)).finite(),
        node_paths(with_word(words, w)).len() <= node_paths(words).len() + w.len(),
{
    lemma_node_paths_with_word(words, w);
    assert(node_paths(words).contains(Seq::<char>::empty()));
    lemma_add_prefixes_bound(node_paths(words), w);
}

/// Taking one more word of a list adds its length to the total.
pub proof fn lemma_total_len_step(ws: Seq<Seq<char>>, i: int)
    requires
        0 <= i < ws.len(),
    ensures
        total_len(ws.subrange(0, i + 1)) == total_len(ws.subrange(0, i)) + ws[i].len(),
        total_len(ws.subrange(0, i + 1)) <= total_len(ws),
    decreases ws.len(),
{
    assert(ws.subrange(0, i + 1).drop_last() =~= ws.subrange(0, i));
    if i + 1 == ws.len() {
        assert(ws.subrange(0, i + 1) =~= ws);
    } else {
        lemma_total_len_step(ws.drop_last(), i);
        assert(ws.drop_last().subrange(0, i + 1) =~= ws.subrange(0, i + 1));
    }
}

/// The words of a list, taken one more at a time.
pub proof fn lemma_stored_words_step(ws: Seq<Seq<char>>, i: int)
    requires
        0 <= i < ws.len(),
    ensures
        stored_words(ws.subrange(0, i + 1)) == with_word(stored_words(ws.subrange(0, i)), ws[i]),
{
    let a = ws.subrange(0, i + 1);
    let b = ws.subrange(0, i);
    assert forall|w: Seq<char>| #[trigger] a.contains(w) implies b.contains(w) || w == ws[i] by {
        let k = choose|k: int| 0 <= k < a.len() && a[k] == w;
        if k < i {
            assert(b[k] == w);
        }
    }
    assert forall|w: Seq<char>| #[trigger] b.contains(w) implies a.contains(w) by {
        let k = choose|k: int| 0 <= k < b.len() && b[k] == w;
        assert(a[k] == w);
    }
    assert(a[i] == ws[i]);
    assert(stored_words(a) =~= with_word(stored_words(b), ws[i]));
}

/// The first words of a list, all of them, are the list.
pub proof fn lemma_whole_list(ws: Seq<Seq<char>>)
    ensures
        ws.subrange(0, ws.len() as int) == ws,
        stored_words(ws.subrange(0, 0)) == Set::<Seq<char>>::empty(),
        total_len(ws.subrange(0, 0)) == 0,
{
    assert(ws.subrange(0, ws.len() as int) =~= ws);
    assert(stored_words(ws.subrange(0, 0)) =~= Set::<Seq<char>>::empty());
}

} // verus!
