//! A trie in which every node owns a hash map from symbol to child node.
use std::collections::HashMap;
use vstd::prelude::*;
use vstd::std_specs::hash::spec_values_iter;
use vstd::std_specs::iter::IteratorSpec;

use crate::model::{
    lemma_empty_node_paths, lemma_node_paths_with_word,
    lemma_stored_words_step, lemma_total_len_step, lemma_whole_list, lemma_with_word_size,
    node_paths, prefixes, stored_words, total_len, with_word, word_seqs, NodeType, TrieError,
    ROOT_SYMBOL,
};
use crate::traits::{TrieNode, WordTree};

verus! {

broadcast use vstd::std_specs::hash::group_hash_axioms;

/// A node of a [`HashTrie`]: it owns its children, each filed under the code
/// of its symbol.
pub struct HashNode {
    value: char,
    children: HashMap<u32, HashNode>,
    is_word: bool,
}

/// The node reached from `n` by following the symbols of `s`, if every step
/// has a child.
pub closed spec fn node_at(n: HashNode, s: Seq<char>) -> Option<HashNode>
    decreases s.len(),
{
    if s.len() == 0 {
        Some(n)
    } else if n.children@.contains_key(s[0] as u32) {
        node_at(n.children@[s[0] as u32], s.drop_first())
    } else {
        None
    }
}

/// The path `s` from `n` exists and ends on a node that ends a word.
pub closed spec fn word_at(n: HashNode, s: Seq<char>) -> bool {
    node_at(n, s) is Some && node_at(n, s)->0.is_word
}

/// The number of leading symbols of `s` that have a path from `n`.
pub closed spec fn matched_len(n: HashNode, s: Seq<char>) -> nat
    decreases s.len(),
{
    if s.len() > 0 && n.children@.contains_key(s[0] as u32) {
        1 + matched_len(n.children@[s[0] as u32], s.drop_first())
    } else {
        0
    }
}

/// Every node below `n` holds the last symbol of its path.
pub closed spec fn symbols_match(n: HashNode) -> bool {
    forall|s: Seq<char>|
        s.len() > 0 && #[trigger] node_at(n, s) is Some ==> node_at(n, s)->0.value == s.last()
}

/// Every child is filed under the code of its own symbol.
pub closed spec fn keys_match(n: HashNode) -> bool {
    forall|s: Seq<char>, k: u32|
        node_at(n, s) is Some && #[trigger] node_at(n, s)->0.children@.contains_key(k) ==> node_at(
            n,
            s,
        )->0.children@[k].value as u32 == k
}

/// The children of `n` itself are filed under the codes of their symbols.
proof fn lemma_top_keys(n: HashNode)
    requires
        keys_match(n),
    ensures
        forall|k: u32| #[trigger] n.children@.contains_key(k) ==> n.children@[k].value as u32 == k,
{
    assert forall|k: u32| #[trigger] n.children@.contains_key(k) implies n.children@[k].value as u32
        == k by {
        let e = Seq::<char>::empty();
        assert(node_at(n, e) == Some(n));
        assert(node_at(n, e)->0.children@.contains_key(k));
    }
}

/// The code of a symbol fits in its key, so distinct symbols have distinct
/// keys.
proof fn lemma_key_code(c: char)
    ensures
        (c as u32) as int == c as int,
{
}

/// One more step along a path.
proof fn lemma_node_at_push(n: HashNode, s: Seq<char>, c: char)
    ensures
        node_at(n, s.push(c)) == match node_at(n, s) {
            Some(m) => if m.children@.contains_key(c as u32) {
                Some(m.children@[c as u32])
            } else {
                None
            },
            None => None,
        },
    decreases s.len(),
{
    let t = s.push(c);
    assert(t[0] == if s.len() > 0 {
        s[0]
    } else {
        c
    });
    if s.len() > 0 {
        assert(t.drop_first() =~= s.drop_first().push(c));
        if n.children@.contains_key(s[0] as u32) {
            lemma_node_at_push(n.children@[s[0] as u32], s.drop_first(), c);
        }
    } else {
        assert(t.drop_first() =~= Seq::<char>::empty());
        if n.children@.contains_key(c as u32) {
            assert(node_at(n.children@[c as u32], Seq::<char>::empty()) == Some(
                n.children@[c as u32],
            ));
        }
    }
}

/// The first `j` symbols of `s` have a path exactly when `j` is at most the
/// matched length.
proof fn lemma_matched_len(n: HashNode, s: Seq<char>, j: int)
    requires
        0 <= j <= s.len(),
    ensures
        (node_at(n, s.subrange(0, j)) is Some) == (j <= matched_len(n, s)),
        matched_len(n, s) <= s.len(),
    decreases s.len(),
{
    if s.len() > 0 {
        if n.children@.contains_key(s[0] as u32) {
            if j > 0 {
                lemma_matched_len(n.children@[s[0] as u32], s.drop_first(), j - 1);
                assert(s.subrange(0, j).drop_first() =~= s.drop_first().subrange(0, j - 1));
            } else {
                lemma_matched_len(n.children@[s[0] as u32], s.drop_first(), 0);
            }
        }
    }
}

impl HashNode {
    fn new(value: char, is_word: bool) -> (r: Self)
        ensures
            r.value == value,
            r.children@ == Map::<u32, HashNode>::empty(),
            r.is_word == is_word,
    {
        HashNode { value, children: HashMap::new(), is_word }
    }

    /// A root: the sentinel symbol, no child, not a word.
    fn default() -> (r: Self)
        ensures
            r.value == ROOT_SYMBOL,
            r.children@ == Map::<u32, HashNode>::empty(),
            !r.is_word,
    {
        HashNode::new(ROOT_SYMBOL, false)
    }

    /// Stores the symbols of `word` from position `i` on below this node,
    /// creating the children that are missing, and marks the last node as a
    /// word.
    fn add_suffix(&mut self, word: &[char], i: usize)
        requires
            i <= word@.len(),
            symbols_match(*old(self)),
            keys_match(*old(self)),
        ensures
            ({
                let suffix = word@.subrange(i as int, word@.len() as int);
                &&& forall|s: Seq<char>|
                    (#[trigger] node_at(*final(self), s) is Some) == (node_at(*old(self), s) is Some
                        || s.is_prefix_of(suffix))
                &&& forall|s: Seq<char>|
                    #[trigger] word_at(*final(self), s) == (word_at(*old(self), s) || s == suffix)
            }),
            symbols_match(*final(self)),
            keys_match(*final(self)),
            final(self).value == old(self).value,
        decreases word@.len() - i,
    {
        let ghost suffix = word@.subrange(i as int, word@.len() as int);
        if i == word.len() {
            self.is_word = true;
            proof {
                assert(suffix.len() == 0);
                assert forall|s: Seq<char>| s.len() > 0 implies #[trigger] node_at(*self, s)
                    == node_at(*old(self), s) by {}
                assert forall|s: Seq<char>| s.is_prefix_of(suffix) implies s.len() == 0 by {}
                assert forall|s: Seq<char>| #[trigger]
                    word_at(*self, s) == (word_at(*old(self), s) || s == suffix) by {
                    if s.len() == 0 {
                        assert(s =~= suffix);
                    }
                }
                assert forall|s: Seq<char>| s.len() > 0 && #[trigger] node_at(*self, s) is Some implies node_at(
                    *self,
                    s,
                )->0.value == s.last() by {
                    assert(node_at(*old(self), s) is Some);
                }
                assert forall|s: Seq<char>, k: u32|
                    node_at(*self, s) is Some && #[trigger] node_at(*self, s)->0.children@.contains_key(
                        k,
                    ) implies node_at(*self, s)->0.children@[k].value as u32 == k by {
                    if s.len() == 0 {
                        assert(s =~= Seq::<char>::empty());
                        assert(node_at(*self, s) == Some(*self));
                        lemma_top_keys(*old(self));
                    } else {
                        assert(node_at(*self, s) == node_at(*old(self), s));
                        assert(node_at(*old(self), s)->0.children@.contains_key(k));
                    }
                }
            }
            return;
        }
        let c = word[i];
        let key = c as u32;
        let ghost before = *self;
        let (mut child, fresh) = match self.children.remove(&key) {
            Some(existing) => (existing, false),
            None => (HashNode::new(c, false), true),
        };
        let ghost child0 = child;
        proof {
            lemma_key_code(c);
            assert(key as int == c as int);
        }
        let ghost rest = word@.subrange(i as int + 1, word@.len() as int);
        proof {
            assert(suffix.drop_first() =~= rest);
            assert(suffix[0] == c);
            if !fresh {
                assert(child0 == before.children@[key]);
                assert forall|s: Seq<char>| s.len() > 0 && #[trigger] node_at(child0, s) is Some implies node_at(
                    child0,
                    s,
                )->0.value == s.last() by {
                    let t = seq![c] + s;
                    assert(t.drop_first() =~= s);
                    assert(node_at(before, t) == node_at(child0, s));
                }
                assert forall|s: Seq<char>, k: u32|
                    node_at(child0, s) is Some && #[trigger] node_at(child0, s)->0.children@.contains_key(
                        k,
                    ) implies node_at(child0, s)->0.children@[k].value as u32 == k by {
                    let t = seq![c] + s;
                    assert(t.drop_first() =~= s);
                    assert(node_at(before, t) == node_at(child0, s));
                    assert(node_at(before, t)->0.children@.contains_key(k));
                }
                lemma_top_keys(before);
                assert(before.children@[key].value as u32 == key);
            } else {
                assert forall|s: Seq<char>| s.len() > 0 implies #[trigger] node_at(child0, s)
                    is None by {}
                assert forall|s: Seq<char>, k: u32|
                    node_at(child0, s) is Some && #[trigger] node_at(child0, s)->0.children@.contains_key(
                        k,
                    ) implies node_at(child0, s)->0.children@[k].value as u32 == k by {
                    if s.len() > 0 {
                        assert(node_at(child0, s) is None);
                    }
                }
            }
            assert(child0.value as u32 == key);
        }
        child.add_suffix(word, i + 1);
        self.children.insert(key, child);
        proof {
            let after = *self;
            assert(after.children@ == before.children@.remove(key).insert(key, child));
            assert forall|s: Seq<char>| s.len() > 0 && s[0] != c implies #[trigger] node_at(after, s)
                == node_at(before, s) by {
                assert((s[0] as int) != (c as int));
                lemma_key_code(s[0]);
                assert(s[0] as u32 != key);
            }
            assert forall|s: Seq<char>| s.len() > 0 && s[0] == c implies #[trigger] node_at(after, s)
                == node_at(child, s.drop_first()) by {}
            assert forall|s: Seq<char>| s.len() > 0 && s[0] == c implies (#[trigger] node_at(
                before,
                s,
            ) is Some) == (!fresh && node_at(child0, s.drop_first()) is Some) by {}
            assert forall|s: Seq<char>| s.len() > 0 implies #[trigger] s.is_prefix_of(suffix) == (
            s[0] == c && s.drop_first().is_prefix_of(rest)) by {
                if s[0] == c && s.drop_first().is_prefix_of(rest) {
                    assert(s.drop_first() =~= rest.subrange(0, s.len() - 1));
                    assert forall|k: int| 0 <= k < s.len() implies s[k] == suffix[k] by {
                        if k > 0 {
                            assert(s[k] == s.drop_first()[k - 1]);
                            assert(rest[k - 1] == suffix[k]);
                        }
                    }
                    assert(s =~= suffix.subrange(0, s.len() as int));
                }
                if s.is_prefix_of(suffix) {
                    assert(s.drop_first() =~= rest.subrange(0, s.len() - 1));
                }
            }
            assert forall|s: Seq<char>|
                (#[trigger] node_at(after, s) is Some) == (node_at(before, s) is Some
                    || s.is_prefix_of(suffix)) by {
                if s.len() > 0 && s[0] == c {
                    assert(node_at(after, s) == node_at(child, s.drop_first()));
                    assert(node_at(child0, Seq::<char>::empty()) is Some);
                    assert(Seq::<char>::empty().is_prefix_of(rest));
                }
            }
            assert forall|s: Seq<char>|
                #[trigger] word_at(after, s) == (word_at(before, s) || s == suffix) by {
                if s.len() > 0 && s[0] == c {
                    assert(node_at(after, s) == node_at(child, s.drop_first()));
                    assert(word_at(child, s.drop_first()) == (word_at(child0, s.drop_first())
                        || s.drop_first() == rest));
                    if s.drop_first() == rest {
                        assert forall|k: int| 0 <= k < s.len() implies s[k] == suffix[k] by {
                            if k > 0 {
                                assert(s[k] == s.drop_first()[k - 1]);
                                assert(rest[k - 1] == suffix[k]);
                            }
                        }
                        assert(s =~= suffix);
                    }
                    if s == suffix {
                        assert(s.drop_first() == rest);
                    }
                    if fresh {
                        assert(!word_at(child0, s.drop_first()));
                    }
                } else if s.len() > 0 {
                    assert(s != suffix);
                } else {
                    assert(s != suffix);
                }
            }
            assert forall|s: Seq<char>| s.len() > 0 && #[trigger] node_at(after, s) is Some implies node_at(
                after,
                s,
            )->0.value == s.last() by {
                if s[0] == c {
                    let t = s.drop_first();
                    if t.len() > 0 {
                        assert(node_at(child, t) is Some);
                        assert(t.last() == s.last());
                    } else {
                        assert(node_at(child, t) == Some(child));
                    }
                } else {
                    assert(node_at(before, s) is Some);
                }
            }
            assert forall|s: Seq<char>, k: u32|
                node_at(after, s) is Some && #[trigger] node_at(after, s)->0.children@.contains_key(k) implies node_at(
                after,
                s,
            )->0.children@[k].value as u32 == k by {
                if s.len() == 0 {
                    assert(s =~= Seq::<char>::empty());
                    assert(node_at(after, s) == Some(after));
                    lemma_top_keys(before);
                    if k != key {
                        assert(before.children@.contains_key(k));
                    }
                } else if s[0] == c {
                    assert(node_at(after, s) == node_at(child, s.drop_first()));
                    assert(node_at(child, s.drop_first())->0.children@.contains_key(k));
                } else {
                    assert(node_at(after, s) == node_at(before, s));
                    assert(node_at(before, s)->0.children@.contains_key(k));
                }
            }
        }
    }
}

impl TrieNode for HashNode {
    closed spec fn symbol(&self) -> char {
        self.value
    }

    fn value(&self) -> (r: char) {
        self.value
    }
}

/// The paths from `n` to each node below it, the empty path to `n` itself
/// included.
pub closed spec fn paths_from(n: HashNode) -> Set<Seq<char>> {
    Set::new(|s: Seq<char>| node_at(n, s) is Some)
}

/// The paths `ps`, each put behind the symbol `c`.
pub open spec fn behind(c: char, ps: Set<Seq<char>>) -> Set<Seq<char>> {
    ps.map(|p: Seq<char>| seq![c] + p)
}

/// The non-empty paths below `n` whose first symbol is that of one of the
/// first `i` children in `vals`.
pub closed spec fn covered(vals: Seq<HashNode>, i: int) -> Set<Seq<char>> {
    Set::new(
        |s: Seq<char>|
            s.len() > 0 && exists|j: int|
                0 <= j < i && #[trigger] vals[j].value == s[0] && node_at(vals[j], s.drop_first()) is Some,
    )
}

/// Seen from the child filed under `k`, the subtree is that of `n` behind
/// the child's symbol.
proof fn lemma_child(n: HashNode, k: u32)
    requires
        symbols_match(n),
        keys_match(n),
        n.children@.contains_key(k),
        paths_from(n).finite(),
    ensures
        n.children@[k].value as u32 == k,
        symbols_match(n.children@[k]),
        keys_match(n.children@[k]),
        paths_from(n.children@[k]).finite(),
        behind(n.children@[k].value, paths_from(n.children@[k])).finite(),
        paths_from(n.children@[k]).len() == behind(
            n.children@[k].value,
            paths_from(n.children@[k]),
        ).len(),
        behind(n.children@[k].value, paths_from(n.children@[k])).subset_of(
            paths_from(n).remove(Seq::<char>::empty()),
        ),
        paths_from(n.children@[k]).len() < paths_from(n).len(),
{
    let child = n.children@[k];
    let c = child.value;
    lemma_top_keys(n);
    assert(child.value as u32 == k);
    lemma_key_code(c);
    assert forall|p: Seq<char>| #[trigger] node_at(n, seq![c] + p) == node_at(child, p) by {
        let t = seq![c] + p;
        assert(t.drop_first() =~= p);
        assert(t[0] == c);
    }
    assert forall|s: Seq<char>| s.len() > 0 && #[trigger] node_at(child, s) is Some implies node_at(
        child,
        s,
    )->0.value == s.last() by {
        assert(node_at(n, seq![c] + s) == node_at(child, s));
        assert((seq![c] + s).last() == s.last());
    }
    assert forall|s: Seq<char>, kk: u32|
        node_at(child, s) is Some && #[trigger] node_at(child, s)->0.children@.contains_key(kk) implies node_at(
        child,
        s,
    )->0.children@[kk].value as u32 == kk by {
        assert(node_at(n, seq![c] + s) == node_at(child, s));
        assert(node_at(n, seq![c] + s)->0.children@.contains_key(kk));
    }
    let ps = paths_from(child);
    let f = |p: Seq<char>| seq![c] + p;
    let g = |s: Seq<char>| s.drop_first();
    let b = behind(c, ps);
    let target = paths_from(n).remove(Seq::<char>::empty());
    assert forall|s: Seq<char>| b.contains(s) implies target.contains(s) by {
        let p = choose|p: Seq<char>| ps.contains(p) && f(p) == s;
        assert(node_at(n, seq![c] + p) == node_at(child, p));
        assert(s.len() > 0);
    }
    vstd::set_lib::lemma_len_subset(b, target);
    assert(node_at(n, Seq::<char>::empty()) == Some(n));
    assert(paths_from(n).contains(Seq::<char>::empty()));
    assert forall|s1: Seq<char>, s2: Seq<char>|
        b.contains(s1) && b.contains(s2) && #[trigger] g(s1) == #[trigger] g(s2) implies s1 == s2 by {
        let p1 = choose|p: Seq<char>| ps.contains(p) && f(p) == s1;
        let p2 = choose|p: Seq<char>| ps.contains(p) && f(p) == s2;
        assert(s1.drop_first() =~= p1);
        assert(s2.drop_first() =~= p2);
    }
    assert forall|p: Seq<char>| #[trigger] ps.contains(p) implies b.map(g).contains(p) by {
        assert(b.contains(f(p)));
        assert(g(f(p)) =~= p);
    }
    assert forall|p: Seq<char>| #[trigger] b.map(g).contains(p) implies ps.contains(p) by {
        let s = choose|s: Seq<char>| b.contains(s) && g(s) == p;
        let q = choose|q: Seq<char>| ps.contains(q) && f(q) == s;
        assert(g(f(q)) =~= q);
    }
    assert(b.map(g) =~= ps);
    vstd::set_lib::lemma_map_size(b, ps, g);
}

/// A trie made of nodes that own their children directly.
pub struct HashTrie {
    root: HashNode,
}

impl HashTrie {
    /// The number of nodes, the root included.
    pub fn size(&self) -> (r: usize)
        requires
            self.wf(),
        ensures
            r == node_paths(self.words()).len(),
            node_paths(self.words()).finite(),
    {
        proof {
            assert(paths_from(self.root) =~= node_paths(self.words()));
            assert(paths_from(self.root).contains(Seq::<char>::empty()));
        }
        self.size_of_subtree(&self.root) + 1
    }

    /// The number of nodes below `node`, counted by visiting each of them.
    fn size_of_subtree(&self, node: &HashNode) -> (r: usize)
        requires
            symbols_match(*node),
            keys_match(*node),
            paths_from(*node).finite(),
            paths_from(*node).len() <= usize::MAX,
        ensures
            r == paths_from(*node).len() - 1,
        decreases *node,
    {
        let ghost m = node.children@;
        let ghost vals = spec_values_iter(&node.children).remaining().unref();
        let ghost target = paths_from(*node).remove(Seq::<char>::empty());
        proof {
            assert(paths_from(*node).contains(Seq::<char>::empty()));
            assert(node_at(*node, Seq::<char>::empty()) == Some(*node));
            // Each child holds the symbol of its key, so no two children
            // share a symbol.
            let key_of = |k: u32| m[k];
            lemma_top_keys(*node);
            assert forall|k1: u32, k2: u32|
                m.dom().contains(k1) && m.dom().contains(k2) && #[trigger] key_of(k1) == #[trigger] key_of(
                    k2,
                ) implies k1 == k2 by {
                assert(m[k1].value as u32 == k1);
                assert(m[k2].value as u32 == k2);
            }
            assert(m.dom().map(key_of) =~= m.values());
            vstd::set_lib::lemma_map_size(m.dom(), m.values(), key_of);
            vals.lemma_no_dup_set_cardinality();
            assert forall|j1: int, j2: int|
                0 <= j1 < vals.len() && 0 <= j2 < vals.len() && j1 != j2 implies #[trigger] vals[j1].value
                != #[trigger] vals[j2].value by {
                assert(vals.to_set().contains(vals[j1]));
                assert(vals.to_set().contains(vals[j2]));
                let k1 = choose|k: u32| m.contains_key(k) && m[k] == vals[j1];
                let k2 = choose|k: u32| m.contains_key(k) && m[k] == vals[j2];
                assert(m[k1].value as u32 == k1);
                assert(m[k2].value as u32 == k2);
            }
            assert(covered(vals, 0) =~= Set::<Seq<char>>::empty());
        }
        let mut node_cnt: usize = 0;
        for child in it: node.children.values()
            invariant
                m == node.children@,
                it.seq() == spec_values_iter(&node.children).remaining(),
                vals == it.seq().unref(),
                vals.to_set() == m.values(),
                vals.len() == m.dom().len(),
                forall|j1: int, j2: int|
                    0 <= j1 < vals.len() && 0 <= j2 < vals.len() && j1 != j2 ==> #[trigger] vals[j1].value
                        != #[trigger] vals[j2].value,
                symbols_match(*node),
                keys_match(*node),
                paths_from(*node).finite(),
                paths_from(*node).len() <= usize::MAX,
                target == paths_from(*node).remove(Seq::<char>::empty()),
                covered(vals, it.index()).finite(),
                covered(vals, it.index()).subset_of(target),
                node_cnt == covered(vals, it.index()).len(),
        {
            let ghost i = it.index();
            let ghost v = *child;
            let ghost k: u32;
            proof {
                assert(v == vals[i]);
                assert(vals.to_set().contains(v));
                k = choose|k: u32| m.contains_key(k) && m[k] == v;
                lemma_child(*node, k);
                vstd::set_lib::lemma_len_subset(target, paths_from(*node));
                assert(decreases_to!(node.children => node.children@));
            }
            let sub = self.size_of_subtree(child);
            proof {
                let c = v.value;
                let b = behind(c, paths_from(v));
                let before = covered(vals, i);
                let after = covered(vals, i + 1);
                assert forall|s: Seq<char>| #[trigger] after.contains(s) implies (before + b).contains(s) by {
                    let j = choose|j: int|
                        0 <= j < i + 1 && #[trigger] vals[j].value == s[0] && node_at(vals[j], s.drop_first()) is Some;
                    if j == i {
                        assert(s =~= seq![c] + s.drop_first());
                        assert(paths_from(v).contains(s.drop_first()));
                    } else {
                        assert(before.contains(s));
                    }
                }
                assert forall|s: Seq<char>| #[trigger] (before + b).contains(s) implies after.contains(s) by {
                    if b.contains(s) {
                        let p = choose|p: Seq<char>| paths_from(v).contains(p) && seq![c] + p == s;
                        assert(s.drop_first() =~= p);
                        assert(vals[i].value == s[0]);
                    } else {
                        let j = choose|j: int|
                            0 <= j < i && #[trigger] vals[j].value == s[0] && node_at(vals[j], s.drop_first()) is Some;
                        assert(vals[j].value == s[0]);
                    }
                }
                assert(after =~= before + b);
                assert forall|s: Seq<char>| before.contains(s) implies !b.contains(s) by {
                    if b.contains(s) {
                        let p = choose|p: Seq<char>| paths_from(v).contains(p) && seq![c] + p == s;
                        assert(s[0] == c);
                        let j = choose|j: int|
                            0 <= j < i && #[trigger] vals[j].value == s[0] && node_at(vals[j], s.drop_first()) is Some;
                        assert(vals[j].value != vals[i].value);
                    }
                }
                assert(before.disjoint(b));
                vstd::set_lib::lemma_set_disjoint_lens(before, b);
                vstd::set_lib::lemma_len_subset(after, target);
            }
            node_cnt = node_cnt + 1 + sub;
        }
        proof {
            let all = covered(vals, vals.len() as int);
            assert forall|s: Seq<char>| #[trigger] target.contains(s) implies all.contains(s) by {
                if s.len() == 0 {
                    assert(s =~= Seq::<char>::empty());
                }
                let kk = s[0] as u32;
                assert(node_at(*node, s) is Some);
                assert(m.contains_key(kk));
                let w = m[kk];
                assert(m.values().contains(w));
                assert(vals.to_set().contains(w));
                let j = choose|j: int| 0 <= j < vals.len() && vals[j] == w;
                assert(w.value as u32 == kk);
                lemma_key_code(w.value);
                lemma_key_code(s[0]);
                assert(vals[j].value == s[0]);
            }
            assert(all =~= target);
        }
        node_cnt
    }

    /// A trie holding the root alone.
    pub fn default() -> (r: Self)
        ensures
            r.wf(),
            r.words() == Set::<Seq<char>>::empty(),
    {
        let trie = HashTrie { root: HashNode::default() };
        proof {
            let root = trie.root;
            assert forall|s: Seq<char>| s.len() > 0 implies #[trigger] node_at(root, s) is None by {}
            assert(trie.words() =~= Set::<Seq<char>>::empty());
            lemma_empty_node_paths();
            assert forall|s: Seq<char>| #[trigger]
                node_paths(trie.words()).contains(s) == (node_at(root, s) is Some) by {
                if s.len() == 0 {
                    assert(node_paths(trie.words()).contains(s));
                }
            }
            assert forall|s: Seq<char>, k: u32|
                node_at(root, s) is Some && #[trigger] node_at(root, s)->0.children@.contains_key(k) implies node_at(
                root,
                s,
            )->0.children@[k].value as u32 == k by {
                if s.len() > 0 {
                    assert(node_at(root, s) is None);
                }
            }
        }
        trie
    }
}

impl WordTree for HashTrie {
    closed spec fn wf(&self) -> bool {
        let np = node_paths(self.words());
        &&& self.root.value == ROOT_SYMBOL
        &&& !self.root.is_word
        &&& symbols_match(self.root)
        &&& keys_match(self.root)
        &&& forall|s: Seq<char>| #[trigger] np.contains(s) == (node_at(self.root, s) is Some)
        &&& np.finite()
        &&& np.len() <= usize::MAX
    }

    closed spec fn words(&self) -> Set<Seq<char>> {
        Set::new(|s: Seq<char>| word_at(self.root, s))
    }

    proof fn lemma_wf(&self) {
        assert(node_at(self.root, Seq::<char>::empty()) == Some(self.root));
        assert(!word_at(self.root, Seq::<char>::empty()));
    }

    fn build(words: Vec<Vec<char>>) -> (r: Self) {
        let ghost ws = word_seqs(words@);
        let mut trie = HashTrie::default();
        proof {
            lemma_whole_list(ws);
            lemma_empty_node_paths();
        }
        let mut i: usize = 0;
        while i < words.len()
            invariant
                ws == word_seqs(words@),
                total_len(ws) < usize::MAX,
                0 <= i <= words@.len(),
                trie.wf(),
                trie.words() == stored_words(ws.subrange(0, i as int)),
                node_paths(trie.words()).len() <= 1 + total_len(ws.subrange(0, i as int)),
            decreases words@.len() - i,
        {
            proof {
                lemma_total_len_step(ws, i as int);
                lemma_stored_words_step(ws, i as int);
                lemma_with_word_size(trie.words(), ws[i as int]);
            }
            trie.add_word(words[i].as_slice());
            i += 1;
        }
        proof {
            lemma_whole_list(ws);
        }
        trie
    }

    fn find_word(&self, word: &[char]) -> (r: Option<NodeType<char>>) {
        let mut curr_node = &self.root;
        let mut i: usize = 0;
        while i < word.len()
            invariant
                self.wf(),
                0 <= i <= word@.len(),
                node_at(self.root, word@.subrange(0, i as int)) == Some(*curr_node),
            decreases word@.len() - i,
        {
            let c = word[i];
            proof {
                assert(word@.subrange(0, i as int + 1) =~= word@.subrange(0, i as int).push(c));
                lemma_node_at_push(self.root, word@.subrange(0, i as int), c);
            }
            match curr_node.children.get(&(c as u32)) {
                Some(child) => {
                    curr_node = child;
                },
                None => {
                    proof {
                        // The path breaks here, and so does every longer one.
                        lemma_matched_len(self.root, word@, i as int + 1);
                        lemma_matched_len(self.root, word@, word@.len() as int);
                        assert(word@.subrange(0, word@.len() as int) =~= word@);
                    }
                    return None;
                },
            }
            i += 1;
        }
        proof {
            assert(word@.subrange(0, word@.len() as int) =~= word@);
            assert(node_paths(self.words()).contains(word@));
            assert(self.words().contains(word@) == curr_node.is_word);
        }
        let value = curr_node.value;
        if curr_node.is_word {
            Some(NodeType::CompleteWord(value))
        } else {
            Some(NodeType::IncompleteWord(value))
        }
    }

    fn add_word(&mut self, word: &[char]) {
        if word.len() == 0 {
            return;
        }
        let ghost old_words = self.words();
        let ghost old_root = self.root;
        let ghost np = node_paths(old_words);
        proof {
            assert(word@.subrange(0, word@.len() as int) =~= word@);
            lemma_node_paths_with_word(old_words, word@);
            lemma_with_word_size(old_words, word@);
        }
        self.root.add_suffix(word, 0);
        proof {
            let new_words = with_word(old_words, word@);
            assert forall|s: Seq<char>| #[trigger] self.words().contains(s) == new_words.contains(s) by {
                assert(self.words().contains(s) == word_at(self.root, s));
                assert(old_words.contains(s) == word_at(old_root, s));
            }
            assert(self.words() =~= new_words);
            assert(!self.root.is_word) by {
                assert(!word_at(old_root, Seq::<char>::empty()));
                assert(word_at(self.root, Seq::<char>::empty()) == self.root.is_word);
            }
            assert forall|s: Seq<char>| #[trigger]
                node_paths(self.words()).contains(s) == (node_at(self.root, s) is Some) by {
                assert((np + prefixes(word@)).contains(s) == (np.contains(s) || prefixes(
                    word@,
                ).contains(s)));
            }
        }
    }

    fn delete_word(&self, word: &[char]) -> (r: Result<(), TrieError>) {
        Err(TrieError::Unsupported)
    }
}

} // verus!
