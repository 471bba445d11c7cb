//! A trie whose nodes live in one growable table and refer to each other by
//! index.
use vstd::prelude::*;

use crate::model::{
    lemma_node_paths_prefix, lemma_node_paths_with_word,
    lemma_empty_node_paths, lemma_stored_words_step, lemma_total_len_step, lemma_whole_list,
    lemma_with_word_size, node_paths, prefixes, stored_words, total_len, with_word, word_seqs,
    NodeType, TrieError, ROOT_SYMBOL,
};
use crate::traits::{TrieNode, WordTree};

verus! {

/// Room reserved for the children of a node: the branching factor of a trie
/// over lowercase English letters. It only spares reallocations.
pub const MAX_BRANCHING_FACTOR: usize = 26;

/// What a node of an [`ArenaTrie`] holds: its index, its symbol, the index
/// of its parent, the indices of its children and whether it ends a word.
pub type NodeView = (usize, char, Option<usize>, Seq<usize>, bool);

/// A node of an [`ArenaTrie`]; its identity is its index in the table.
#[derive(Debug)]
pub struct ArenaNode {
    index: usize,
    value: char,
    parent: Option<usize>,
    children: Vec<usize>,
    is_word: bool,
}

impl ArenaNode {
    fn new(index: usize, value: char, is_word: bool) -> (r: Self)
        ensures
            r.index == index,
            r.value == value,
            r.parent is None,
            r.children@ == Seq::<usize>::empty(),
            r.is_word == is_word,
    {
        ArenaNode {
            index,
            value,
            parent: None,
            children: Vec::with_capacity(MAX_BRANCHING_FACTOR),
            is_word,
        }
    }

    /// The node's index, symbol, parent, children and word flag.
    pub closed spec fn view_node(&self) -> NodeView {
        (self.index, self.value, self.parent, self.children@, self.is_word)
    }

    /// The number of children of the node.
    pub closed spec fn child_count(&self) -> nat {
        self.children@.len()
    }

    /// Whether the node has no child.
    pub fn is_empty(&self) -> (r: bool)
        ensures
            r == (self.child_count() == 0),
    {
        self.children.len() == 0
    }
}

impl TrieNode for ArenaNode {
    closed spec fn symbol(&self) -> char {
        self.value
    }

    fn value(&self) -> (r: char) {
        self.value
    }
}

/// A trie whose nodes are kept in one table, the root at index 0, each child
/// linked to its parent by index.
pub struct ArenaTrie {
    arena: Vec<ArenaNode>,
    /// The symbols spelled from the root to each node of the table.
    paths: Ghost<Seq<Seq<char>>>,
}

impl ArenaTrie {
    /// The links between the nodes are consistent, and each node has its
    /// own path.
    pub closed spec fn linked(&self) -> bool {
        let a = self.arena@;
        let ps = self.paths@;
        &&& a.len() >= 1
        &&& ps.len() == a.len()
        &&& a[0].parent is None
        &&& a[0].value == ROOT_SYMBOL
        &&& !a[0].is_word
        &&& ps[0] == Seq::<char>::empty()
        &&& forall|i: int| 0 <= i < a.len() ==> (#[trigger] a[i]).index == i
        &&& forall|i: int|
            0 < i < a.len() ==> {
                &&& (#[trigger] a[i]).parent is Some
                &&& a[i].parent->0 < i
                &&& ps[i] == ps[a[i].parent->0 as int].push(a[i].value)
                &&& a[a[i].parent->0 as int].children@.contains(i as usize)
            }
        &&& forall|i: int, j: int|
            0 <= i < a.len() && 0 <= j < a[i].children@.len() ==> {
                &&& 0 < #[trigger] a[i].children@[j] < a.len()
                &&& a[a[i].children@[j] as int].parent == Some(i as usize)
            }
        &&& ps.no_duplicates()
    }

    /// The table of nodes, by index.
    pub closed spec fn nodes(&self) -> Seq<NodeView> {
        self.arena@.map_values(|n: ArenaNode| n.view_node())
    }

    /// The symbols spelled from the root to each node, by index.
    pub closed spec fn path_table(&self) -> Seq<Seq<char>> {
        self.paths@
    }

    /// Whether a child of node `p` holds the symbol `value`.
    #[verifier::opaque]
    pub closed spec fn has_child(&self, p: int, value: char) -> bool {
        exists|j: int|
            0 <= j < self.arena@[p].children@.len() && self.arena@[
                #[trigger] self.arena@[p].children@[j] as int].value == value
    }

    /// What the table of a well-formed trie holds: the root at index 0, each
    /// other node linked both ways to a parent of lower index, each node with
    /// its own path, that of its parent followed by its symbol; the words are
    /// the paths of the nodes that end a word.
    pub proof fn lemma_table(&self)
        requires
            self.wf(),
        ensures
            ({
                let ns = self.nodes();
                let ps = self.path_table();
                &&& ns.len() >= 1
                &&& ps.len() == ns.len()
                &&& ns[0].1 == ROOT_SYMBOL
                &&& ns[0].2 is None
                &&& !ns[0].4
                &&& ps[0] == Seq::<char>::empty()
                &&& forall|i: int| 0 <= i < ns.len() ==> (#[trigger] ns[i]).0 == i
                &&& forall|i: int|
                    0 < i < ns.len() ==> {
                        &&& (#[trigger] ns[i]).2 is Some
                        &&& ns[i].2->0 < i
                        &&& ps[i] == ps[ns[i].2->0 as int].push(ns[i].1)
                        &&& ns[ns[i].2->0 as int].3.contains(i as usize)
                    }
                &&& forall|i: int, j: int|
                    0 <= i < ns.len() && 0 <= j < ns[i].3.len() ==> {
                        &&& 0 < #[trigger] ns[i].3[j] < ns.len()
                        &&& ns[ns[i].3[j] as int].2 == Some(i as usize)
                    }
                &&& ps.no_duplicates()
                &&& forall|w: Seq<char>|
                    #[trigger] self.words().contains(w) <==> exists|i: int|
                        0 <= i < ns.len() && ps[i] == w && #[trigger] ns[i].4
                &&& ps.to_set() == node_paths(self.words())
            }),
    {
        let ns = self.nodes();
        let a = self.arena@;
        assert forall|i: int| 0 <= i < a.len() implies #[trigger] ns[i] == a[i].view_node() by {}
        assert forall|w: Seq<char>| #[trigger] self.words().contains(w) <==> exists|i: int|
            0 <= i < ns.len() && self.paths@[i] == w && #[trigger] ns[i].4 by {
            if self.words().contains(w) {
                let i = choose|i: int| 0 <= i < a.len() && self.paths@[i] == w && #[trigger] a[i].is_word;
                assert(ns[i].4);
            }
            if exists|i: int| 0 <= i < ns.len() && self.paths@[i] == w && #[trigger] ns[i].4 {
                let i = choose|i: int| 0 <= i < ns.len() && self.paths@[i] == w && #[trigger] ns[i].4;
                assert(a[i].is_word);
            }
        }
        assert(self.paths@.to_set() =~= node_paths(self.words()));
    }

    /// The node paths are exactly those of the stored words.
    pub closed spec fn paths_match(&self) -> bool {
        let ps = self.paths@;
        let np = node_paths(self.words());
        &&& forall|i: int| 0 <= i < ps.len() ==> np.contains(#[trigger] ps[i])
        &&& forall|p: Seq<char>| #[trigger] np.contains(p) ==> ps.contains(p)
        &&& np.finite()
    }

    /// The number of nodes, the root included.
    pub fn size(&self) -> (r: usize)
        requires
            self.wf(),
        ensures
            r == node_paths(self.words()).len(),
            node_paths(self.words()).finite(),
    {
        proof {
            let ps = self.paths@;
            ps.unique_seq_to_set();
            assert(ps.to_set() =~= node_paths(self.words()));
        }
        self.arena.len()
    }

    fn get_new_node_index(&self) -> (r: usize)
        ensures
            r == self.arena@.len(),
    {
        self.arena.len()
    }

    /// A trie holding the root alone.
    pub fn default() -> (r: Self)
        ensures
            r.wf(),
            r.words() == Set::<Seq<char>>::empty(),
    {
        let mut arena: Vec<ArenaNode> = Vec::with_capacity(MAX_BRANCHING_FACTOR);
        arena.push(ArenaNode::new(0, ROOT_SYMBOL, false));
        let ghost root_paths = seq![Seq::<char>::empty()];
        let trie = ArenaTrie { arena, paths: Ghost(root_paths) };
        proof {
            assert(trie.words() =~= Set::<Seq<char>>::empty());
            lemma_empty_node_paths();
            assert(trie.paths@[0] == Seq::<char>::empty());
            assert forall|p: Seq<char>| #[trigger]
                node_paths(trie.words()).contains(p) implies trie.paths@.contains(p) by {
                assert(trie.paths@[0] == p);
            }
        }
        trie
    }

    /// The child of `parent_idx` whose symbol is `value`, found by a linear
    /// scan of the children.
    fn find_child(&self, parent_idx: usize, value: char) -> (r: Option<usize>)
        requires
            self.linked(),
            parent_idx < self.arena@.len(),
        ensures
            r is Some == self.has_child(parent_idx as int, value),
            match r {
                Some(c) => {
                    &&& c < self.arena@.len()
                    &&& self.arena@[parent_idx as int].children@.contains(c)
                    &&& self.arena@[c as int].value == value
                    &&& self.paths@[c as int] == self.paths@[parent_idx as int].push(value)
                },
                None => forall|k: int|
                    0 <= k < self.paths@.len() ==> self.paths@[k] != self.paths@[parent_idx as int].push(
                        value,
                    ),
            },
    {
        let children = &self.arena[parent_idx].children;
        let mut j: usize = 0;
        while j < children.len()
            invariant
                self.linked(),
                parent_idx < self.arena@.len(),
                children@ == self.arena@[parent_idx as int].children@,
                0 <= j <= children@.len(),
                forall|k: int|
                    0 <= k < j ==> self.arena@[#[trigger] children@[k] as int].value != value,
            decreases children@.len() - j,
        {
            let child_idx = children[j];
            if self.arena[child_idx].value == value {
                proof {
                    reveal(ArenaTrie::has_child);
                    assert(children@[j as int] == child_idx);
                }
                return Some(child_idx);
            }
            j += 1;
        }
        proof {
            reveal(ArenaTrie::has_child);
            self.lemma_no_such_child(parent_idx as int, value);
        }
        None
    }

    /// Where no child of `parent` has symbol `value`, no node has the path of
    /// `parent` followed by `value`.
    proof fn lemma_no_such_child(&self, parent: int, value: char)
        requires
            self.linked(),
            0 <= parent < self.arena@.len(),
            forall|k: int|
                0 <= k < self.arena@[parent].children@.len() ==> self.arena@[
                    #[trigger] self.arena@[parent].children@[k] as int].value != value,
        ensures
            forall|k: int|
                0 <= k < self.paths@.len() ==> self.paths@[k] != self.paths@[parent].push(value),
    {
        let a = self.arena@;
        let ps = self.paths@;
        let target = ps[parent].push(value);
        assert forall|k: int| 0 <= k < ps.len() implies ps[k] != target by {
            assert(target.len() > 0);
            if k > 0 && ps[k] == target {
                let q = a[k].parent->0 as int;
                assert(ps[k] == ps[q].push(a[k].value));
                assert(ps[k].drop_last() =~= ps[q]);
                assert(target.drop_last() =~= ps[parent]);
                assert(ps[k].last() == a[k].value);
                assert(q == parent);
                assert(a[q].children@.contains(k as usize));
                let jj = choose|jj: int|
                    0 <= jj < a[q].children@.len() && a[q].children@[jj] == k as usize;
                assert(a[a[parent].children@[jj] as int].value != value);
            }
        }
    }

    /// The child of `parent_idx` with symbol `value`, made if there is none.
    /// The stored words stay as they are.
    fn add_node(&mut self, value: char, parent_idx: usize) -> (r: usize)
        requires
            old(self).linked(),
            parent_idx < old(self).arena@.len(),
        ensures
            final(self).linked(),
            final(self).words() == old(self).words(),
            r < final(self).arena@.len(),
            final(self).paths@[r as int] == old(self).paths@[parent_idx as int].push(value),
            old(self).has_child(parent_idx as int, value) ==> {
                &&& *final(self) == *old(self)
                &&& old(self).arena@[parent_idx as int].children@.contains(r)
                &&& old(self).arena@[r as int].value == value
            },
            !old(self).has_child(parent_idx as int, value) ==> {
                let ns = old(self).nodes();
                let p = ns[parent_idx as int];
                &&& r == ns.len()
                &&& final(self).nodes() == ns.update(
                    parent_idx as int,
                    (p.0, p.1, p.2, p.3.push(r), p.4),
                ).push((r, value, Some(parent_idx), Seq::<usize>::empty(), false))
                &&& final(self).paths@ == old(self).paths@.push(
                    old(self).paths@[parent_idx as int].push(value),
                )
            },
    {
        if let Some(child_idx) = self.find_child(parent_idx, value) {
            return child_idx;
        }
        let ghost ps = self.paths@;
        let ghost new_path = ps[parent_idx as int].push(value);
        let ghost a0 = self.arena@;
        let index = self.get_new_node_index();
        let mut node = ArenaNode::new(index, value, false);
        node.parent = Some(parent_idx);
        self.arena.push(node);
        self.arena[parent_idx].children.push(index);
        self.paths = Ghost(ps.push(new_path));
        proof {
            let a = self.arena@;
            let ps2 = self.paths@;
            assert(ps2[index as int] == new_path);
            assert forall|i: int| 0 <= i < a.len() implies (#[trigger] a[i]).index == i by {
                if i < a0.len() {
                    assert(a[i].index == a0[i].index);
                }
            }
            assert forall|i: int| 0 < i < a.len() implies {
                &&& (#[trigger] a[i]).parent is Some
                &&& a[i].parent->0 < i
                &&& ps2[i] == ps2[a[i].parent->0 as int].push(a[i].value)
                &&& a[a[i].parent->0 as int].children@.contains(i as usize)
            } by {
                if i == index {
                    assert(a[parent_idx as int].children@.last() == index);
                } else {
                    let q = a0[i].parent->0 as int;
                    assert(a0[q].children@.contains(i as usize));
                    let jj = choose|jj: int|
                        0 <= jj < a0[q].children@.len() && a0[q].children@[jj] == i as usize;
                    assert(a[q].children@[jj] == i as usize);
                }
            }
            assert forall|i: int, j: int| 0 <= i < a.len() && 0 <= j < a[i].children@.len() implies {
                &&& 0 < #[trigger] a[i].children@[j] < a.len()
                &&& a[a[i].children@[j] as int].parent == Some(i as usize)
            } by {
                if i != parent_idx || j < a0[i].children@.len() {
                    assert(a[i].children@[j] == a0[i].children@[j]);
                }
            }
            assert forall|i: int, k: int| 0 <= i < ps2.len() && 0 <= k < ps2.len() && i != k implies ps2[i]
                != ps2[k] by {
                if i < ps.len() && k < ps.len() {
                    assert(ps[i] != ps[k]);
                }
            }
            assert forall|w: Seq<char>| #[trigger] self.words().contains(w) implies old(
                self,
            ).words().contains(w) by {
                let i = choose|i: int| 0 <= i < a.len() && ps2[i] == w && a[i].is_word;
                assert(a0[i].is_word);
            }
            assert forall|w: Seq<char>| #[trigger] old(self).words().contains(w) implies self.words().contains(
                w,
            ) by {
                let i = choose|i: int| 0 <= i < a0.len() && ps[i] == w && a0[i].is_word;
                assert(a[i].is_word && ps2[i] == w);
            }
            assert(self.words() =~= old(self).words());
            let ns = old(self).nodes();
            let pn = ns[parent_idx as int];
            assert(self.nodes() =~= ns.update(
                parent_idx as int,
                (pn.0, pn.1, pn.2, pn.3.push(index), pn.4),
            ).push((index, value, Some(parent_idx), Seq::<usize>::empty(), false)));
        }
        index
    }

    /// Marks node `idx`, which is not the root, as the end of a word.
    fn mark_word(&mut self, idx: usize)
        requires
            old(self).linked(),
            0 < idx < old(self).arena@.len(),
        ensures
            final(self).linked(),
            final(self).paths@ == old(self).paths@,
            final(self).words() == old(self).words().insert(old(self).paths@[idx as int]),
            ({
                let p = old(self).nodes()[idx as int];
                final(self).nodes() == old(self).nodes().update(idx as int, (p.0, p.1, p.2, p.3, true))
            }),
    {
        let ghost a0 = self.arena@;
        self.arena[idx].is_word = true;
        proof {
            let a = self.arena@;
            let ps = self.paths@;
            assert forall|i: int| 0 <= i < a.len() implies (#[trigger] a[i]) == a0[i] || i == idx by {}
            assert forall|w: Seq<char>| #[trigger] self.words().contains(w) implies old(
                self,
            ).words().insert(ps[idx as int]).contains(w) by {
                let k = choose|k: int| 0 <= k < a.len() && ps[k] == w && a[k].is_word;
                if k != idx {
                    assert(a0[k].is_word);
                }
            }
            assert forall|w: Seq<char>| #[trigger] old(self).words().insert(ps[idx as int]).contains(
                w,
            ) implies self.words().contains(w) by {
                if w == ps[idx as int] {
                    assert(a[idx as int].is_word);
                } else {
                    let k = choose|k: int| 0 <= k < a0.len() && ps[k] == w && a0[k].is_word;
                    assert(a[k].is_word);
                }
            }
            assert(self.words() =~= old(self).words().insert(ps[idx as int]));
            let pn = old(self).nodes()[idx as int];
            assert(self.nodes() =~= old(self).nodes().update(idx as int, (pn.0, pn.1, pn.2, pn.3, true)));
        }
    }
    /// Once the path of `word` is laid and its last node marked, the node
    /// paths are those of the stored words again.
    proof fn lemma_paths_after_insert(
        &self,
        old_words: Set<Seq<char>>,
        old_paths: Seq<Seq<char>>,
        word: Seq<char>,
        trail: Seq<int>,
    )
        requires
            self.linked(),
            self.words() == with_word(old_words, word),
            node_paths(old_words).finite(),
            forall|p: Seq<char>| #[trigger] node_paths(old_words).contains(p) ==> old_paths.contains(p),
            old_paths.len() <= self.paths@.len(),
            forall|k: int| 0 <= k < old_paths.len() ==> self.paths@[k] == old_paths[k],
            forall|k: int|
                0 <= k < self.paths@.len() ==> (node_paths(old_words) + prefixes(word)).contains(
                    #[trigger] self.paths@[k],
                ),
            trail.len() == word.len() + 1,
            forall|j: int|
                0 <= j <= word.len() ==> 0 <= #[trigger] trail[j] < self.paths@.len()
                    && self.paths@[trail[j]] == word.subrange(0, j),
        ensures
            self.paths_match(),
    {
        let ps = self.paths@;
        lemma_node_paths_with_word(old_words, word);
        assert forall|p: Seq<char>| #[trigger]
            node_paths(self.words()).contains(p) implies ps.contains(p) by {
            if node_paths(old_words).contains(p) {
                let k = choose|k: int| 0 <= k < old_paths.len() && old_paths[k] == p;
                assert(ps[k] == p);
            } else {
                assert(p =~= word.subrange(0, p.len() as int));
                assert(ps[trail[p.len() as int]] == p);
            }
        }
        lemma_with_word_size(old_words, word);
    }
}

/// How inserting `word` leaves the table of `before` in `after`: no node
/// moves or changes symbol or parent, old children lists only grow, the new
/// nodes, appended at the end, spell the missing prefixes of `word` from the
/// shortest on, and only the node of `word` becomes a word. A word that is
/// already stored, or the empty word, leaves the table as it is.
pub open spec fn table_after_insert(before: ArenaTrie, after: ArenaTrie, word: Seq<char>) -> bool {
    let old_ns = before.nodes();
    let ns = after.nodes();
    let ps = after.path_table();
    let n0 = old_ns.len() as int;
    let added = ns.len() - n0;
    &&& n0 <= ns.len()
    &&& ps.subrange(0, n0) == before.path_table()
    &&& forall|k: int|
        0 <= k < n0 ==> {
            &&& (#[trigger] ns[k]).0 == old_ns[k].0
            &&& ns[k].1 == old_ns[k].1
            &&& ns[k].2 == old_ns[k].2
            &&& old_ns[k].3.is_prefix_of(ns[k].3)
            &&& ns[k].4 == (old_ns[k].4 || (word.len() > 0 && ps[k] == word))
        }
    &&& forall|k: int| n0 <= k < ns.len() ==> (#[trigger] ns[k]).4 == (ps[k] == word)
    &&& forall|k: int|
        0 <= k < added ==> #[trigger] ps[n0 + k] == word.subrange(0, word.len() - added + k + 1)
    &&& (before.words().contains(word) || word.len() == 0) ==> ns == old_ns && ps
        == before.path_table()
}

impl ArenaTrie {
    /// While the path of `word` is laid, `i` symbols in, with `parent` its
    /// current end: the old nodes keep their fields, their children lists
    /// only grow, and the new nodes, none a word yet, spell the prefixes of
    /// `word` up to `i` that were missing.
    #[verifier::opaque]
    pub closed spec fn walk_table(&self, old_ns: Seq<NodeView>, word: Seq<char>, i: int, parent: int) -> bool {
        let ns = self.nodes();
        let ps = self.paths@;
        let n0 = old_ns.len() as int;
        &&& ns.len() == ps.len()
        &&& n0 <= ps.len()
        &&& forall|k: int|
            0 <= k < n0 ==> {
                &&& (#[trigger] ns[k]).0 == old_ns[k].0
                &&& ns[k].1 == old_ns[k].1
                &&& ns[k].2 == old_ns[k].2
                &&& ns[k].4 == old_ns[k].4
                &&& old_ns[k].3.is_prefix_of(ns[k].3)
            }
        &&& forall|k: int| n0 <= k < ps.len() ==> !(#[trigger] ns[k]).4
        &&& forall|k: int|
            0 <= k < ps.len() - n0 ==> #[trigger] ps[n0 + k] == word.subrange(
                0,
                i - (ps.len() - n0) + k + 1,
            )
        &&& ps.len() > n0 ==> parent == ps.len() - 1 && ns[parent].3.len() == 0
        &&& ps.len() == n0 ==> ns == old_ns
    }

    proof fn lemma_walk_start(&self, word: Seq<char>)
        requires
            self.linked(),
        ensures
            self.walk_table(self.nodes(), word, 0, 0),
    {
        reveal(ArenaTrie::walk_table);
        let ns = self.nodes();
        assert forall|k: int| 0 <= k < ns.len() implies ns[k].3.is_prefix_of(#[trigger] ns[k].3) by {
            assert(ns[k].3 =~= ns[k].3.subrange(0, ns[k].3.len() as int));
        }
    }
}

proof fn lemma_table_unchanged(t: ArenaTrie, word: Seq<char>)
    requires
        t.linked(),
        word.len() == 0,
    ensures
        table_after_insert(t, t, word),
{
    let ns = t.nodes();
    assert(t.path_table().subrange(0, ns.len() as int) =~= t.path_table());
    assert forall|k: int| 0 <= k < ns.len() implies ns[k].3.is_prefix_of(#[trigger] ns[k].3) by {
        assert(ns[k].3 =~= ns[k].3.subrange(0, ns[k].3.len() as int));
    }
}

/// One step of the walk: `add_node` from `pre` to `post` keeps the table
/// conditions of the walk.
proof fn lemma_walk_step(
    pre: ArenaTrie,
    post: ArenaTrie,
    old_ns: Seq<NodeView>,
    word: Seq<char>,
    i: int,
    p0: int,
    r: int,
)
    requires
        pre.linked(),
        post.linked(),
        0 <= i < word.len(),
        0 <= p0 < pre.arena@.len(),
        pre.walk_table(old_ns, word, i, p0),
        pre.has_child(p0, word[i]) ==> post == pre,
        !pre.has_child(p0, word[i]) ==> {
            let ns = pre.nodes();
            let p = ns[p0];
            &&& r == ns.len()
            &&& post.nodes() == ns.update(p0, (p.0, p.1, p.2, p.3.push(r as usize), p.4)).push(
                (r as usize, word[i], Some(p0 as usize), Seq::<usize>::empty(), false),
            )
            &&& post.paths@ == pre.paths@.push(pre.paths@[p0].push(word[i]))
        },
        pre.paths@[p0] == word.subrange(0, i),
    ensures
        post.walk_table(old_ns, word, i + 1, r),
{
    reveal(ArenaTrie::walk_table);
    reveal(ArenaTrie::has_child);
    let n0 = old_ns.len() as int;
    let had = pre.has_child(p0, word[i]);
    let before_ns = pre.nodes();
    let before = pre.paths@;
    assert(word.subrange(0, i + 1) =~= word.subrange(0, i).push(word[i]));
    if pre.paths@.len() > n0 {
        assert(pre.arena@[p0].view_node() == before_ns[p0]);
        assert(!had);
    }
    if had {
        assert(pre.paths@.len() == n0);
    } else {
        assert forall|k: int| 0 <= k < n0 implies {
            &&& (#[trigger] post.nodes()[k]).0 == old_ns[k].0
            &&& post.nodes()[k].1 == old_ns[k].1
            &&& post.nodes()[k].2 == old_ns[k].2
            &&& post.nodes()[k].4 == old_ns[k].4
            &&& old_ns[k].3.is_prefix_of(post.nodes()[k].3)
        } by {
            assert(before_ns[k].0 == old_ns[k].0);
            if k == p0 {
                assert(old_ns[k].3.is_prefix_of(before_ns[k].3));
                assert(old_ns[k].3 =~= post.nodes()[k].3.subrange(0, old_ns[k].3.len() as int));
            } else {
                assert(post.nodes()[k] == before_ns[k]);
            }
        }
        assert forall|k: int| n0 <= k < post.paths@.len() implies !(#[trigger] post.nodes()[k]).4 by {
            if k < before.len() {
                assert(post.nodes()[k].4 == before_ns[k].4);
            }
        }
        assert forall|k: int| 0 <= k < post.paths@.len() - n0 implies #[trigger] post.paths@[n0 + k]
            == word.subrange(0, (i + 1) - (post.paths@.len() - n0) + k + 1) by {
            if n0 + k < before.len() {
                assert(post.paths@[n0 + k] == before[n0 + k]);
            }
        }
    }
}

/// Marking the end of the walk gives the table promised by `add_word`.
proof fn lemma_walk_finish(old_self: ArenaTrie, pre: ArenaTrie, post: ArenaTrie, word: Seq<char>, p: int)
    requires
        old_self.wf(),
        pre.linked(),
        post.linked(),
        word.len() > 0,
        0 < p < pre.arena@.len(),
        pre.walk_table(old_self.nodes(), word, word.len() as int, p),
        pre.paths@[p] == word,
        forall|k: int| 0 <= k < old_self.paths@.len() ==> pre.paths@[k] == old_self.paths@[k],
        old_self.paths@.len() == old_self.nodes().len(),
        old_self.words().contains(word) ==> pre.paths@.len() == old_self.paths@.len(),
        post.paths@ == pre.paths@,
        ({
            let q = pre.nodes()[p];
            post.nodes() == pre.nodes().update(p, (q.0, q.1, q.2, q.3, true))
        }),
    ensures
        table_after_insert(old_self, post, word),
{
    reveal(ArenaTrie::walk_table);
    let old_ns = old_self.nodes();
    let n0 = old_ns.len() as int;
    let ns = post.nodes();
    let ps = post.paths@;
    let pre_ns = pre.nodes();
    assert(ps.subrange(0, n0) =~= old_self.paths@);
    assert(ns.len() == pre_ns.len());
    assert forall|k: int| 0 <= k < ns.len() && k != p implies ps[k] != word by {}
    assert forall|k: int| 0 <= k < ns.len() && k != p implies #[trigger] ns[k] == pre_ns[k] by {}
    assert forall|k: int| 0 <= k < n0 implies {
        &&& (#[trigger] ns[k]).0 == old_ns[k].0
        &&& ns[k].1 == old_ns[k].1
        &&& ns[k].2 == old_ns[k].2
        &&& old_ns[k].3.is_prefix_of(ns[k].3)
        &&& ns[k].4 == (old_ns[k].4 || (word.len() > 0 && ps[k] == word))
    } by {
        assert(pre_ns[k].0 == old_ns[k].0);
        if k != p {
            assert(ns[k] == pre_ns[k]);
            assert(ps[k] != word);
        }
    }
    assert forall|k: int| n0 <= k < ns.len() implies (#[trigger] ns[k]).4 == (ps[k] == word) by {
        if k != p {
            assert(ns[k] == pre_ns[k]);
            assert(!pre_ns[k].4);
            assert(ps[k] != word);
        }
    }
    assert forall|k: int| 0 <= k < ns.len() - n0 implies #[trigger] ps[n0 + k] == word.subrange(
        0,
        word.len() - (ns.len() - n0) + k + 1,
    ) by {
        assert(pre.paths@[n0 + k] == word.subrange(
            0,
            word.len() - (pre.paths@.len() - n0) + k + 1,
        ));
    }
    if old_self.words().contains(word) {
        let kk = choose|kk: int|
            0 <= kk < old_self.arena@.len() && old_self.paths@[kk] == word && old_self.arena@[kk].is_word;
        assert(old_self.arena@[kk].view_node() == old_ns[kk]);
        assert(old_ns[kk].4);
        assert(kk == p);
        assert(pre_ns == old_ns);
        assert(ns =~= old_ns);
        assert(ps =~= old_self.paths@);
    }
    assert(n0 <= ns.len());
    assert(ps.subrange(0, n0) == old_self.path_table());
}

impl WordTree for ArenaTrie {
    closed spec fn wf(&self) -> bool {
        self.linked() && self.paths_match()
    }

    closed spec fn words(&self) -> Set<Seq<char>> {
        Set::new(
            |w: Seq<char>|
                exists|i: int|
                    0 <= i < self.arena@.len() && self.paths@[i] == w && #[trigger] self.arena@[i].is_word,
        )
    }

    proof fn lemma_wf(&self) {
        if self.words().contains(Seq::<char>::empty()) {
            let i = choose|i: int|
                0 <= i < self.arena@.len() && self.paths@[i] == Seq::<char>::empty()
                    && #[trigger] self.arena@[i].is_word;
            assert(i == 0);
        }
    }

    fn build(words: Vec<Vec<char>>) -> (r: Self) {
        let ghost ws = word_seqs(words@);
        let mut trie = ArenaTrie::default();
        proof {
            lemma_whole_list(ws);
            lemma_empty_node_paths();
        }
        let mut i: usize = 0;
        while i < words.len()
            invariant
                ws == word_seqs(words@),
                total_len(ws) < usize::MAX,
                0 <= i <= words@.len(),
                trie.wf(),
                trie.words() == stored_words(ws.subrange(0, i as int)),
                node_paths(trie.words()).len() <= 1 + total_len(ws.subrange(0, i as int)),
            decreases words@.len() - i,
        {
            proof {
                lemma_total_len_step(ws, i as int);
                lemma_stored_words_step(ws, i as int);
                lemma_with_word_size(trie.words(), ws[i as int]);
            }
            trie.add_word(words[i].as_slice());
            i += 1;
        }
        proof {
            lemma_whole_list(ws);
        }
        trie
    }

    #[verifier::spinoff_prover]
    fn find_word(&self, word: &[char]) -> (r: Option<NodeType<char>>) {
        let ghost ps = self.paths@;
        let mut curr_idx: usize = 0;
        let mut i: usize = 0;
        while i < word.len()
            invariant
                self.wf(),
                ps == self.paths@,
                0 <= i <= word@.len(),
                curr_idx < self.arena@.len(),
                ps[curr_idx as int] == word@.subrange(0, i as int),
            decreases word@.len() - i,
        {
            proof {
                assert(word@.subrange(0, i as int + 1) =~= word@.subrange(0, i as int).push(
                    word@[i as int],
                ));
            }
            match self.find_child(curr_idx, word[i]) {
                Some(next_idx) => {
                    curr_idx = next_idx;
                },
                None => {
                    proof {
                        // The path breaks here: neither this prefix nor the
                        // whole query has a node.
                        let x = word@.subrange(0, i as int + 1);
                        assert(!ps.contains(x));
                        if node_paths(self.words()).contains(word@) {
                            lemma_node_paths_prefix(self.words(), word@, i as int + 1);
                        }
                    }
                    return None;
                },
            }
            i += 1;
        }
        proof {
            assert(word@.subrange(0, word@.len() as int) =~= word@);
            assert(node_paths(self.words()).contains(word@));
            if word@.len() > 0 {
                assert(curr_idx != 0);
                assert(ps[curr_idx as int].last() == self.arena@[curr_idx as int].value);
            }
            if self.words().contains(word@) {
                let k = choose|k: int|
                    0 <= k < self.arena@.len() && ps[k] == word@ && self.arena@[k].is_word;
                assert(k == curr_idx);
            }
        }
        let value = self.arena[curr_idx].value;
        if self.arena[curr_idx].is_word {
            Some(NodeType::CompleteWord(value))
        } else {
            Some(NodeType::IncompleteWord(value))
        }
    }

    #[verifier::spinoff_prover]
    #[verifier::rlimit(100)]
    fn add_word(&mut self, word: &[char])
        ensures
            table_after_insert(*old(self), *final(self), word@),
    {
        let ghost old_self = *self;
        let ghost old_ns = self.nodes();
        let ghost n0 = old_ns.len() as int;
        if word.len() == 0 {
            proof {
                lemma_table_unchanged(*self, word@);
            }
            return;
        }
        let ghost old_words = self.words();
        let ghost old_paths = self.paths@;
        let ghost mut trail: Seq<int> = seq![0int];
        proof {
            assert(old_paths[0] == word@.subrange(0, 0));
            self.lemma_walk_start(word@);
        }
        let mut parent_idx: usize = 0;
        let mut i: usize = 0;
        while i < word.len()
            invariant
                self.linked(),
                self.words() == old_words,
                old_words == old(self).words(),
                old_paths == old(self).paths@,
                old_ns == old(self).nodes(),
                old_self == *old(self),
                n0 == old_paths.len(),
                node_paths(old_words).finite(),
                forall|p: Seq<char>| #[trigger]
                    node_paths(old_words).contains(p) ==> old_paths.contains(p),
                0 <= i <= word@.len(),
                parent_idx < self.arena@.len(),
                self.paths@[parent_idx as int] == word@.subrange(0, i as int),
                old_paths.len() <= self.paths@.len(),
                forall|k: int| 0 <= k < old_paths.len() ==> self.paths@[k] == old_paths[k],
                forall|k: int|
                    0 <= k < self.paths@.len() ==> (node_paths(old_words) + prefixes(
                        word@,
                    )).contains(#[trigger] self.paths@[k]),
                trail.len() == i + 1,
                forall|j: int|
                    0 <= j <= i ==> 0 <= #[trigger] trail[j] < self.paths@.len()
                        && self.paths@[trail[j]] == word@.subrange(0, j),
                self.walk_table(old_ns, word@, i as int, parent_idx as int),
                old_words.contains(word@) ==> self.paths@.len() == n0,
            decreases word@.len() - i,
        {
            let ghost before = self.paths@;
            let ghost pre = *self;
            let ghost p0 = parent_idx as int;
            parent_idx = self.add_node(word[i], parent_idx);
            proof {
                assert(word@.subrange(0, i as int + 1) =~= word@.subrange(0, i as int).push(
                    word@[i as int],
                ));
                assert(word@.subrange(0, i as int + 1).is_prefix_of(word@));
                trail = trail.push(parent_idx as int);
                assert forall|k: int| 0 <= k < self.paths@.len() implies (node_paths(old_words)
                    + prefixes(word@)).contains(#[trigger] self.paths@[k]) by {
                    if k < before.len() {
                        assert(self.paths@[k] == before[k]);
                    }
                }
                assert forall|j: int| 0 <= j <= i + 1 implies 0 <= #[trigger] trail[j]
                    < self.paths@.len() && self.paths@[trail[j]] == word@.subrange(0, j) by {
                    if j <= i {
                        assert(self.paths@[trail[j]] == before[trail[j]]);
                    }
                }
                lemma_walk_step(pre, *self, old_ns, word@, i as int, p0, parent_idx as int);
                if old_words.contains(word@) {
                    let x = word@.subrange(0, i as int + 1);
                    assert(node_paths(old_words).contains(x));
                    let kk = choose|kk: int| 0 <= kk < old_paths.len() && old_paths[kk] == x;
                    assert(pre.paths@[kk] == x);
                    if !pre.has_child(p0, word@[i as int]) {
                        assert(self.paths@[before.len() as int] == x);
                        assert(self.paths@[kk] == x);
                        assert(self.paths@.no_duplicates());
                        assert(false);
                    }
                }
            }
            i += 1;
        }
        proof {
            assert(word@.subrange(0, word@.len() as int) =~= word@);
            assert(parent_idx != 0);
        }
        let ghost pre = *self;
        self.mark_word(parent_idx);
        proof {
            assert(self.words() =~= with_word(old_words, word@));
            self.lemma_paths_after_insert(old_words, old_paths, word@, trail);
            lemma_with_word_size(old_words, word@);
            lemma_walk_finish(old_self, pre, *self, word@, parent_idx as int);
        }
    }

    fn delete_word(&self, word: &[char]) -> (r: Result<(), TrieError>) {
        Err(TrieError::Unsupported)
    }
}

} // verus!
