use boggler_rs::hash_trie::HashTrie;
use boggler_rs::model::{NodeType, TrieError};
use boggler_rs::traits::WordTree;

fn chars(s: &str) -> Vec<char> {
    s.chars().collect()
}

fn build(words: &[&str]) -> HashTrie {
    HashTrie::build(words.iter().map(|w| chars(w)).collect())
}

#[test]
fn hash_trie_test_size() {
    let trie = build(&["aardvark", "aardvarks", "aardwolves", "boarding"]);

    assert_eq!(24, trie.size())
}

#[test]
fn hash_trie_test_find() {
    let trie = build(&["aardvark", "aardvarks", "aardwolves", "abandon", "abandons"]);

    assert!(trie
        .find_word(&chars("a"))
        .is_some_and(|nt| match nt {
            NodeType::IncompleteWord('a') => true,
            _ => false,
        }));
    assert!(trie
        .find_word(&chars("aardvar"))
        .is_some_and(|nt| match nt {
            NodeType::IncompleteWord('r') => true,
            _ => false,
        }));
    assert!(trie
        .find_word(&chars("aardvark"))
        .is_some_and(|nt| match nt {
            NodeType::CompleteWord('k') => true,
            _ => false,
        }));
    assert!(trie
        .find_word(&chars("abandons"))
        .is_some_and(|nt| match nt {
            NodeType::CompleteWord('s') => true,
            _ => false,
        }));
    assert!(trie.find_word(&chars("abandoning")).is_none());
}

#[test]
fn hash_trie_test_add_word() {
    let mut trie = build(&["a"]);
    assert_eq!(2, trie.size());

    trie.add_word(&chars("bat"));
    assert_eq!(5, trie.size());

    trie.add_word(&chars("and"));
    assert_eq!(7, trie.size());
}

#[test]
fn hash_classification_scenario() {
    let trie = build(&["aardvark", "aardvarks", "aardwolves", "abandon", "abandons"]);
    assert_eq!(
        trie.find_word(&chars("a")),
        Some(NodeType::IncompleteWord('a'))
    );
    assert_eq!(
        trie.find_word(&chars("aardvar")),
        Some(NodeType::IncompleteWord('r'))
    );
    assert_eq!(
        trie.find_word(&chars("aardvark")),
        Some(NodeType::CompleteWord('k'))
    );
    assert_eq!(
        trie.find_word(&chars("abandon")),
        Some(NodeType::CompleteWord('n'))
    );
    assert_eq!(
        trie.find_word(&chars("abandons")),
        Some(NodeType::CompleteWord('s'))
    );
    assert_eq!(trie.find_word(&chars("abandoning")), None);
}

#[test]
fn hash_insert_twice_changes_nothing() {
    let mut trie = build(&["boar", "board"]);
    trie.add_word(&chars("boarding"));
    let size = trie.size();
    let before = trie.find_word(&chars("boarding"));
    trie.add_word(&chars("boarding"));
    assert_eq!(size, trie.size());
    assert_eq!(before, trie.find_word(&chars("boarding")));
    assert_eq!(before, Some(NodeType::CompleteWord('g')));
    assert_eq!(
        trie.find_word(&chars("boardin")),
        Some(NodeType::IncompleteWord('n'))
    );
}

#[test]
fn hash_prefix_is_shared() {
    let mut trie = build(&[]);
    trie.add_word(&chars("aardvark"));
    assert_eq!(9, trie.size());
    trie.add_word(&chars("aardvarks"));
    assert_eq!(10, trie.size());
}

#[test]
fn hash_shorter_word_adds_no_node() {
    let mut trie = build(&["aardvarks"]);
    assert_eq!(10, trie.size());
    assert_eq!(
        trie.find_word(&chars("aardvark")),
        Some(NodeType::IncompleteWord('k'))
    );
    trie.add_word(&chars("aardvark"));
    assert_eq!(10, trie.size());
    assert_eq!(
        trie.find_word(&chars("aardvark")),
        Some(NodeType::CompleteWord('k'))
    );
}

#[test]
fn hash_absent_on_break() {
    let trie = build(&["cat", "car"]);
    assert_eq!(trie.find_word(&chars("dog")), None);
    assert_eq!(trie.find_word(&chars("cb")), None);
    assert_eq!(trie.find_word(&chars("cattle")), None);
    assert_eq!(trie.find_word(&chars("cxxxxxxxxxxxxxxxxxxxxxxxxxxxxx")), None);
}

#[test]
fn hash_empty_word() {
    let mut trie = build(&["", "ox"]);
    assert_eq!(3, trie.size());
    assert_eq!(
        trie.find_word(&chars("")),
        Some(NodeType::IncompleteWord('\0'))
    );
    trie.add_word(&chars(""));
    assert_eq!(3, trie.size());
    assert_eq!(
        trie.find_word(&chars("")),
        Some(NodeType::IncompleteWord('\0'))
    );
}

#[test]
fn hash_empty_trie() {
    let trie = build(&[]);
    assert_eq!(1, trie.size());
    assert_eq!(
        trie.find_word(&chars("")),
        Some(NodeType::IncompleteWord('\0'))
    );
    assert_eq!(trie.find_word(&chars("a")), None);
}

#[test]
fn hash_default_is_root_alone() {
    let trie = HashTrie::default();
    assert_eq!(1, trie.size());
}

#[test]
fn hash_delete_is_unsupported() {
    let trie = build(&["cat"]);
    assert_eq!(trie.delete_word(&chars("cat")), Err(TrieError::Unsupported));
    assert_eq!(
        trie.find_word(&chars("cat")),
        Some(NodeType::CompleteWord('t'))
    );
    assert_eq!(4, trie.size());
}
