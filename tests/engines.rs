use boggler_rs::arena_trie::ArenaTrie;
use boggler_rs::hash_trie::HashTrie;
use boggler_rs::traits::WordTree;

fn chars(s: &str) -> Vec<char> {
    s.chars().collect()
}

fn word_list(words: &[&str]) -> Vec<Vec<char>> {
    words.iter().map(|w| chars(w)).collect()
}

#[test]
fn engines_agree_on_every_query() {
    let words = [
        "aardvark",
        "aardvarks",
        "aardwolves",
        "abandon",
        "abandons",
        "boarding",
        "board",
        "zebra",
        "zebra",
        "",
    ];
    let arena = ArenaTrie::build(word_list(&words));
    let hash = HashTrie::build(word_list(&words));
    assert_eq!(arena.size(), hash.size());
    assert_eq!(36, arena.size());

    let mut queries: Vec<String> = Vec::new();
    for w in words.iter() {
        for end in 0..=w.len() {
            queries.push(w[..end].to_string());
        }
        queries.push(format!("{}x", w));
        queries.push(format!("q{}", w));
    }
    queries.push("abandoning".to_string());
    queries.push("zebras".to_string());
    for q in queries.iter() {
        assert_eq!(
            arena.find_word(&chars(q)),
            hash.find_word(&chars(q)),
            "query {:?}",
            q
        );
    }
}

#[test]
fn engines_grow_alike() {
    let mut arena = ArenaTrie::build(word_list(&["a"]));
    let mut hash = HashTrie::build(word_list(&["a"]));
    for w in ["bat", "and", "an", "bath", "bat", "ä", "日本"] {
        arena.add_word(&chars(w));
        hash.add_word(&chars(w));
        assert_eq!(arena.size(), hash.size());
        assert_eq!(arena.find_word(&chars(w)), hash.find_word(&chars(w)));
    }
    assert_eq!(11, arena.size());
}
