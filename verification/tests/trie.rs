use std::collections::HashSet;
use xwords::trie::Trie;
use xwords::trie::TrieNode;

#[test]
fn add_sequence_works() {
    let root = TrieNode::new(Some('a'));

    let new_root = root.add_sequence("itsyaboi");

    println!("{}", new_root.display());

    let another_root = new_root.add_sequence("wereallyouthere");

    println!("{}", another_root.display())
}

#[test]
fn display_works() {
    let root = TrieNode::new(None);
    let root = root.add_sequence("b");
    let root = root.add_sequence("cd");

    println!("{}", root.display());
}

#[test]
fn build_works() {
    println!(
        "{}",
        Trie::build(vec![
            String::from("asdf"),
            String::from("asset"),
            String::from("bass"),
            String::from("baseball"),
            String::from("bassooon"),
            String::from("basset"),
        ])
        .display()
    );
}

#[test]
fn words_works() {
    let trie = Trie::build(vec![
        String::from("bass"),
        String::from("bats"),
        String::from("bess"),
        String::from("be"),
    ]);

    let expected: HashSet<String> = vec![String::from("bass"), String::from("bess")]
        .iter()
        .cloned()
        .collect();

    let iter = vec!['b', ' ', 's', 's'];
    let actual: HashSet<String> = trie.words(&iter).iter().cloned().collect();
    assert_eq!(expected, actual,)
}

#[test]
fn is_viable_answers_like_words() {
    let trie = Trie::build(vec![
        String::from("bass"),
        String::from("bats"),
        String::from("be"),
    ]);
    let pattern = vec!['b', 'a', ' ', 's'];
    assert_eq!(trie.is_viable(&pattern), !trie.words(&pattern).is_empty());
    let pattern = vec!['x', ' '];
    assert_eq!(trie.is_viable(&pattern), !trie.words(&pattern).is_empty());
    assert!(!trie.is_viable(&pattern));
}

#[test]
fn trie_bytes_round_trip() {
    let trie = Trie::build(vec![
        String::from("bass"),
        String::from("bats"),
        String::from("bess"),
        String::from("be"),
    ]);
    let bytes = trie.to_bytes();
    let loaded = Trie::from_bytes(&bytes).unwrap();

    let patterns: Vec<Vec<char>> = vec![
        vec!['b', ' ', 's', 's'],
        vec!['b', 'e'],
        vec![' ', ' '],
        vec!['b', 'a', 't', 's'],
        vec!['q'],
    ];
    for p in &patterns {
        let a: HashSet<String> = trie.words(p).iter().cloned().collect();
        let b: HashSet<String> = loaded.words(p).iter().cloned().collect();
        assert_eq!(a, b);
        assert_eq!(trie.is_viable(p), loaded.is_viable(p));
    }
}

#[test]
fn load_fails_on_malformed_bytes() {
    let bytes = vec![1u8, 2, 3];
    let r = Trie::from_bytes(&bytes);
    match r {
        Ok(_) => panic!("malformed bytes were accepted"),
        Err(e) => assert_eq!(e, String::from("Failed to load trie.")),
    }
}
