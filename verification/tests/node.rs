use applejack::node::TrieNode;

fn node(prefix: &[u8], branches: Vec<TrieNode>) -> TrieNode {
    TrieNode::with_key_and_branches(prefix, branches)
}

#[test]
fn node_general_tests() {
    let mut trie = TrieNode::new();
    trie.insert(&[0, 1, 2]);
    trie.insert(&[0, 1, 2, 3, 4]);
    trie.insert(&[0, 1, 3]);
    trie.insert(&[]);
    trie.insert(&[]);
    assert!(trie.contains(&[0, 1, 2]));
    assert!(trie.contains(&[0, 1, 2, 3, 4]));
    assert!(trie.contains(&[0, 1, 3]));
    assert!(trie.contains(&[]));
    assert!(!trie.contains(&[1, 2, 3]));
    assert_eq!(
        trie,
        node(
            &[],
            vec![node(
                &[0, 1],
                vec![node(&[2], vec![node(&[3, 4], vec![])]), node(&[3], vec![])]
            )]
        )
    )
}

#[test]
fn node_insert_empty() {
    let mut trie = TrieNode::new();
    trie.insert(&[0, 1, 2]);
    trie.insert(&[]);
    trie.insert(&[0, 1, 2, 3, 4]);
    trie.insert(&[0, 1, 2, 3, 4, 5, 6]);
    assert!(trie.contains(&[0, 1, 2]));
    assert!(trie.contains(&[]));
    assert!(!trie.contains(&[0, 1, 2, 3]));
    assert!(!trie.contains(&[0, 1]));
    assert_eq!(
        trie,
        node(
            &[],
            vec![node(
                &[0, 1, 2],
                vec![node(&[3, 4], vec![node(&[5, 6], vec![])])]
            )]
        )
    )
}

#[test]
fn node_insert_very_different_strings() {
    let mut trie = TrieNode::new();
    trie.insert(&[0, 1, 2, 3]);
    trie.insert(&[4, 5, 6, 7]);
    assert_eq!(
        trie,
        node(
            &[],
            vec![node(&[0, 1, 2, 3], vec![]), node(&[4, 5, 6, 7], vec![])]
        )
    )
}

#[test]
fn node_get_something_that_exist() {
    let mut trie = TrieNode::new();
    trie.insert(&[0, 1, 2, 3]);
    trie.insert(&[4, 5, 6, 7]);
    assert_eq!(
        trie,
        node(
            &[],
            vec![node(&[0, 1, 2, 3], vec![]), node(&[4, 5, 6, 7], vec![])]
        )
    );
    assert!(trie.contains(&[0, 1, 2, 3]));
}

#[test]
fn node_initialize_with_something_big() {
    let mut trie = TrieNode::with_key(&[0, 1, 2, 3]);
    trie.insert(&[0, 1, 2, 3, 4]);
    assert_eq!(trie, node(&[0, 1, 2, 3], vec![node(&[4], vec![])]));
    assert!(trie.contains(&[0, 1, 2, 3]));
}

#[test]
fn node_get_empty_exists() {
    let trie = TrieNode::new();
    assert!(trie.contains(&[]));
}

#[test]
fn node_get_nested_exists() {
    let mut trie = TrieNode::new();
    trie.insert(&[0, 1, 2]);
    trie.insert(&[]);
    trie.insert(&[0, 1, 2, 3, 4]);
    trie.insert(&[0, 1, 2, 3, 4, 5, 6]);
    assert_eq!(
        trie,
        node(
            &[],
            vec![node(
                &[0, 1, 2],
                vec![node(&[3, 4], vec![node(&[5, 6], vec![])])]
            )]
        )
    );
    assert!(!trie.contains(&[0, 1, 2, 3]));
    assert!(trie.contains(&[0, 1, 2, 3, 4]));
    assert!(!trie.contains(&[0, 1, 2, 3, 4, 5]));
    assert!(trie.contains(&[0, 1, 2, 3, 4, 5, 6]));
}
