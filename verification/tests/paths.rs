use applejack::TrieNode;

fn node(prefix: &[u8], branches: Vec<TrieNode>) -> TrieNode {
    TrieNode::with_key_and_branches(prefix, branches)
}

#[test]
fn constructors_build_the_same_shapes() {
    assert_eq!(TrieNode::new(), node(&[], vec![]));
    assert_eq!(TrieNode::with_key(&[1, 2]), node(&[1, 2], vec![]));
    assert_eq!(
        TrieNode::with_branches(vec![TrieNode::with_key(&[1])]),
        node(&[], vec![node(&[1], vec![])])
    );
}

#[test]
fn shapes_differ_by_label_children_and_order() {
    assert_ne!(node(&[1], vec![]), node(&[2], vec![]));
    assert_ne!(node(&[1], vec![]), node(&[1, 1], vec![]));
    assert_ne!(node(&[1], vec![]), node(&[1], vec![node(&[], vec![])]));
    assert_ne!(
        node(&[], vec![node(&[1], vec![]), node(&[2], vec![])]),
        node(&[], vec![node(&[2], vec![]), node(&[1], vec![])])
    );
    assert_ne!(
        node(&[], vec![node(&[1], vec![node(&[3], vec![])])]),
        node(&[], vec![node(&[1], vec![node(&[4], vec![])])])
    );
}

#[test]
fn inserted_key_is_found_and_earlier_keys_stay() {
    let keys: [&[u8]; 7] = [
        &[5, 6, 7],
        &[5, 6],
        &[5, 7],
        &[],
        &[5, 6, 7, 8, 9],
        &[1],
        &[5, 6, 7, 8, 1],
    ];
    let mut trie = TrieNode::new();
    for (count, key) in keys.iter().enumerate() {
        trie.insert(key);
        for earlier in &keys[..=count] {
            assert!(trie.contains(earlier));
        }
    }
    assert!(!trie.contains(&[5, 6, 7, 9]));
    assert!(!trie.contains(&[5, 6, 7, 8, 9, 9]));
    assert!(!trie.contains(&[2]));
}

#[test]
fn key_ending_inside_the_label_splits_the_node() {
    let mut trie = TrieNode::with_key(&[1, 2, 3]);
    trie.insert(&[1, 2]);
    assert_eq!(trie, node(&[1, 2], vec![node(&[3], vec![])]));
    trie.insert(&[]);
    assert_eq!(
        trie,
        node(&[], vec![node(&[1, 2], vec![node(&[3], vec![])])])
    );
}

#[test]
fn branch_point_is_a_path_of_its_own() {
    let mut trie = TrieNode::new();
    trie.insert(&[0, 1, 2]);
    trie.insert(&[0, 1, 3]);
    assert!(trie.contains(&[0, 1]));
    assert!(!trie.contains(&[0]));
}

#[test]
fn node_that_does_not_accept_the_key_stays_as_it_is() {
    let mut trie = TrieNode::with_key(&[1, 2]);
    trie.insert(&[2, 2]);
    assert_eq!(trie, TrieNode::with_key(&[1, 2]));
    assert!(!trie.contains(&[2, 2]));
}

#[test]
fn first_accepting_child_takes_the_key() {
    let mut trie = node(&[], vec![node(&[1, 1], vec![]), node(&[1, 2], vec![])]);
    trie.insert(&[1, 2, 3]);
    assert_eq!(
        trie,
        node(
            &[],
            vec![
                node(&[1], vec![node(&[1], vec![]), node(&[2, 3], vec![])]),
                node(&[1, 2], vec![])
            ]
        )
    );
    assert!(trie.contains(&[1, 2, 3]));
    assert!(trie.contains(&[1, 2]));
}

#[test]
fn child_without_label_accepts_every_key() {
    let mut trie = node(&[9], vec![node(&[], vec![]), node(&[4], vec![])]);
    trie.insert(&[9, 4, 4]);
    assert_eq!(
        trie,
        node(
            &[9],
            vec![node(&[], vec![node(&[4, 4], vec![])]), node(&[4], vec![])]
        )
    );
    assert!(trie.contains(&[9, 4, 4]));
    assert!(trie.contains(&[9, 4]));
    assert!(trie.contains(&[9]));
}
