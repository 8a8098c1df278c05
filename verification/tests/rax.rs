use applejack::replay::Operation;
use applejack::Rax;
use std::collections::HashMap;

fn shape<T: std::fmt::Debug>(rax: &Rax<T>) -> String {
    format!("{:?}", rax)
}

#[test]
fn new_tree_maps_nothing() {
    let rax = Rax::<u8>::new();
    assert!(!rax.contains(&[]));
    assert!(!rax.contains(&[0]));
    assert_eq!(rax.get(&[]), None);
    assert_eq!(
        shape(&rax),
        "Rax { root: RaxNode { value: None, prefix: [], branches: [] } }"
    );
    assert_eq!(shape(&Rax::<u8>::default()), shape(&rax));
}

#[test]
fn read_after_write() {
    let mut rax = Rax::new();
    rax.insert(b"key", 1u32);
    assert_eq!(rax.get(b"key"), Some(&1));
    rax.insert(b"", 2);
    assert_eq!(rax.get(b""), Some(&2));
    rax.insert(b"ke", 3);
    assert_eq!(rax.get(b"ke"), Some(&3));
    rax.insert(b"keys", 4);
    assert_eq!(rax.get(b"keys"), Some(&4));
    rax.insert(b"kex", 5);
    assert_eq!(rax.get(b"kex"), Some(&5));
    assert_eq!(rax.get(b"key"), Some(&1));
    assert_eq!(rax.get(b""), Some(&2));
    assert_eq!(rax.get(b"ke"), Some(&3));
    assert_eq!(rax.get(b"keys"), Some(&4));
    assert_eq!(rax.get(b"k"), None);
}

#[test]
fn overwrite_keeps_one_entry() {
    let mut twice = Rax::new();
    twice.insert(b"abc", 1u8);
    twice.insert(b"abd", 2);
    twice.insert(b"abc", 3);
    assert_eq!(twice.get(b"abc"), Some(&3));
    let mut once = Rax::new();
    once.insert(b"abc", 3u8);
    once.insert(b"abd", 2);
    assert_eq!(shape(&twice), shape(&once));
    assert_eq!(twice.remove(b"abc"), Some(3));
    assert_eq!(twice.remove(b"abc"), None);
}

#[test]
fn empty_key_inserted_twice_keeps_second_value_in_root() {
    let mut rax = Rax::new();
    rax.insert(&[], 1u8);
    rax.insert(&[], 2u8);
    assert_eq!(rax.get(&[]), Some(&2));
    assert_eq!(
        shape(&rax),
        "Rax { root: RaxNode { value: Some(2), prefix: [], branches: [] } }"
    );
}

#[test]
fn remove_of_absent_key_changes_nothing() {
    let mut rax = Rax::new();
    rax.insert(b"hello", 1u8);
    rax.insert(b"help", 2);
    let before = shape(&rax);
    assert_eq!(rax.remove(b"hel"), None);
    assert_eq!(rax.remove(b"helium"), None);
    assert_eq!(rax.remove(b"hello!"), None);
    assert_eq!(rax.remove(b"x"), None);
    assert_eq!(rax.remove(b""), None);
    assert_eq!(shape(&rax), before);
    assert_eq!(rax.get(b"hello"), Some(&1));
    assert_eq!(rax.get(b"help"), Some(&2));
}

#[test]
fn insert_then_remove_for_several_keys() {
    let keys: [&[u8]; 6] = [b"", b"a", b"ab", b"abc", b"b", b"\x00\xff"];
    for key in keys {
        let mut rax = Rax::new();
        rax.insert(b"ab", 0u8);
        rax.insert(b"zz", 0);
        rax.insert(key, 9);
        assert_eq!(rax.remove(key), Some(9));
        assert!(!rax.contains(key));
        assert_eq!(rax.remove(key), None);
    }
}

#[test]
fn key_ending_inside_a_label_splits_the_node() {
    let mut rax = Rax::new();
    rax.insert(&[1, 2, 3], 10u8);
    rax.insert(&[1, 2], 20);
    assert_eq!(
        shape(&rax),
        "Rax { root: RaxNode { value: None, prefix: [], branches: [\
         RaxNode { value: Some(20), prefix: [1, 2], branches: [\
         RaxNode { value: Some(10), prefix: [3], branches: [] }] }] } }"
    );
}

#[test]
fn keys_parting_inside_a_label_make_a_branch_point() {
    let mut rax = Rax::new();
    rax.insert(&[1, 2, 3], 10u8);
    rax.insert(&[1, 2, 4, 5], 20);
    assert_eq!(
        shape(&rax),
        "Rax { root: RaxNode { value: None, prefix: [], branches: [\
         RaxNode { value: None, prefix: [1, 2], branches: [\
         RaxNode { value: Some(10), prefix: [3], branches: [] }, \
         RaxNode { value: Some(20), prefix: [4, 5], branches: [] }] }] } }"
    );
    assert_eq!(rax.get(&[1, 2]), None);
}

#[test]
fn key_going_on_below_a_label_appends_a_leaf() {
    let mut rax = Rax::new();
    rax.insert(&[1, 2], 10u8);
    rax.insert(&[1, 2, 3], 20);
    rax.insert(&[1, 2, 4], 30);
    rax.insert(&[9], 40);
    assert_eq!(
        shape(&rax),
        "Rax { root: RaxNode { value: None, prefix: [], branches: [\
         RaxNode { value: Some(10), prefix: [1, 2], branches: [\
         RaxNode { value: Some(20), prefix: [3], branches: [] }, \
         RaxNode { value: Some(30), prefix: [4], branches: [] }] }, \
         RaxNode { value: Some(40), prefix: [9], branches: [] }] } }"
    );
}

#[test]
fn removal_takes_out_the_emptied_leaf() {
    let mut rax = Rax::new();
    rax.insert(b"a", 1u8);
    rax.insert(b"b", 2);
    rax.insert(b"c", 3);
    assert_eq!(rax.remove(b"a"), Some(1));
    assert_eq!(
        shape(&rax),
        "Rax { root: RaxNode { value: None, prefix: [], branches: [\
         RaxNode { value: Some(3), prefix: [99], branches: [] }, \
         RaxNode { value: Some(2), prefix: [98], branches: [] }] } }"
    );
    assert_eq!(rax.remove(b"b"), Some(2));
    assert_eq!(rax.remove(b"c"), Some(3));
    assert_eq!(shape(&rax), shape(&Rax::<u8>::new()));
}

#[test]
fn removal_keeps_a_node_that_has_children() {
    let mut rax = Rax::new();
    rax.insert(b"ab", 1u8);
    rax.insert(b"abc", 2);
    assert_eq!(rax.remove(b"ab"), Some(1));
    assert_eq!(
        shape(&rax),
        "Rax { root: RaxNode { value: None, prefix: [], branches: [\
         RaxNode { value: None, prefix: [97, 98], branches: [\
         RaxNode { value: Some(2), prefix: [99], branches: [] }] }] } }"
    );
    assert_eq!(rax.get(b"abc"), Some(&2));
    assert_eq!(rax.get(b"ab"), None);
}

#[test]
fn branch_point_left_with_one_child_is_not_merged() {
    let mut rax = Rax::new();
    rax.insert(b"ab", 1u8);
    rax.insert(b"ac", 2);
    assert_eq!(rax.remove(b"ab"), Some(1));
    assert_eq!(
        shape(&rax),
        "Rax { root: RaxNode { value: None, prefix: [], branches: [\
         RaxNode { value: None, prefix: [97], branches: [\
         RaxNode { value: Some(2), prefix: [99], branches: [] }] }] } }"
    );
}

#[test]
fn branch_point_that_loses_its_last_child_stays() {
    let mut rax = Rax::new();
    rax.insert(b"ab", 1u8);
    rax.insert(b"ac", 2);
    assert_eq!(rax.remove(b"ab"), Some(1));
    assert_eq!(rax.remove(b"ac"), Some(2));
    assert!(!rax.contains(b"ab"));
    assert!(!rax.contains(b"ac"));
    assert!(!rax.contains(b"a"));
    assert_eq!(
        shape(&rax),
        "Rax { root: RaxNode { value: None, prefix: [], branches: [\
         RaxNode { value: None, prefix: [97], branches: [] }] } }"
    );
    rax.insert(b"ad", 3);
    assert_eq!(rax.get(b"ad"), Some(&3));
    assert_eq!(
        shape(&rax),
        "Rax { root: RaxNode { value: None, prefix: [], branches: [\
         RaxNode { value: None, prefix: [97], branches: [\
         RaxNode { value: Some(3), prefix: [100], branches: [] }] }] } }"
    );
}

#[test]
fn get_mut_changes_one_value() {
    let mut rax = Rax::new();
    rax.insert(b"hello alice", 10);
    rax.insert(b"hello kyle", 20);
    rax.insert(b"", 30);
    let before = shape(&rax);
    assert_eq!(rax.get_mut(b"hello"), None);
    assert_eq!(rax.get_mut(b"hello alice!"), None);
    assert_eq!(shape(&rax), before);
    match rax.get_mut(b"hello alice") {
        Some(value) => {
            assert_eq!(*value, 10);
            *value = 11;
        }
        None => panic!("the key is mapped"),
    }
    if let Some(value) = rax.get_mut(b"") {
        *value += 1;
    }
    assert_eq!(rax.get(b"hello alice"), Some(&11));
    assert_eq!(rax.get(b"hello kyle"), Some(&20));
    assert_eq!(rax.get(b""), Some(&31));
}

#[test]
fn all_single_byte_keys() {
    let mut rax = Rax::new();
    for byte in 0..=255u8 {
        rax.insert(&[byte], byte);
    }
    for byte in 0..=255u8 {
        assert_eq!(rax.get(&[byte]), Some(&byte));
        assert_eq!(rax.get(&[byte, byte]), None);
    }
    for byte in 0..=255u8 {
        assert_eq!(rax.remove(&[byte]), Some(byte));
    }
    assert_eq!(shape(&rax), shape(&Rax::<u8>::new()));
}

#[test]
fn long_keys_with_long_common_prefix() {
    let mut first = vec![7u8; 5000];
    let mut second = vec![7u8; 5000];
    first.push(1);
    second.push(2);
    let mut rax = Rax::new();
    rax.insert(&first, 1u8);
    rax.insert(&second, 2);
    rax.insert(&first[..2500], 3);
    assert_eq!(rax.get(&first), Some(&1));
    assert_eq!(rax.get(&second), Some(&2));
    assert_eq!(rax.get(&first[..2500]), Some(&3));
    assert_eq!(rax.get(&first[..5000]), None);
    assert_eq!(rax.remove(&first), Some(1));
    assert_eq!(rax.get(&second), Some(&2));
}

#[test]
fn apply_answers_like_a_plain_map() {
    let mut rax = Rax::new();
    assert_eq!(rax.apply(&Operation::Get(vec![1])), None);
    assert_eq!(rax.apply(&Operation::Insert(vec![1], 5u8)), None);
    assert_eq!(rax.apply(&Operation::Get(vec![1])), Some(5));
    assert_eq!(rax.apply(&Operation::Insert(vec![1], 6u8)), None);
    assert_eq!(rax.apply(&Operation::Remove(vec![1])), Some(6));
    assert_eq!(rax.apply(&Operation::Remove(vec![1])), None);
    assert_eq!(rax.apply(&Operation::Get(vec![1])), None);
}

#[test]
fn replay_of_the_regression_sequence() {
    let ops = vec![
        Operation::Insert(vec![101, 212, 101, 101, 40, 83, 101, 101], 101u8),
        Operation::Insert(vec![101, 101, 101, 83, 83], 0),
        Operation::Insert(vec![101, 101], 233),
        Operation::Insert(vec![101, 101, 101, 101, 101], 212),
        Operation::Remove(vec![101, 101]),
        Operation::Remove(vec![101, 101, 101, 101, 101]),
        Operation::Get(vec![101, 101, 101, 83, 83]),
        Operation::Get(vec![101, 212, 101, 101, 40, 83, 101, 101]),
        Operation::Get(vec![101, 101]),
    ];
    let mut rax = Rax::new();
    assert_eq!(
        rax.replay(&ops),
        vec![None, None, None, None, Some(233), Some(212), Some(0), Some(101), None]
    );
}

fn next(state: &mut u64) -> u64 {
    *state = state
        .wrapping_mul(6364136223846793005)
        .wrapping_add(1442695040888963407);
    *state >> 33
}

fn some_key(state: &mut u64) -> Vec<u8> {
    let len = next(state) % 5;
    (0..len).map(|_| (next(state) % 3) as u8).collect()
}

#[test]
fn replay_agrees_with_a_hash_map() {
    let mut state = 2024u64;
    for _ in 0..200 {
        let mut ops = Vec::new();
        for _ in 0..60 {
            let key = some_key(&mut state);
            ops.push(match next(&mut state) % 3 {
                0 => Operation::Insert(key, next(&mut state) as u8),
                1 => Operation::Remove(key),
                _ => Operation::Get(key),
            });
        }
        let mut table = HashMap::new();
        let mut expected = Vec::new();
        for op in &ops {
            expected.push(match op {
                Operation::Insert(key, value) => {
                    table.insert(key.clone(), *value);
                    None
                }
                Operation::Remove(key) => table.remove(key),
                Operation::Get(key) => table.get(key).copied(),
            });
        }
        let mut rax = Rax::new();
        assert_eq!(rax.replay(&ops), expected);
        let mut probe = vec![];
        for a in 0..3u8 {
            probe.push(vec![a]);
            for b in 0..3u8 {
                probe.push(vec![a, b]);
                for c in 0..3u8 {
                    probe.push(vec![a, b, c]);
                    for d in 0..3u8 {
                        probe.push(vec![a, b, c, d]);
                    }
                }
            }
        }
        probe.push(vec![]);
        for key in &probe {
            assert_eq!(rax.get(key), table.get(key));
        }
    }
}

#[test]
fn every_node_keeps_a_label_and_siblings_start_differently() {
    let mut state = 7u64;
    let mut rax = Rax::new();
    for _ in 0..500 {
        let key = some_key(&mut state);
        if next(&mut state) % 2 == 0 {
            rax.insert(&key, 0u8);
        } else {
            rax.remove(&key);
        }
        let text = shape(&rax);
        assert_eq!(text.matches("prefix: []").count(), 1);
        assert!(text.starts_with("Rax { root: RaxNode { value: "));
    }
}

#[test]
fn equal_trees_are_equal_node_by_node() {
    let mut first = Rax::new();
    let mut second = Rax::new();
    assert_eq!(first, second);
    first.insert(b"abc", 1u8);
    assert_ne!(first, second);
    second.insert(b"abc", 1u8);
    assert_eq!(first, second);
    first.insert(b"abd", 2);
    second.insert(b"abd", 3);
    assert_ne!(first, second);
    second.insert(b"abd", 2);
    assert_eq!(first, second);
    first.insert(b"", 0);
    assert_ne!(first, second);
    second.insert(b"", 0);
    assert_eq!(first, second);
    first.insert(b"ab", 7);
    second.insert(b"abe", 7);
    assert_ne!(first, second);
}

#[test]
fn equality_sees_the_order_of_children() {
    let mut first = Rax::new();
    first.insert(b"a", 1u8);
    first.insert(b"b", 2);
    let mut second = Rax::new();
    second.insert(b"b", 2u8);
    second.insert(b"a", 1);
    assert_ne!(first, second);
    assert_eq!(first.get(b"a"), second.get(b"a"));
    assert_eq!(first.get(b"b"), second.get(b"b"));
}

#[test]
fn second_insertion_of_a_key_makes_the_tree_of_one_insertion() {
    let keys: [&[u8]; 5] = [b"", b"abc", b"ab", b"abd", b"x"];
    for key in keys {
        let mut twice = Rax::new();
        twice.insert(b"abc", 0u8);
        twice.insert(b"xyz", 0);
        twice.insert(key, 1);
        twice.insert(key, 2);
        let mut once = Rax::new();
        once.insert(b"abc", 0u8);
        once.insert(b"xyz", 0);
        once.insert(key, 2);
        assert_eq!(twice, once);
    }
}

#[test]
fn values_that_own_memory() {
    let mut rax = Rax::new();
    rax.insert(b"one", String::from("1"));
    rax.insert(b"only", String::from("o"));
    rax.insert(b"on", vec!['x'; 3].into_iter().collect::<String>());
    if let Some(value) = rax.get_mut(b"only") {
        value.push_str("nly");
    }
    assert_eq!(rax.get(b"only").map(|value| value.as_str()), Some("only"));
    assert_eq!(rax.remove(b"on"), Some(String::from("xxx")));
    assert_eq!(rax.remove(b"one"), Some(String::from("1")));
    assert_eq!(rax.remove(b"only"), Some(String::from("only")));
    assert_eq!(rax.remove(b"only"), None);
}

#[test]
fn pruned_tree_stays_pruned_where_no_branch_point_loses_its_last_child() {
    let mut rax = Rax::new();
    rax.insert(b"hello alice", 1u8);
    rax.insert(b"hello kyle", 2);
    rax.insert(b"hello", 3);
    rax.insert(b"help", 4);
    assert_eq!(rax.remove(b"hello alice"), Some(1));
    assert_eq!(rax.remove(b"help"), Some(4));
    assert_eq!(rax.remove(b"hello"), Some(3));
    assert_eq!(
        shape(&rax),
        "Rax { root: RaxNode { value: None, prefix: [], branches: [\
         RaxNode { value: None, prefix: [104, 101, 108], branches: [\
         RaxNode { value: None, prefix: [108, 111], branches: [\
         RaxNode { value: None, prefix: [32], branches: [\
         RaxNode { value: Some(2), prefix: [107, 121, 108, 101], branches: [] }] }] }] }] } }"
    );
    assert!(!shape(&rax).contains("value: None, prefix: [32], branches: []"));
}
