use ramage::error::TreeError;
use ramage::trie::Trie;

#[test]
fn new_trie_has_a_bare_root() {
    let t: Trie<i32, &'static str> = Trie::new();
    assert_eq!(t.tree().len(), 1);
    assert_eq!(t.tree().value(0), None);
    assert_eq!(t.get(&[]), Ok(None));
    assert!(t.contains(&[]));
}

#[test]
fn set_then_get_returns_the_value() {
    let mut t: Trie<i32, &'static str> = Trie::new();
    t.set(vec!["k", "e", "y"], 5);
    assert_eq!(t.get(&["k", "e", "y"]), Ok(Some(&5)));
    assert!(t.contains(&["k", "e", "y"]));
}

#[test]
fn second_set_overwrites_without_new_nodes() {
    let mut t: Trie<i32, &'static str> = Trie::new();
    t.set(vec!["k", "e", "y"], 5);
    let nodes = t.tree().node_count();
    t.set(vec!["k", "e", "y"], 6);
    assert_eq!(t.get(&["k", "e", "y"]), Ok(Some(&6)));
    assert_eq!(t.tree().node_count(), nodes);
    assert_eq!(nodes, 4);
}

#[test]
fn cat_and_car_share_a_prefix() {
    let mut t: Trie<i32, &'static str> = Trie::new();
    t.set(vec!["c", "a", "t"], 1);
    t.set(vec!["c", "a", "r"], 2);
    assert_eq!(t.get(&["c", "a", "t"]), Ok(Some(&1)));
    assert_eq!(t.get(&["c", "a", "r"]), Ok(Some(&2)));
    assert_eq!(t.tree().node_count(), 5);
    assert_eq!(t.tree().children(2), &vec![3, 4]);
    assert_eq!(t.tree().transitions(2), &vec![Some("t"), Some("r")]);
    // The shared prefix is a node of its own that was never given a value.
    assert_eq!(t.get(&["c", "a"]), Ok(None));
    assert!(t.contains(&["c", "a"]));
    // A key that leaves the stored paths is missing.
    assert_eq!(t.get(&["c", "o"]), Err(TreeError::KeyNotFound));
    assert!(!t.contains(&["c", "o"]));
    assert_eq!(t.get(&["c", "a", "t", "s"]), Err(TreeError::KeyNotFound));
}

#[test]
fn prefix_node_differs_from_missing_edge() {
    let mut t: Trie<i32, &'static str> = Trie::new();
    t.set(vec!["a", "b"], 1);
    assert_eq!(t.get(&["a"]), Ok(None));
    assert_eq!(t.get(&["b"]), Err(TreeError::KeyNotFound));
    assert!(t.contains(&["a"]));
    assert!(!t.contains(&["b"]));
    t.set(vec!["a"], 9);
    assert_eq!(t.get(&["a"]), Ok(Some(&9)));
    assert_eq!(t.get(&["a", "b"]), Ok(Some(&1)));
}

#[test]
fn empty_key_addresses_the_root() {
    let mut t: Trie<i32, &'static str> = Trie::new();
    t.set(vec![], 3);
    assert_eq!(t.get(&[]), Ok(Some(&3)));
    assert_eq!(t.tree().node_count(), 1);
}

#[test]
fn locate_follows_the_first_matching_edge() {
    let mut t: Trie<i32, u8> = Trie::new();
    t.set(vec![1, 2], 10);
    t.set(vec![1, 3], 20);
    t.set(vec![4], 30);
    assert_eq!(t.locate(&[1]), Some(1));
    assert_eq!(t.locate(&[1, 2]), Some(2));
    assert_eq!(t.locate(&[1, 3]), Some(3));
    assert_eq!(t.locate(&[4]), Some(4));
    assert_eq!(t.locate(&[5]), None);
    assert_eq!(t.tree().child_by_label(0, &4), Some(4));
    assert_eq!(t.tree().child_by_label(0, &2), None);
    assert_eq!(t.tree().len(), 5);
}

#[test]
fn trie_nodes_can_be_added_and_spliced_out() {
    let mut t: Trie<i32, &'static str> = Trie::new();
    t.set(vec!["a", "b"], 1);
    assert_eq!(t.add_node(Some(1), Some(7), Some("c")), Ok(4));
    assert_eq!(t.get(&["a", "c"]), Ok(Some(&7)));
    assert_eq!(t.add_node(Some(9), None, None), Err(TreeError::OutOfRange));
    assert_eq!(t.delete_node(1), Ok(()));
    assert_eq!(t.get(&["b"]), Ok(Some(&1)));
    assert_eq!(t.get(&["c"]), Ok(Some(&7)));
    assert_eq!(t.get(&["a"]), Err(TreeError::KeyNotFound));
    assert_eq!(t.delete_node(0), Err(TreeError::InvalidOperation));
    assert_eq!(t.delete_node(8), Err(TreeError::NotFound));
    assert_eq!(t.tree().len(), 3);
}

#[test]
fn last_set_wins_among_many() {
    let mut t: Trie<i32, u8> = Trie::new();
    t.set(vec![1, 2, 3], 1);
    t.set(vec![1, 2], 2);
    t.set(vec![], 3);
    t.set(vec![1, 2, 3], 4);
    assert_eq!(t.get(&[1, 2, 3]), Ok(Some(&4)));
    assert_eq!(t.get(&[1, 2]), Ok(Some(&2)));
    assert_eq!(t.get(&[]), Ok(Some(&3)));
    assert_eq!(t.tree().node_count(), 4);
}
