use ramage::error::TreeError;
use ramage::tree::Tree;

fn chain() -> Tree<i32, &'static str> {
    let mut t: Tree<i32, &'static str> = Tree::new();
    assert_eq!(t.add_node(Some(0), vec![], vec![], 10, Some("x")), Ok(2));
    assert_eq!(t.add_node(Some(1), vec![], vec![], 20, Some("y")), Ok(3));
    t
}

#[test]
fn new_tree_holds_only_the_root() {
    let t: Tree<i32, &'static str> = Tree::new();
    assert_eq!(t.len(), 1);
    assert_eq!(t.node_count(), 1);
    assert!(t.children(0).is_empty());
    assert!(t.transitions(0).is_empty());
    assert_eq!(t.parent(0), None);
    assert_eq!(t.value(0), None);
}

#[test]
fn add_node_returns_the_successor_index() {
    let mut t: Tree<i32, &'static str> = Tree::new();
    let before = t.node_count();
    let next = t.add_node(Some(0), vec![], vec![], 7, Some("a")).unwrap();
    assert_eq!(next, before + 1);
    assert_eq!(t.value(next - 1), Some(&7));
    assert_eq!(t.parent(next - 1), Some(0));
    assert_eq!(t.len(), 2);
}

#[test]
fn add_node_links_the_parent_once_with_its_label() {
    let mut t: Tree<i32, &'static str> = Tree::new();
    t.add_node(Some(0), vec![], vec![], 1, Some("a")).unwrap();
    t.add_node(Some(0), vec![], vec![], 2, Some("b")).unwrap();
    assert_eq!(t.children(0), &vec![1, 2]);
    assert_eq!(t.transitions(0), &vec![Some("a"), Some("b")]);
    assert_eq!(t.children(0).iter().filter(|c| **c == 2).count(), 1);
}

#[test]
fn add_node_without_label_keeps_lists_paired() {
    let mut t: Tree<i32, &'static str> = Tree::new();
    t.add_node(Some(0), vec![], vec![], 1, None).unwrap();
    assert_eq!(t.children(0), &vec![1]);
    assert_eq!(t.transitions(0), &vec![None]);
}

#[test]
fn add_node_without_parent_is_detached() {
    let mut t: Tree<i32, &'static str> = Tree::new();
    assert_eq!(t.add_node(None, vec![], vec![], 1, None), Ok(2));
    assert_eq!(t.parent(1), None);
    assert!(t.children(0).is_empty());
    assert_eq!(t.len(), 2);
}

#[test]
fn add_node_keeps_given_children_and_labels() {
    let mut t: Tree<i32, &'static str> = Tree::new();
    t.add_node(None, vec![], vec![], 1, None).unwrap();
    assert_eq!(t.add_node(Some(0), vec![1], vec![Some("k")], 2, Some("r")), Ok(3));
    assert_eq!(t.children(2), &vec![1]);
    assert_eq!(t.transitions(2), &vec![Some("k")]);
    assert_eq!(t.parent(1), None);
}

#[test]
fn add_node_rejects_unknown_parent() {
    let mut t: Tree<i32, &'static str> = Tree::new();
    assert_eq!(t.add_node(Some(1), vec![], vec![], 1, Some("a")), Err(TreeError::OutOfRange));
    assert_eq!(t.add_node(Some(5), vec![], vec![], 1, Some("a")), Err(TreeError::OutOfRange));
    assert_eq!(t.len(), 1);
    assert_eq!(t.node_count(), 1);
    assert!(t.children(0).is_empty());
}

#[test]
fn add_node_stores_any_children_list() {
    let mut t: Tree<i32, &'static str> = Tree::new();
    assert_eq!(t.add_node(None, vec![5], vec![None], 1, None), Ok(2));
    assert_eq!(t.node_count(), 2);
    assert_eq!(t.len(), 2);
    assert_eq!(t.children(1), &vec![5]);
    assert_eq!(t.transitions(1), &vec![None]);
    assert_eq!(t.parent(1), None);
    assert_eq!(t.value(1), Some(&1));
    // The new node may even list itself and the index that comes next.
    assert_eq!(t.add_node(Some(0), vec![2, 3], vec![Some("a"), Some("b")], 2, Some("r")), Ok(3));
    assert_eq!(t.children(2), &vec![2, 3]);
    assert_eq!(t.children(0), &vec![2]);
    assert_eq!(t.transitions(0), &vec![Some("r")]);
    assert_eq!(t.value(0), None);
}

#[test]
fn delete_passes_over_children_that_name_no_slot() {
    let mut t: Tree<i32, &'static str> = Tree::new();
    t.add_node(Some(0), vec![9, 0], vec![Some("far"), Some("up")], 1, Some("a")).unwrap();
    assert_eq!(t.delete_node(1), Ok(()));
    assert_eq!(t.children(0), &vec![9, 0]);
    assert_eq!(t.transitions(0), &vec![Some("far"), Some("up")]);
    assert_eq!(t.parent(0), Some(0));
    assert_eq!(t.parent(1), None);
    assert_eq!(t.len(), 1);
    assert_eq!(t.node_count(), 2);
}

#[test]
fn delete_splices_grandchild_up() {
    let mut t = chain();
    assert_eq!(t.delete_node(1), Ok(()));
    assert_eq!(t.children(0), &vec![2]);
    assert_eq!(t.transitions(0), &vec![Some("y")]);
    assert_eq!(t.parent(2), Some(0));
    assert_eq!(t.parent(1), None);
    assert!(t.children(1).is_empty());
    assert!(t.transitions(1).is_empty());
    assert_eq!(t.value(1), Some(&10));
    assert_eq!(t.len(), 2);
    assert_eq!(t.node_count(), 3);
}

#[test]
fn delete_appends_children_after_siblings() {
    let mut t: Tree<i32, &'static str> = Tree::new();
    t.add_node(Some(0), vec![], vec![], 1, Some("a")).unwrap();
    t.add_node(Some(0), vec![], vec![], 2, Some("b")).unwrap();
    t.add_node(Some(1), vec![], vec![], 3, Some("c")).unwrap();
    t.add_node(Some(1), vec![], vec![], 4, Some("d")).unwrap();
    assert_eq!(t.delete_node(1), Ok(()));
    assert_eq!(t.children(0), &vec![2, 3, 4]);
    assert_eq!(t.transitions(0), &vec![Some("b"), Some("c"), Some("d")]);
    assert_eq!(t.parent(3), Some(0));
    assert_eq!(t.parent(4), Some(0));
    assert_eq!(t.len(), 4);
}

#[test]
fn delete_last_child_puts_children_in_its_place() {
    let mut t: Tree<i32, &'static str> = Tree::new();
    t.add_node(Some(0), vec![], vec![], 1, Some("a")).unwrap();
    t.add_node(Some(0), vec![], vec![], 2, Some("b")).unwrap();
    t.add_node(Some(2), vec![], vec![], 3, Some("c")).unwrap();
    assert_eq!(t.delete_node(2), Ok(()));
    assert_eq!(t.children(0), &vec![1, 3]);
    assert_eq!(t.transitions(0), &vec![Some("a"), Some("c")]);
}

#[test]
fn delete_leaf_only_unlinks_it() {
    let mut t = chain();
    assert_eq!(t.delete_node(2), Ok(()));
    assert!(t.children(1).is_empty());
    assert!(t.transitions(1).is_empty());
    assert_eq!(t.children(0), &vec![1]);
    assert_eq!(t.len(), 2);
}

#[test]
fn delete_unknown_index_is_not_found() {
    let mut t = chain();
    assert_eq!(t.delete_node(3), Err(TreeError::NotFound));
    assert_eq!(t.delete_node(99), Err(TreeError::NotFound));
    assert_eq!(t.len(), 3);
}

#[test]
fn delete_root_is_invalid() {
    let mut t = chain();
    assert_eq!(t.delete_node(0), Err(TreeError::InvalidOperation));
    assert_eq!(t.len(), 3);
    assert_eq!(t.children(0), &vec![1]);
}

#[test]
fn delete_twice_is_invalid() {
    let mut t = chain();
    assert_eq!(t.delete_node(1), Ok(()));
    assert_eq!(t.delete_node(1), Err(TreeError::InvalidOperation));
    assert_eq!(t.len(), 2);
}

#[test]
fn indices_stay_stable_across_adds_and_deletes() {
    let mut t: Tree<i32, &'static str> = Tree::new();
    let a = t.add_node(Some(0), vec![], vec![], 11, Some("a")).unwrap() - 1;
    let b = t.add_node(Some(a), vec![], vec![], 22, Some("b")).unwrap() - 1;
    t.delete_node(a).unwrap();
    let c = t.add_node(Some(0), vec![], vec![], 33, Some("c")).unwrap() - 1;
    assert_eq!((a, b, c), (1, 2, 3));
    assert_eq!(t.value(a), Some(&11));
    assert_eq!(t.value(b), Some(&22));
    assert_eq!(t.value(c), Some(&33));
    assert_eq!(t.node_count(), 4);
}

#[test]
fn set_value_overwrites_and_checks_range() {
    let mut t = chain();
    assert_eq!(t.set_value(1, 99), Ok(()));
    assert_eq!(t.value(1), Some(&99));
    assert_eq!(t.set_value(3, 1), Err(TreeError::OutOfRange));
}

#[test]
fn error_messages_differ() {
    let all = [
        TreeError::OutOfRange,
        TreeError::NotFound,
        TreeError::InvalidOperation,
        TreeError::KeyNotFound,
    ];
    for (i, a) in all.iter().enumerate() {
        assert!(!a.message().is_empty());
        for b in all.iter().skip(i + 1) {
            assert_ne!(a.message(), b.message());
        }
    }
}

#[test]
fn push_row_can_leave_the_payload_vacant() {
    let mut t: Tree<i32, &'static str> = Tree::new();
    assert_eq!(t.push_row(Some(0), vec![], vec![], None, Some("a")), Ok(2));
    assert_eq!(t.value(1), None);
    assert_eq!(t.push_row(Some(1), vec![], vec![], Some(4), Some("b")), Ok(3));
    assert_eq!(t.value(2), Some(&4));
    assert_eq!(t.push_row(Some(9), vec![], vec![], Some(4), None), Err(TreeError::OutOfRange));
    assert_eq!(t.len(), 3);
}

#[test]
fn delete_relabels_nothing() {
    let mut t: Tree<i32, &'static str> = Tree::new();
    t.add_node(Some(0), vec![], vec![], 1, Some("a")).unwrap();
    t.add_node(Some(1), vec![], vec![], 2, None).unwrap();
    t.add_node(Some(1), vec![], vec![], 3, Some("z")).unwrap();
    assert_eq!(t.delete_node(1), Ok(()));
    assert_eq!(t.children(0), &vec![2, 3]);
    assert_eq!(t.transitions(0), &vec![None, Some("z")]);
    assert_eq!(t.len(), 3);
}
