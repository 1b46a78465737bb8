use ramage::search::{Item, MatchResult, Property, Search, Target};
use ramage::tree::Tree;

fn sample() -> Tree<i32, &'static str> {
    // 0 -> 1 ("a"), 2 ("b"); 1 -> 3 ("c"); 2 -> 4 ("a")
    let mut t: Tree<i32, &'static str> = Tree::new();
    t.add_node(Some(0), vec![], vec![], 10, Some("a")).unwrap();
    t.add_node(Some(0), vec![], vec![], 20, Some("b")).unwrap();
    t.add_node(Some(1), vec![], vec![], 10, Some("c")).unwrap();
    t.add_node(Some(2), vec![], vec![], 10, Some("a")).unwrap();
    t
}

#[test]
fn search_on_root_only_tree_finds_nothing() {
    let t: Tree<i32, &'static str> = Tree::new();
    let target = Target::One(Item::Value(1));
    assert_eq!(t.search(&target, false, Property::Values, Search::Depth), None);
    assert_eq!(t.search(&target, false, Property::Values, Search::Breadth), None);
}

#[test]
fn search_all_without_match_is_none() {
    let t = sample();
    let target = Target::One(Item::Value(77));
    assert_eq!(t.search(&target, true, Property::Values, Search::Depth), None);
    assert_eq!(t.search(&target, true, Property::Values, Search::Breadth), None);
}

#[test]
fn search_all_values_breadth_first_order() {
    let t = sample();
    let target = Target::One(Item::Value(10));
    assert_eq!(
        t.search(&target, true, Property::Values, Search::Breadth),
        Some(MatchResult::All(vec![1, 3, 4]))
    );
}

#[test]
fn search_all_values_depth_first_order() {
    let t = sample();
    let target = Target::One(Item::Value(10));
    assert_eq!(
        t.search(&target, true, Property::Values, Search::Depth),
        Some(MatchResult::All(vec![4, 1, 3]))
    );
}

#[test]
fn search_first_match_depends_on_method() {
    let t = sample();
    let target = Target::One(Item::Value(10));
    assert_eq!(
        t.search(&target, false, Property::Values, Search::Breadth),
        Some(MatchResult::One(1))
    );
    assert_eq!(
        t.search(&target, false, Property::Values, Search::Depth),
        Some(MatchResult::One(4))
    );
}

#[test]
fn search_root_has_no_value_and_no_parent() {
    let t = sample();
    let nothing = Target::One(Item::Nothing);
    assert_eq!(
        t.search(&nothing, true, Property::Values, Search::Breadth),
        Some(MatchResult::All(vec![0]))
    );
    assert_eq!(
        t.search(&nothing, false, Property::Parents, Search::Depth),
        Some(MatchResult::One(0))
    );
}

#[test]
fn search_parents_by_index() {
    let t = sample();
    let target = Target::One(Item::Index(0));
    assert_eq!(
        t.search(&target, true, Property::Parents, Search::Breadth),
        Some(MatchResult::All(vec![1, 2]))
    );
}

#[test]
fn search_scalar_compares_last_element_only() {
    let t = sample();
    // Root lists children [1, 2]: only the last one decides.
    let last = Target::One(Item::Index(2));
    let first = Target::One(Item::Index(1));
    assert_eq!(
        t.search(&last, true, Property::Children, Search::Breadth),
        Some(MatchResult::All(vec![0]))
    );
    assert_eq!(t.search(&first, true, Property::Children, Search::Breadth), None);
}

#[test]
fn search_list_compares_last_zipped_pair_only() {
    let t = sample();
    // Root's labels are ["a", "b"]; the first pair differs, the last agrees.
    let target = Target::Many(vec![Item::Label("zzz"), Item::Label("b")]);
    assert_eq!(
        t.search(&target, true, Property::Transitions, Search::Breadth),
        Some(MatchResult::All(vec![0]))
    );
    // A longer target is cut to the property's length.
    let long = Target::Many(vec![Item::Label("a"), Item::Label("b"), Item::Label("q")]);
    assert_eq!(
        t.search(&long, false, Property::Transitions, Search::Breadth),
        Some(MatchResult::One(0))
    );
    // A shorter target is compared at its own last position.
    let short = Target::Many(vec![Item::Label("a")]);
    assert_eq!(
        t.search(&short, true, Property::Transitions, Search::Breadth),
        Some(MatchResult::All(vec![0, 2]))
    );
}

#[test]
fn search_empty_list_never_matches() {
    let t = sample();
    let target: Target<i32, &'static str> = Target::Many(vec![]);
    assert_eq!(t.search(&target, true, Property::Values, Search::Depth), None);
    assert_eq!(t.search(&target, true, Property::Children, Search::Depth), None);
}

#[test]
fn search_kinds_do_not_mix() {
    let t = sample();
    let target = Target::One(Item::Label("a"));
    assert_eq!(t.search(&target, true, Property::Values, Search::Breadth), None);
    assert_eq!(t.search(&target, true, Property::Children, Search::Breadth), None);
}

#[test]
fn search_skips_detached_nodes() {
    let mut t = sample();
    t.delete_node(1).unwrap();
    let target = Target::One(Item::Value(10));
    // Node 1 is no longer reachable; its child 3 now hangs below the root.
    assert_eq!(
        t.search(&target, true, Property::Values, Search::Breadth),
        Some(MatchResult::All(vec![3, 4]))
    );
}

#[test]
fn matches_reads_one_node() {
    let t = sample();
    assert!(t.matches(2, &Target::One(Item::Value(20)), Property::Values));
    assert!(!t.matches(2, &Target::One(Item::Value(10)), Property::Values));
    assert!(t.matches(2, &Target::One(Item::Label("a")), Property::Transitions));
    assert!(!t.matches(3, &Target::One(Item::Label("a")), Property::Transitions));
}

#[test]
fn search_visits_each_slot_once() {
    // Node 1 lists the root as a child, so the child lists form a cycle.
    let mut t: Tree<i32, &'static str> = Tree::new();
    t.add_node(Some(0), vec![0], vec![Some("up")], 10, Some("down")).unwrap();
    let target = Target::One(Item::Value(10));
    assert_eq!(
        t.search(&target, true, Property::Values, Search::Depth),
        Some(MatchResult::All(vec![1]))
    );
    let none: Target<i32, &'static str> = Target::One(Item::Value(11));
    assert_eq!(t.search(&none, true, Property::Values, Search::Breadth), None);
}

#[test]
fn search_passes_over_children_that_name_no_slot() {
    let mut t: Tree<i32, &'static str> = Tree::new();
    t.add_node(Some(0), vec![7], vec![Some("far")], 10, Some("a")).unwrap();
    t.add_node(Some(1), vec![], vec![], 10, Some("b")).unwrap();
    let target = Target::One(Item::Value(10));
    assert_eq!(
        t.search(&target, true, Property::Values, Search::Depth),
        Some(MatchResult::All(vec![1, 2]))
    );
    assert_eq!(
        t.search(&Target::One(Item::Index(2)), false, Property::Children, Search::Breadth),
        Some(MatchResult::One(1))
    );
}

#[test]
fn from_token_picks_the_kind_by_property() {
    assert!(matches!(
        Item::<&str, &str>::from_token(Property::Children, Some(3), Some("3")),
        Item::Index(3)
    ));
    assert!(matches!(
        Item::<&str, &str>::from_token(Property::Parents, None, Some("x")),
        Item::Label("x")
    ));
    assert!(matches!(
        Item::<&str, &str>::from_token(Property::Transitions, Some(3), Some("3")),
        Item::Label("3")
    ));
    assert!(matches!(
        Item::<&str, &str>::from_token(Property::Values, Some(3), Some("3")),
        Item::Value("3")
    ));
    assert!(matches!(
        Item::<&str, &str>::from_token(Property::Values, Some(3), None),
        Item::Nothing
    ));
}
