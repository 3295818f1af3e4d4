use std::cell::RefCell;

use arena_tree::tree::SearchResult;
use arena_tree::tree::Tree;

/// Builds the labeled example tree: root "root" with children "left" and
/// "right"; under "left" the children "a", "b", "c"; under "right" the
/// children "d", "e".
fn labeled_tree() -> Tree<&'static str> {
    let mut tree = Tree::new("root");
    let root = tree.root();
    let left = tree.add(root, "left").unwrap();
    let right = tree.add(root, "right").unwrap();
    tree.add(left, "a").unwrap();
    tree.add(left, "b").unwrap();
    tree.add(left, "c").unwrap();
    tree.add(right, "d").unwrap();
    tree.add(right, "e").unwrap();
    tree
}

#[test]
fn depth_first_order_is_stack_order() {
    let tree = labeled_tree();
    let log: RefCell<Vec<&str>> = RefCell::new(Vec::new());
    let _: () = tree.depth_first_search(|_t: &Tree<&str>, node: &arena_tree::tree::Node<&str>, _d: usize| {
        log.borrow_mut().push(*node.data());
        SearchResult::Continue
    });
    assert_eq!(
        log.into_inner(),
        vec!["root", "right", "e", "d", "left", "c", "b", "a"]
    );
}

#[test]
fn breadth_first_order_is_level_order() {
    let tree = labeled_tree();
    let log: RefCell<Vec<&str>> = RefCell::new(Vec::new());
    let _: () = tree.breadth_first_search(|_t: &Tree<&str>, node: &arena_tree::tree::Node<&str>, _d: usize| {
        log.borrow_mut().push(*node.data());
        SearchResult::Continue
    });
    assert_eq!(
        log.into_inner(),
        vec!["root", "left", "right", "a", "b", "c", "d", "e"]
    );
}

#[test]
fn breadth_first_depths_never_decrease() {
    let tree = labeled_tree();
    let depths: RefCell<Vec<usize>> = RefCell::new(Vec::new());
    let _: () = tree.breadth_first_search(|_t: &Tree<&str>, _n: &arena_tree::tree::Node<&str>, d: usize| {
        depths.borrow_mut().push(d);
        SearchResult::Continue
    });
    let depths = depths.into_inner();
    assert_eq!(depths, vec![0, 1, 1, 2, 2, 2, 2, 2]);
    for pair in depths.windows(2) {
        assert!(pair[0] <= pair[1]);
    }
}

#[test]
fn depth_first_visits_later_sibling_subtree_first() {
    // Children [c1, c2] inserted in that order: c2's whole subtree comes
    // before c1 in the depth-first walk.
    let mut tree: Tree<&str> = Tree::new("p");
    let p = tree.root();
    let c1 = tree.add(p, "c1").unwrap();
    let c2 = tree.add(p, "c2").unwrap();
    tree.add(c1, "c1x").unwrap();
    tree.add(c2, "c2x").unwrap();
    let log: RefCell<Vec<&str>> = RefCell::new(Vec::new());
    let _: () = tree.depth_first_search(|_t: &Tree<&str>, node: &arena_tree::tree::Node<&str>, _d: usize| {
        log.borrow_mut().push(*node.data());
        SearchResult::Continue
    });
    assert_eq!(log.into_inner(), vec!["p", "c2", "c2x", "c1", "c1x"]);
}

#[test]
fn early_return_stops_the_walk() {
    let tree = labeled_tree();
    let count: RefCell<usize> = RefCell::new(0);
    let hit: u32 = tree.depth_first_search(|_t: &Tree<&str>, node: &arena_tree::tree::Node<&str>, _d: usize| {
        *count.borrow_mut() += 1;
        if *node.data() == "d" {
            SearchResult::Return(41u32 + 1)
        } else {
            SearchResult::Continue
        }
    });
    assert_eq!(hit, 42);
    // dfs order: root, right, e, d — four nodes offered before the stop.
    assert_eq!(count.into_inner(), 4);
}

#[test]
fn exhausted_walk_yields_default() {
    let tree = labeled_tree();
    let out: u32 = tree.breadth_first_search(
        |_t: &Tree<&str>, _n: &arena_tree::tree::Node<&str>, _d: usize| SearchResult::Continue,
    );
    assert_eq!(out, 0);
}

#[test]
fn find_returns_first_match_in_stack_order() {
    let tree = labeled_tree();
    let found = tree
        .find(|_t: &Tree<&str>, node: &arena_tree::tree::Node<&str>| *node.data() == "left")
        .expect("left exists");
    assert_eq!(*found.data(), "left");

    // Among the leaves, the first one in stack order is "e".
    let leaf = tree
        .find(|_t: &Tree<&str>, node: &arena_tree::tree::Node<&str>| node.children().is_empty())
        .expect("a leaf exists");
    assert_eq!(*leaf.data(), "e");
}

#[test]
fn find_absent_when_nothing_matches() {
    let tree = labeled_tree();
    let missing = tree.find(|_t: &Tree<&str>, node: &arena_tree::tree::Node<&str>| *node.data() == "zebra");
    assert!(missing.is_none());
}
