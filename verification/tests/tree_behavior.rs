use arena_tree::tree::Tree;

#[test]
fn root_is_always_present() {
    let tree: Tree<&str> = Tree::new("root");
    let root = tree.root();
    let node = tree.get(root).expect("root must resolve");
    assert_eq!(*node.data(), "root");
    assert!(node.parent().is_none());
    assert!(tree.parent(root).is_none());
}

#[test]
fn insert_returns_increasing_handles_with_parent_set() {
    let mut tree: Tree<u32> = Tree::new(0);
    let root = tree.root();
    let mut issued = vec![root];
    for payload in 1u32..6 {
        let h = tree.add(root, payload).expect("root exists");
        for old in &issued {
            assert!(*old < h, "new handle must dominate all issued handles");
        }
        assert_eq!(tree.parent(h), Some(root));
        issued.push(h);
    }
}

#[test]
fn insert_under_unknown_parent_changes_nothing() {
    let mut other: Tree<u32> = Tree::new(0);
    let o = other.root();
    let mut stray = other.add(o, 1).unwrap();
    for payload in 2u32..9 {
        stray = other.add(o, payload).unwrap();
    }

    let mut tree: Tree<u32> = Tree::new(10);
    let root = tree.root();
    let kept = tree.add(root, 11).unwrap();
    // `stray` was issued by a larger tree, so it is unknown here.
    assert!(tree.get(stray).is_none());
    let result = tree.add(stray, 99);
    assert!(result.is_none());
    // Node count unchanged: the two known nodes resolve, the next handle
    // value was not issued.
    assert!(tree.get(root).is_some());
    assert!(tree.get(kept).is_some());
    assert_eq!(tree.children(root).unwrap(), &vec![kept]);
    assert_eq!(tree.children(kept).unwrap().len(), 0);
    let next = tree.add(root, 12).unwrap();
    assert_eq!(tree.children(root).unwrap(), &vec![kept, next]);
}

#[test]
fn children_keep_insertion_order() {
    let mut tree: Tree<&str> = Tree::new("p");
    let p = tree.root();
    let c1 = tree.add(p, "c1").unwrap();
    let c2 = tree.add(p, "c2").unwrap();
    assert_eq!(tree.children(p).unwrap(), &vec![c1, c2]);
    assert_eq!(tree.data(c1), Some(&"c1"));
    assert_eq!(tree.data(c2), Some(&"c2"));
}

#[test]
fn projections_answer_absent_for_unknown_handles() {
    let mut big: Tree<u8> = Tree::new(0);
    let b = big.root();
    big.add(b, 1).unwrap();
    let unknown = big.add(b, 2).unwrap();

    let tree: Tree<u8> = Tree::new(7);
    assert!(tree.get(unknown).is_none());
    assert!(tree.data(unknown).is_none());
    assert!(tree.parent(unknown).is_none());
    assert!(tree.children(unknown).is_none());
}

#[test]
fn node_accessors_match_tree_projections() {
    let mut tree: Tree<i64> = Tree::new(-1);
    let root = tree.root();
    let a = tree.add(root, 10).unwrap();
    let b = tree.add(a, 20).unwrap();
    let node = tree.get(b).unwrap();
    assert_eq!(*node.data(), 20);
    assert_eq!(node.parent(), Some(a));
    assert!(node.children().is_empty());
    let mid = tree.get(a).unwrap();
    assert_eq!(mid.children(), &vec![b]);
}
