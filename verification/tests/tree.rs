use bst::{Node, BST};

fn build(values: &[i32]) -> BST {
    let mut tree = BST::new();
    for &v in values {
        tree.insert(v);
    }
    tree
}

#[test]
fn demo_scenario() {
    let tree = build(&[50, 30, 70, 20, 40, 60, 80]);
    assert_eq!(tree.inorder(), vec![20, 30, 40, 50, 60, 70, 80]);
    assert_eq!(tree.height(), 3);
    assert!(tree.search(40));
    assert!(!tree.search(41));
}

#[test]
fn empty_tree() {
    let tree = BST::new();
    assert_eq!(tree.height(), 0);
    assert_eq!(tree.inorder(), Vec::<i32>::new());
    assert!(!tree.search(0));
}

#[test]
fn single_node_height() {
    let tree = build(&[7]);
    assert_eq!(tree.height(), 1);
    assert_eq!(tree.inorder(), vec![7]);
}

#[test]
fn increasing_inserts_degenerate_height() {
    let tree = build(&[1, 2, 3, 4, 5, 6]);
    assert_eq!(tree.height(), 6);
    assert_eq!(tree.inorder(), vec![1, 2, 3, 4, 5, 6]);
}

#[test]
fn decreasing_inserts_degenerate_height() {
    let tree = build(&[6, 5, 4, 3, 2, 1]);
    assert_eq!(tree.height(), 6);
    assert_eq!(tree.inorder(), vec![1, 2, 3, 4, 5, 6]);
}

#[test]
fn duplicate_insert_is_noop() {
    let mut tree = build(&[50, 30, 70, 20, 40, 60, 80]);
    let inorder_before = tree.inorder();
    let height_before = tree.height();
    for v in [50, 20, 80] {
        tree.insert(v);
    }
    assert_eq!(tree.inorder(), inorder_before);
    assert_eq!(tree.height(), height_before);
    for v in [20, 30, 40, 50, 60, 70, 80] {
        assert!(tree.search(v));
    }
    assert!(!tree.search(41));
}

#[test]
fn search_finds_all_inserted_and_nothing_else() {
    let values = [13, -4, 0, 99, 7, -100, 42];
    let tree = build(&values);
    for v in values {
        assert!(tree.search(v));
    }
    for v in [1, -5, 100, 14, i32::MIN, i32::MAX] {
        assert!(!tree.search(v));
    }
}

#[test]
fn inorder_is_sorted_distinct() {
    let tree = build(&[5, 3, 8, 3, 1, 9, 5, 8, 2, 2, 7]);
    assert_eq!(tree.inorder(), vec![1, 2, 3, 5, 7, 8, 9]);
}

#[test]
fn extreme_values() {
    let tree = build(&[i32::MAX, i32::MIN, 0]);
    assert_eq!(tree.inorder(), vec![i32::MIN, 0, i32::MAX]);
    assert!(tree.search(i32::MIN));
    assert!(tree.search(i32::MAX));
    assert!(!tree.search(1));
}

#[test]
fn node_new_is_leaf() {
    let node = Node::new(11);
    assert_eq!(node.value, 11);
    assert!(node.left.is_none());
    assert!(node.right.is_none());
}

#[test]
fn recursive_workers_match_wrappers() {
    let root = BST::insert_rec(None, 10);
    let root = BST::insert_rec(root, 5);
    let root = BST::insert_rec(root, 15);
    assert!(BST::search_rec(&root, 5));
    assert!(BST::search_rec(&root, 10));
    assert!(!BST::search_rec(&root, 12));
    assert_eq!(BST::height_rec(&root), 2);
    let tree = BST { root };
    assert_eq!(tree.inorder(), vec![5, 10, 15]);
}
