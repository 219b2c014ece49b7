use datastructs::binary::BinaryTree;
use datastructs::lending_iter_tree::{Tree, TreeNode};

#[test]
fn new_tree() {
    let mut tree = BinaryTree::new(10);

    tree.insert(9);
    tree.insert(11);
    tree.insert(12);
    tree.insert(18);
    tree.insert(4);
    tree.insert(3);
    tree.insert(5);

    assert_eq!(true, tree.search(10));
    assert_eq!(true, tree.search(9));
    assert_eq!(true, tree.search(11));
    assert_eq!(true, tree.search(12));
    assert_eq!(true, tree.search(18));

    assert_eq!(false, tree.search(8));
    assert_eq!(false, tree.search(20));
}

#[test]
fn delete_tree_node() {
    let mut tree = BinaryTree::new(10);

    tree.insert(9);
    tree.insert(11);
    tree.insert(12);
    tree.insert(18);
    tree.insert(4);
    tree.insert(3);
    tree.insert(5);

    tree.delete(11);

    assert_eq!(true, tree.search(9));
    assert_eq!(true, tree.search(10));
    assert_eq!(true, tree.search(12));
    assert_eq!(true, tree.search(18));
    assert_eq!(true, tree.search(4));
    assert_eq!(true, tree.search(3));
    assert_eq!(true, tree.search(5));

    assert_eq!(false, tree.search(11));
}

#[test]
fn traverse_tree() {
    let mut tree = BinaryTree::new(10);

    tree.insert(9);
    tree.insert(11);
    tree.insert(12);
    tree.insert(18);
    tree.insert(4);
    tree.insert(3);
    tree.insert(5);

    let mut collector = Vec::new();
    tree.traverse(&mut collector);

    assert_eq!(&[3, 4, 5, 9, 10, 11, 12, 18], collector.as_slice());
}

#[test]
fn delete_root_with_two_children() {
    let mut tree = BinaryTree::new(10);
    tree.insert(5);
    tree.insert(15);
    assert_eq!(true, tree.delete(10));
    assert_eq!(false, tree.search(10));
    assert_eq!(true, tree.search(5));
    assert_eq!(true, tree.search(15));
    let mut collector = Vec::new();
    tree.traverse(&mut collector);
    assert_eq!(&[5, 15], collector.as_slice());
}

#[test]
fn delete_absent_value_reports_false() {
    let mut tree = BinaryTree::new(7);
    assert_eq!(false, tree.delete(3));
    assert_eq!(true, tree.search(7));
}

#[test]
fn duplicate_insert_changes_nothing() {
    let mut tree = BinaryTree::new(4);
    tree.insert(2);
    tree.insert(2);
    let mut collector = Vec::new();
    tree.traverse(&mut collector);
    assert_eq!(&[2, 4], collector.as_slice());
}

#[test]
fn cursor_descends_by_probe() {
    let root = TreeNode {
        value: 10,
        left: Some(Box::new(TreeNode::new(5))),
        right: Some(Box::new(TreeNode::new(15))),
    };
    let tree = Tree { root: Some(Box::new(root)) };

    // The probe 4 is below 5, so the cursor moves left once and stops.
    let mut it = tree.iter(4);
    assert_eq!(it.next(), Some(4));
    assert_eq!(it.next(), None);

    // The probe 20 is above 15, so the cursor moves right once and stops.
    let mut it = tree.iter(20);
    assert_eq!(it.next(), Some(20));
    assert_eq!(it.next(), None);

    // The probe 10 fits neither side, so the cursor is stuck at once.
    let mut it = tree.iter(10);
    assert_eq!(it.next(), None);
}

#[test]
fn find_min_max() {
    let mut tree = BinaryTree::new(10);
    tree.insert(4);
    tree.insert(17);
    tree.insert(8);

    let found = tree.find(8).unwrap();
    assert_eq!(8, found.value);
    assert!(tree.find(9).is_none());

    assert_eq!(Some(4), tree.min());
    assert_eq!(Some(17), tree.max());
}

#[test]
fn empty_tree_has_no_root() {
    let tree = Tree::new();
    assert!(tree.root.is_none());
}
