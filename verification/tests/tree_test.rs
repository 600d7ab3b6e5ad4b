use myco_rs::dtypes::{Direction, Path};
use myco_rs::tree::BinaryTree;

#[test]
fn test_small_binary_tree() {
    // Test creating a new tree
    let tree = BinaryTree::new(1);
    assert_eq!(tree.get(&Path::new(vec![])), Some(&1));
    assert!(tree.get(&Path::new(vec![Direction::Left])).is_none());
    assert!(tree.get(&Path::new(vec![Direction::Right])).is_none());

    // Test from_vec_with_paths for a small tree
    let small_items = vec![
        (1, Path::new(vec![Direction::Left, Direction::Left])),
        (2, Path::new(vec![Direction::Left, Direction::Right])),
        (3, Path::new(vec![Direction::Right, Direction::Left])),
        (4, Path::new(vec![Direction::Right, Direction::Right])),
    ];
    let small_tree = BinaryTree::from_vec_with_paths(small_items);

    // Test get method for small tree
    assert_eq!(small_tree.get_leaf(0), Some(&1));
    assert_eq!(small_tree.get_leaf(1), Some(&2));
    assert_eq!(small_tree.get_leaf(2), Some(&3));
    assert_eq!(small_tree.get_leaf(3), Some(&4));
    assert_eq!(small_tree.get_leaf(4), None);
}

#[test]
fn test_large_binary_tree() {
    // Test from_vec_with_paths for a larger tree with height 4 and some null values
    let large_items = vec![
        (1, Path::new(vec![Direction::Left, Direction::Left, Direction::Left, Direction::Left])),
        (2, Path::new(vec![Direction::Left, Direction::Left, Direction::Right, Direction::Right])),
        (3, Path::new(vec![Direction::Left, Direction::Right, Direction::Left, Direction::Left])),
        (4, Path::new(vec![Direction::Right, Direction::Left, Direction::Left, Direction::Left])),
        (5, Path::new(vec![Direction::Right, Direction::Left, Direction::Right, Direction::Right])),
        (6, Path::new(vec![Direction::Right, Direction::Right, Direction::Left, Direction::Left])),
        (7, Path::new(vec![Direction::Right, Direction::Right, Direction::Right, Direction::Left])),
        (8, Path::new(vec![Direction::Right, Direction::Right, Direction::Right, Direction::Right])),
    ];
    let large_tree = BinaryTree::from_vec_with_paths(large_items);

    // Test get method for large tree
    assert_eq!(large_tree.get_leaf(0), Some(&1));
    assert_eq!(large_tree.get_leaf(3), Some(&2));
    assert_eq!(large_tree.get_leaf(4), Some(&3));
    assert_eq!(large_tree.get_leaf(8), Some(&4));
    assert_eq!(large_tree.get_leaf(11), Some(&5));
    assert_eq!(large_tree.get_leaf(12), Some(&6));
    assert_eq!(large_tree.get_leaf(14), Some(&7));
    assert_eq!(large_tree.get_leaf(15), Some(&8));

    // Test null values
    assert_eq!(large_tree.get_leaf(1), None);
    assert_eq!(large_tree.get_leaf(2), None);
    assert_eq!(large_tree.get_leaf(5), None);
    assert_eq!(large_tree.get_leaf(6), None);
    assert_eq!(large_tree.get_leaf(7), None);
    assert_eq!(large_tree.get_leaf(9), None);
    assert_eq!(large_tree.get_leaf(10), None);
    assert_eq!(large_tree.get_leaf(13), None);
}

#[test]
fn test_get() {
    // Create a tree with some values, including non-leaf nodes
    let items = vec![
        (1, Path::new(vec![Direction::Left, Direction::Left])),
        (2, Path::new(vec![Direction::Left, Direction::Right])),
        (3, Path::new(vec![Direction::Right, Direction::Left])),
        (4, Path::new(vec![Direction::Right, Direction::Right])),
        (5, Path::new(vec![Direction::Left])),  // Non-leaf node
        (6, Path::new(vec![Direction::Right])), // Non-leaf node
        (7, Path::new(vec![])),                 // Root node
    ];
    let tree = BinaryTree::from_vec_with_paths(items);

    // Test get method for existing paths (including non-leaf nodes)
    assert_eq!(tree.get(&Path::new(vec![Direction::Left, Direction::Left])), Some(&1));
    assert_eq!(tree.get(&Path::new(vec![Direction::Left, Direction::Right])), Some(&2));
    assert_eq!(tree.get(&Path::new(vec![Direction::Right, Direction::Left])), Some(&3));
    assert_eq!(tree.get(&Path::new(vec![Direction::Right, Direction::Right])), Some(&4));
    assert_eq!(tree.get(&Path::new(vec![Direction::Left])), Some(&5));
    assert_eq!(tree.get(&Path::new(vec![Direction::Right])), Some(&6));
    assert_eq!(tree.get(&Path::new(vec![])), Some(&7));

    // Test get method for non-existing paths
    assert_eq!(
        tree.get(&Path::new(vec![Direction::Left, Direction::Left, Direction::Left])),
        None
    );
    assert_eq!(
        tree.get(&Path::new(vec![Direction::Right, Direction::Right, Direction::Right])),
        None
    );
    assert_eq!(
        tree.get(&Path::new(vec![Direction::Left, Direction::Left, Direction::Right])),
        None
    );
    assert_eq!(
        tree.get(&Path::new(vec![Direction::Right, Direction::Left, Direction::Right])),
        None
    );
}
