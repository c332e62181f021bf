use pooledmm::bench::{high_index, max_depth_for, run_round};
use pooledmm::tree::{TNode, TNodePool};

#[test]
fn leaf_tree_has_one_node() {
    let mut pool = TNodePool::new();
    let root = TNode::make_tree(0, &mut pool);
    assert_eq!(root, 0);
    assert_eq!(pool.vended_count(), 1);
    assert!(pool.get(root).left.is_none());
    assert!(pool.get(root).right.is_none());
    assert_eq!(TNode::check_node(&pool, root), 1);
}

#[test]
fn negative_depth_builds_a_leaf() {
    let mut pool = TNodePool::new();
    let root = TNode::make_tree(-3, &mut pool);
    assert_eq!(TNode::check_node(&pool, root), 1);
}

#[test]
fn perfect_tree_node_counts() {
    for depth in 0..12i32 {
        let mut pool = TNodePool::new();
        let root = TNode::make_tree(depth, &mut pool);
        let expected = (1i32 << (depth + 1)) - 1;
        assert_eq!(TNode::check_node(&pool, root), expected);
        assert_eq!(pool.vended_count(), expected as usize);
        pool.clear();
        assert_eq!(pool.vended_count(), 0);
    }
}

#[test]
fn children_follow_their_parent() {
    let mut pool = TNodePool::new();
    let root = TNode::make_tree(2, &mut pool);
    let node = pool.get(root);
    let right = node.right.unwrap();
    let left = node.left.unwrap();
    assert_eq!(right, root + 1);
    assert_eq!(left, root + 4);
}

#[test]
fn second_tree_leaves_the_first_intact() {
    let mut pool = TNodePool::new();
    let first = TNode::make_tree(5, &mut pool);
    let second = TNode::make_tree(3, &mut pool);
    assert_eq!(second, 63);
    assert_eq!(TNode::check_node(&pool, first), 63);
    assert_eq!(TNode::check_node(&pool, second), 15);
}

#[test]
fn run_depth_is_at_least_six() {
    assert_eq!(max_depth_for(0), 6);
    assert_eq!(max_depth_for(5), 6);
    assert_eq!(max_depth_for(6), 6);
    assert_eq!(max_depth_for(10), 10);
}

#[test]
fn number_of_rounds() {
    assert_eq!(high_index(6), 2);
    assert_eq!(high_index(7), 2);
    assert_eq!(high_index(10), 4);
}

#[test]
fn round_counts_every_node() {
    let rec = run_round(0, 10).unwrap();
    assert_eq!(rec.depth, 4);
    assert_eq!(rec.iterations, 1024);
    assert_eq!(rec.check, 1024 * 31);
    let rec = run_round(3, 10).unwrap();
    assert_eq!(rec.depth, 10);
    assert_eq!(rec.iterations, 16);
    assert_eq!(rec.check, 16 * 2047);
}
