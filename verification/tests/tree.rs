use lib::tree::{after_removal, block_at, node_at, same_path, under};
use lib::scene::{Block, Node};
use lib::span::Span;

#[test]
fn a_path_past_a_removed_sibling_moves_up() {
    assert_eq!(after_removal(&[2, 1], &[0]), Some(vec![1, 1]));
    assert_eq!(after_removal(&[0, 1], &[0]), None);
    assert_eq!(after_removal(&[0], &[1]), Some(vec![0]));
    assert_eq!(after_removal(&[1, 3], &[1, 2]), Some(vec![1, 2]));
    assert_eq!(after_removal(&[1], &[]), None);
}

#[test]
fn paths_name_nodes_and_blocks() {
    let leaf = Node::Draft { delay: None, duration: Span::zero(), name: None };
    let root = Block::chain(vec![Node::block(Block::chain(vec![leaf]))]);
    assert!(block_at(&root, &[0]).is_some());
    assert!(block_at(&root, &[0, 0]).is_none());
    assert!(matches!(node_at(&root, &[0, 0]), Some(Node::Draft { .. })));
    assert!(node_at(&root, &[]).is_none());
    assert!(same_path(&[1, 2], &[1, 2]));
    assert!(under(&[1, 2], &[1]));
    assert!(!under(&[1], &[1, 2]));
}
