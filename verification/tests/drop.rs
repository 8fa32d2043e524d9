use lib::drop::{commit, land_on, merge};
use lib::reorder::{Target, Zone};
use lib::scene::{Block, Combinator, Node};
use lib::span::Span;

fn draft(delay_ms: Option<u64>, name: &str) -> Node {
    Node::Draft { delay: delay_ms.map(Span::from_millis), duration: Span::from_secs(1), name: Some(name.to_string()) }
}

fn delay(node: &Node) -> Option<Span> {
    match node {
        Node::Block { delay, .. } | Node::Action { delay, .. } | Node::Draft { delay, .. } => *delay,
    }
}

#[test]
fn a_merged_pair_starts_where_its_host_did() {
    let mut root = Block { combinator: Combinator::All, children: vec![draft(Some(200), "a"), draft(Some(300), "b")], name: None };
    assert!(merge(&mut root, &[1], &[0], Combinator::Chain, true).is_some());
    assert_eq!(root.children.len(), 1);
    // The host's delay moves out to the wrapper; neither child keeps one.
    assert_eq!(delay(&root.children[0]), Some(Span::from_millis(200)));
    let Node::Block { block, .. } = &root.children[0] else {
        panic!("the pair should be wrapped in a block");
    };
    assert_eq!(block.combinator, Combinator::Chain);
    assert_eq!(delay(&block.children[0]), None);
    assert_eq!(delay(&block.children[1]), None);
    assert!(matches!(&block.children[0], Node::Draft { name: Some(n), .. } if n == "b"));
}

#[test]
fn a_drop_that_empties_a_block_prunes_it() {
    let mut root = Block::chain(vec![Node::block(Block::chain(vec![draft(None, "a")])), draft(None, "b")]);
    assert!(commit(&mut root, &[0, 0], &Target::Insert { parent: vec![], index: 2 }));
    assert_eq!(root.children.len(), 2);
    assert!(matches!(&root.children[1], Node::Draft { name: Some(n), .. } if n == "a"));
}

#[test]
fn a_drop_that_does_not_land_reports_it() {
    let mut root = Block::chain(vec![draft(None, "a")]);
    assert!(!commit(&mut root, &[3], &Target::Insert { parent: vec![], index: 0 }));
    assert_eq!(root.children.len(), 1);
}

#[test]
fn where_in_a_box_a_release_lands_decides_the_target() {
    let root = Block::chain(vec![draft(None, "a"), draft(None, "b")]);
    assert_eq!(
        land_on(&root, &[], 1, Zone::Edge { past_middle: true }),
        Some(Target::Insert { parent: vec![], index: 2 })
    );
    // A chain's end: the block already chains, so a sibling.
    assert_eq!(land_on(&root, &[], 1, Zone::Start), Some(Target::Insert { parent: vec![], index: 1 }));
    // Its middle asks for an overlap: the pair is wrapped.
    assert_eq!(
        land_on(&root, &[], 1, Zone::Middle),
        Some(Target::Merge { path: vec![1], combinator: Combinator::All, before: false })
    );
    assert_eq!(land_on(&root, &[5], 0, Zone::Middle), None);
}
