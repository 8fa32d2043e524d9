use lib::scene::{Block, Combinator, Node};
use lib::span::Span;
use lib::timing::{block_duration, node_duration};

fn d(delay_ms: Option<u64>, ms: u64) -> Node {
    Node::Draft { delay: delay_ms.map(Span::from_millis), duration: Span::from_millis(ms), name: None }
}

#[test]
fn a_chain_runs_its_children_end_to_end() {
    let b = Block { combinator: Combinator::Chain, children: vec![d(Some(200), 1_000), d(None, 500)], name: None };
    assert_eq!(block_duration(&b), Span::from_millis(1_700));
}

#[test]
fn an_overlap_runs_as_long_as_its_longest() {
    let b = Block { combinator: Combinator::All, children: vec![d(Some(200), 1_000), d(None, 500)], name: None };
    assert_eq!(block_duration(&b), Span::from_millis(1_200));
}

#[test]
fn a_flow_ends_when_its_last_starter_ends() {
    let b = Block {
        combinator: Combinator::Flow(Span::from_millis(300)),
        children: vec![d(None, 1_000), d(None, 100), d(None, 100)],
        name: None,
    };
    assert_eq!(block_duration(&b), Span::from_millis(1_000));
    let b = Block {
        combinator: Combinator::Flow(Span::from_millis(600)),
        children: vec![d(None, 1_000), d(None, 100), d(None, 100)],
        name: None,
    };
    assert_eq!(block_duration(&b), Span::from_millis(1_300));
}

#[test]
fn a_node_counts_its_own_delay() {
    let inner = Block::chain(vec![d(None, 400)]);
    let n = Node::Block { delay: Some(Span::from_millis(100)), block: inner };
    assert_eq!(node_duration(&n), Span::from_millis(500));
    assert_eq!(block_duration(&Block::chain(vec![])), Span::zero());
}

#[test]
fn durations_saturate_at_the_longest_span() {
    let b = Block { combinator: Combinator::Chain, children: vec![Node::Draft { delay: None, duration: Span::max_value(), name: None }, d(None, 1)], name: None };
    assert_eq!(block_duration(&b), Span::max_value());
}
