use lib::layout::{Heading, Link, block_heading, layout, leaf_label, toggle_folded};
use lib::scene::{Block, Combinator, Node};
use lib::span::Span;

fn draft(delay_ms: Option<u64>, duration_ms: u64, name: Option<&str>) -> Node {
    Node::Draft {
        delay: delay_ms.map(Span::from_millis),
        duration: Span::from_millis(duration_ms),
        name: name.map(|n| n.to_string()),
    }
}

fn tree() -> Block {
    Block {
        combinator: Combinator::Chain,
        children: vec![
            draft(None, 1_000, Some("x")),
            Node::Block {
                delay: Some(Span::from_millis(500)),
                block: Block {
                    combinator: Combinator::All,
                    children: vec![draft(None, 2_000, None), draft(Some(1_000), 1_000, None)],
                    name: None,
                },
            },
        ],
        name: None,
    }
}

fn ms(s: Span) -> u128 {
    s.as_millis()
}

#[test]
fn every_node_gets_a_box_depth_first() {
    let boxes = layout(&tree(), &vec![]);
    let paths: Vec<Vec<usize>> = boxes.iter().map(|b| b.path.clone()).collect();
    assert_eq!(paths, vec![vec![], vec![0], vec![1], vec![1, 0], vec![1, 1]]);
    let depths: Vec<usize> = boxes.iter().map(|b| b.depth).collect();
    assert_eq!(depths, vec![0, 1, 1, 2, 2]);
}

#[test]
fn boxes_sit_at_their_resolved_times() {
    let boxes = layout(&tree(), &vec![]);
    let times: Vec<(u128, u128, u128)> =
        boxes.iter().map(|b| (ms(b.start), ms(b.end), ms(b.gap))).collect();
    assert_eq!(
        times,
        vec![
            (0, 3_500, 0),
            (0, 1_000, 0),
            (1_500, 3_500, 500),
            (1_500, 3_500, 0),
            (2_500, 3_500, 1_000),
        ]
    );
}

#[test]
fn a_chain_shares_one_row_and_an_overlap_stacks() {
    let boxes = layout(&tree(), &vec![]);
    let rows: Vec<(u64, u64)> = boxes.iter().map(|b| (b.y, b.h)).collect();
    assert_eq!(rows, vec![(0, 102), (24, 26), (24, 78), (48, 26), (76, 26)]);
}

#[test]
fn boxes_carry_their_labels_and_names() {
    let boxes = layout(&tree(), &vec![]);
    assert!(matches!(boxes[0].label, Some(Heading::Unnamed(Combinator::Chain))));
    assert!(matches!(boxes[2].label, Some(Heading::Unnamed(Combinator::All))));
    assert!(boxes[1].label.is_none());
    assert_eq!(boxes[1].name.as_deref(), Some("x"));
    assert!(boxes[1].draft);
    assert!(!boxes[2].draft);
}

#[test]
fn a_child_knows_its_parent_box() {
    let boxes = layout(&tree(), &vec![]);
    assert!(boxes[0].parent.is_none());
    let parent = boxes[3].parent.unwrap();
    assert_eq!((ms(parent.start), ms(parent.end), parent.y), (1_500, 3_500, 24));
}

#[test]
fn a_folded_block_keeps_its_time_and_loses_its_children() {
    let boxes = layout(&tree(), &vec![vec![1]]);
    assert_eq!(boxes.len(), 3);
    assert!(boxes[2].folded);
    assert_eq!(boxes[2].h, 24);
    assert_eq!((ms(boxes[2].start), ms(boxes[2].end)), (1_500, 3_500));
    assert_eq!(boxes[0].h, 50);
}

#[test]
fn an_empty_root_gets_no_box() {
    let root = Block::chain(vec![]);
    assert!(layout(&root, &vec![]).is_empty());
}

#[test]
fn a_flow_links_each_child_to_the_one_before() {
    let root = Block {
        combinator: Combinator::Flow(Span::from_secs(1)),
        children: vec![draft(None, 1_000, None), draft(None, 1_000, None)],
        name: None,
    };
    let boxes = layout(&root, &vec![]);
    assert_eq!(boxes.len(), 3);
    assert!(matches!(boxes[0].label, Some(Heading::Unnamed(Combinator::Flow(s))) if s == Span::from_secs(1)));
    assert_eq!(ms(boxes[0].end), 2_000);
    assert_eq!(boxes[1].link, None);
    assert_eq!(
        boxes[2].link,
        Some(Link { from: Span::zero(), to: Span::from_secs(1), top: 50, bottom: 65 })
    );
    assert_eq!((boxes[1].y, boxes[2].y), (24, 52));
}

#[test]
fn a_block_is_labelled_by_its_name_before_its_combinator() {
    let named = Block {
        combinator: Combinator::All,
        children: vec![draft(None, 100, None)],
        name: Some("intro".to_string()),
    };
    assert!(matches!(block_heading(&named), Heading::Named(n) if n == "intro"));
    assert!(matches!(block_heading(&tree()), Heading::Unnamed(Combinator::Chain)));
    let root = Block {
        combinator: Combinator::Chain,
        children: vec![Node::Block { delay: None, block: named }],
        name: None,
    };
    let boxes = layout(&root, &vec![]);
    assert!(matches!(&boxes[1].label, Some(Heading::Named(n)) if n == "intro"));
}

#[test]
fn a_leaf_reads_its_name_else_draft_else_nothing() {
    assert_eq!(leaf_label(&Some("fade".to_string()), true), "fade");
    assert_eq!(leaf_label(&Some("fade".to_string()), false), "fade");
    assert_eq!(leaf_label(&None, true), "Draft");
    assert_eq!(leaf_label(&None, false), "");
    let boxes = layout(&tree(), &vec![]);
    assert_eq!(leaf_label(&boxes[1].name, boxes[1].draft), "x");
}

#[test]
fn folding_twice_opens_again() {
    let mut folded: Vec<Vec<usize>> = vec![vec![0]];
    toggle_folded(&mut folded, &[1, 2]);
    assert!(folded.contains(&vec![1, 2]));
    toggle_folded(&mut folded, &[1, 2]);
    assert_eq!(folded, vec![vec![0]]);
    toggle_folded(&mut folded, &[0]);
    assert!(folded.is_empty());
}

#[test]
fn a_block_box_holds_its_children() {
    let boxes = layout(&tree(), &vec![]);
    for child in &boxes[3..5] {
        let parent = &boxes[2];
        assert!(child.y >= parent.y + 24);
        assert!(child.y + child.h <= parent.y + parent.h);
        assert!(ms(child.start) >= ms(parent.start));
        assert!(ms(child.end) <= ms(parent.end));
    }
    // Stacked lanes never overlap.
    assert!(boxes[3].y + boxes[3].h <= boxes[4].y);
}
