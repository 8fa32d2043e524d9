use lib::retime::{Handle, commit, edge_value, preview};
use lib::scene::{Block, Combinator, Node};
use lib::span::Span;

fn tree() -> Block {
    Block {
        combinator: Combinator::Chain,
        children: vec![
            Node::Draft { delay: Some(Span::from_millis(500)), duration: Span::from_secs(1), name: None },
            Node::block(Block::chain(vec![Node::Draft { delay: None, duration: Span::from_secs(2), name: None }])),
        ],
        name: None,
    }
}

#[test]
fn an_edge_starts_from_the_value_it_edits() {
    let root = tree();
    assert_eq!(edge_value(&root, &[0], Handle::Delay), Some(Span::from_millis(500)));
    assert_eq!(edge_value(&root, &[0], Handle::Resize), Some(Span::from_secs(1)));
    assert_eq!(edge_value(&root, &[1], Handle::Delay), Some(Span::zero()));
    // A block has no duration of its own to grab.
    assert_eq!(edge_value(&root, &[1], Handle::Resize), None);
    assert_eq!(edge_value(&root, &[], Handle::Delay), None);
}

#[test]
fn a_finished_drag_writes_the_edge() {
    let mut root = tree();
    assert!(commit(&mut root, &[1, 0], Handle::Resize, Span::from_secs(3)));
    assert!(commit(&mut root, &[0], Handle::Delay, Span::zero()));
    assert!(matches!(root.children[0], Node::Draft { delay: None, .. }));
    let Node::Block { block, .. } = &root.children[1] else {
        panic!("still a block");
    };
    assert!(matches!(block.children[0], Node::Draft { duration, .. } if duration == Span::from_secs(3)));
    assert!(!commit(&mut root, &[], Handle::Delay, Span::from_secs(1)));
}

#[test]
fn a_drag_in_progress_previews_without_writing() {
    let root = tree();
    let boxes = preview(&root, &[0], Handle::Resize, Span::from_secs(2), &vec![]).unwrap();
    // The draft now runs 0.5 s to 2.5 s, and the block after it from there.
    assert_eq!(boxes[1].end, Span::from_millis(2_500));
    assert_eq!(boxes[2].start, Span::from_millis(2_500));
    assert!(matches!(root.children[0], Node::Draft { duration, .. } if duration == Span::from_secs(1)));
    assert!(preview(&root, &[4], Handle::Resize, Span::from_secs(2), &vec![]).is_none());
}

#[test]
fn dragging_back_to_the_start_previews_the_untouched_tree() {
    let root = tree();
    let untouched = lib::layout::layout(&root, &vec![]);
    let back = preview(&root, &[0], Handle::Delay, Span::from_millis(500), &vec![]).unwrap();
    assert_eq!(back.len(), untouched.len());
    for (a, b) in back.iter().zip(untouched.iter()) {
        assert_eq!((a.start, a.end, a.gap, a.y, a.h), (b.start, b.end, b.gap, b.y, b.h));
        assert_eq!(a.path, b.path);
    }
}
