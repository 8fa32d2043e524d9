use lib::edit::{Edit, edit_at, edit_node, named};
use lib::scene::{ActionCmd, Block, Combinator, FieldRef, Node};
use lib::span::Span;

fn action() -> Node {
    Node::Action {
        delay: Some(Span::from_secs(1)),
        action: ActionCmd {
            subject: 3,
            field: FieldRef::new("Transform", "::position::x"),
            op: 0,
            value: 9,
            duration: Span::from_secs(2),
            ease: None,
            interp: None,
            name: None,
        },
    }
}

fn tree() -> Block {
    Block {
        combinator: Combinator::Chain,
        children: vec![action(), Node::block(Block::chain(vec![]))],
        name: None,
    }
}

#[test]
fn a_typed_name_is_trimmed() {
    assert_eq!(named("  intro \t"), Some("intro".to_string()));
    assert_eq!(named("a b"), Some("a b".to_string()));
}

#[test]
fn a_blank_name_clears_it() {
    assert_eq!(named(""), None);
    assert_eq!(named(" \n\u{3000} "), None);
}

#[test]
fn dragging_a_delay_to_nothing_clears_it() {
    let mut node = action();
    edit_node(&mut node, Edit::Delay(Span::zero()));
    assert!(matches!(node, Node::Action { delay: None, .. }));
    edit_node(&mut node, Edit::Delay(Span::from_millis(250)));
    assert!(matches!(node, Node::Action { delay: Some(d), .. } if d == Span::from_millis(250)));
}

#[test]
fn typing_a_delay_of_nothing_keeps_it() {
    let mut node = action();
    edit_node(&mut node, Edit::SetDelay(Span::zero()));
    assert!(matches!(node, Node::Action { delay: Some(d), .. } if d.is_zero()));
}

#[test]
fn a_block_has_no_duration_to_change() {
    let mut node = Node::block(Block::chain(vec![]));
    edit_node(&mut node, Edit::Duration(Span::from_secs(5)));
    let Node::Block { delay, block } = node else {
        panic!("still a block");
    };
    assert_eq!(delay, None);
    assert!(block.children.is_empty());
}

#[test]
fn edits_land_on_the_node_the_path_names() {
    let mut root = tree();
    assert!(edit_at(&mut root, &[0], Edit::Duration(Span::from_secs(4))));
    assert!(edit_at(&mut root, &[0], Edit::Ease(Some(2))));
    assert!(edit_at(&mut root, &[0], Edit::Name(named(" hop "))));
    let Node::Action { action, .. } = &root.children[0] else {
        panic!("still an action");
    };
    assert_eq!(action.duration, Span::from_secs(4));
    assert_eq!(action.ease, Some(2));
    assert_eq!(action.name.as_deref(), Some("hop"));
    assert_eq!(action.value, 9);
}

#[test]
fn a_stagger_makes_the_block_a_flow() {
    let mut root = tree();
    assert!(edit_at(&mut root, &[1], Edit::Stagger(Span::from_millis(300))));
    let Node::Block { block, .. } = &root.children[1] else {
        panic!("still a block");
    };
    assert_eq!(block.combinator, Combinator::Flow(Span::from_millis(300)));
}

#[test]
fn the_empty_path_edits_the_root() {
    let mut root = tree();
    assert!(edit_at(&mut root, &[], Edit::Combinator(Combinator::All)));
    assert!(edit_at(&mut root, &[], Edit::Name(Some("scene".to_string()))));
    assert_eq!(root.combinator, Combinator::All);
    assert_eq!(root.name.as_deref(), Some("scene"));
    // The root is no node, so it has no delay to change.
    assert!(edit_at(&mut root, &[], Edit::SetDelay(Span::from_secs(1))));
    assert_eq!(root.children.len(), 2);
}

#[test]
fn a_dangling_path_changes_nothing() {
    let mut root = tree();
    assert!(!edit_at(&mut root, &[5], Edit::Duration(Span::from_secs(4))));
    assert!(!edit_at(&mut root, &[0, 0], Edit::Duration(Span::from_secs(4))));
    let Node::Action { action, .. } = &root.children[0] else {
        panic!("still an action");
    };
    assert_eq!(action.duration, Span::from_secs(2));
}
