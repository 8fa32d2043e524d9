use lib::reorder::{Target, commit, delete, insert, merge, settles_where_it_started};
use lib::scene::{Block, Combinator, Node, Scene, Stage};
use lib::span::Span;

fn timed() -> Node {
    Node::Draft { delay: None, duration: Span::from_secs(1), name: None }
}

fn delayed(secs: u64) -> Node {
    Node::Draft { delay: Some(Span::from_secs(secs)), duration: Span::from_secs(1), name: None }
}

fn named(name: &str) -> Node {
    Node::Draft { delay: None, duration: Span::from_secs(1), name: Some(name.to_string()) }
}

fn delay(node: &Node) -> Option<Span> {
    match node {
        Node::Block { delay, .. } | Node::Action { delay, .. } | Node::Draft { delay, .. } => *delay,
    }
}

fn name(node: &Node) -> Option<String> {
    match node {
        Node::Draft { name, .. } => name.clone(),
        _ => None,
    }
}

fn combined(combinator: Combinator, children: Vec<Node>) -> Block {
    Block { combinator, children, name: None }
}

#[test]
fn merging_leaves_each_delay_on_its_own_node() {
    let mut root = combined(Combinator::All, vec![delayed(2), delayed(3)]);

    let landed = merge(&mut root, &[1], &[0], Combinator::Chain, false);

    assert_eq!(landed, Some(vec![0, 1]));
    let Node::Block { delay: wrapper, block } = &root.children[0] else {
        panic!("the pair should be wrapped in a block");
    };
    assert_eq!(*wrapper, None);
    assert_eq!(delay(&block.children[0]), Some(Span::from_secs(2)));
    assert_eq!(delay(&block.children[1]), Some(Span::from_secs(3)));
}

#[test]
fn moving_forward_among_siblings_lands_one_short() {
    let mut root = Block::chain(vec![named("a"), named("b"), named("c")]);
    let landed = insert(&mut root, &[0], &[], 3);
    assert_eq!(landed, Some(vec![2]));
    let names: Vec<Option<String>> = root.children.iter().map(name).collect();
    assert_eq!(
        names,
        vec![Some("b".to_string()), Some("c".to_string()), Some("a".to_string())]
    );
}

#[test]
fn moving_into_a_nested_block_lands_there() {
    let mut root = Block::chain(vec![named("a"), Node::block(Block::chain(vec![named("b")]))]);
    let landed = insert(&mut root, &[0], &[1], 0);
    // The block moves up once the node before it is taken out.
    assert_eq!(landed, Some(vec![0, 0]));
    assert_eq!(root.children.len(), 1);
    let Node::Block { block, .. } = &root.children[0] else {
        panic!("the block should remain");
    };
    assert_eq!(name(&block.children[0]), Some("a".to_string()));
    assert_eq!(name(&block.children[1]), Some("b".to_string()));
}

#[test]
fn a_drop_in_place_settles() {
    let target = Target::Insert { parent: vec![], index: 1 };
    assert!(settles_where_it_started(&target, &[0]));
    assert!(settles_where_it_started(&target, &[1]));
    assert!(!settles_where_it_started(&target, &[2]));
    let merge = Target::Merge { path: vec![0], combinator: Combinator::All, before: true };
    assert!(!settles_where_it_started(&merge, &[1]));
}

#[test]
fn a_commit_prunes_the_block_it_empties_and_follows_the_selection() {
    let mut root = Block::chain(vec![Node::block(Block::chain(vec![named("a")])), named("b")]);
    let mut selected = Some(vec![0, 0]);
    commit(&mut root, &[0, 0], &Target::Insert { parent: vec![], index: 2 }, &mut selected);
    assert_eq!(root.children.len(), 2);
    assert_eq!(name(&root.children[0]), Some("b".to_string()));
    assert_eq!(name(&root.children[1]), Some("a".to_string()));
    assert_eq!(selected, Some(vec![1]));
}

#[test]
fn deleting_the_selected_node_clears_the_selection() {
    let mut scene = Scene {
        stage: Stage { subjects: vec![] },
        animation: Block::chain(vec![named("a"), named("b")]),
    };
    let mut selected = Some(vec![0]);
    assert!(delete(&mut scene, &[0], &mut selected));
    assert_eq!(selected, None);
    assert_eq!(scene.animation.children.len(), 1);
    assert_eq!(name(&scene.animation.children[0]), Some("b".to_string()));
}

#[test]
fn deleting_before_the_selection_shifts_it() {
    let mut scene = Scene {
        stage: Stage { subjects: vec![] },
        animation: Block::chain(vec![named("a"), named("b"), timed()]),
    };
    let mut selected = Some(vec![1]);
    assert!(delete(&mut scene, &[0], &mut selected));
    assert_eq!(selected, Some(vec![0]));
}

#[test]
fn releasing_where_it_started_changes_nothing() {
    let mut root = Block::chain(vec![named("a"), named("b")]);
    let mut selected = Some(vec![0]);
    for index in [0, 1] {
        let wrote = lib::reorder::release(
            &mut root,
            &[0],
            Some(Target::Insert { parent: vec![], index }),
            &mut selected,
        );
        assert!(!wrote);
    }
    assert!(!lib::reorder::release(&mut root, &[0], None, &mut selected));
    let names: Vec<Option<String>> = root.children.iter().map(name).collect();
    assert_eq!(names, vec![Some("a".to_string()), Some("b".to_string())]);
    assert_eq!(selected, Some(vec![0]));
}

#[test]
fn a_settled_insert_is_no_move() {
    let mut root = Block::chain(vec![named("a"), named("b"), named("c")]);
    assert_eq!(insert(&mut root, &[1], &[], 2), Some(vec![1]));
    assert_eq!(insert(&mut root, &[1], &[], 1), Some(vec![1]));
    let names: Vec<Option<String>> = root.children.iter().map(name).collect();
    assert_eq!(
        names,
        vec![Some("a".to_string()), Some("b".to_string()), Some("c".to_string())]
    );
}

#[test]
fn releasing_elsewhere_writes_the_move() {
    let mut root = Block::chain(vec![named("a"), named("b")]);
    let mut selected = Some(vec![0]);
    let wrote = lib::reorder::release(
        &mut root,
        &[0],
        Some(Target::Insert { parent: vec![], index: 2 }),
        &mut selected,
    );
    assert!(wrote);
    assert_eq!(name(&root.children[1]), Some("a".to_string()));
    assert_eq!(selected, Some(vec![1]));
}
