use lib::prune::{empty_blocks, stage};
use lib::scene::{ActionCmd, Block, FieldRef, FieldSeed, Node, Scene, Stage, Subject};
use lib::span::Span;

fn action(subject: u128, field: &str) -> Node {
    Node::action(ActionCmd {
        subject,
        field: FieldRef::new("T", field),
        op: 0,
        value: 0,
        duration: Span::zero(),
        ease: None,
        interp: None,
        name: None,
    })
}

fn seeded(subject: u128, field: &str) -> Subject {
    Subject {
        id: subject,
        fields: vec![FieldSeed {
            field: FieldRef::new("T", field),
            value: 0,
        }],
    }
}

fn leaf() -> Node {
    Node::Draft {
        delay: None,
        duration: Span::zero(),
        name: None,
    }
}

fn block(children: Vec<Node>) -> Node {
    Node::block(Block::chain(children))
}

#[test]
fn shifts_kept_past_a_removed_sibling() {
    let mut root = Block::chain(vec![block(vec![]), leaf()]);
    let mut keep = Some(vec![1]);
    empty_blocks(&mut root, &mut keep);
    assert_eq!(keep, Some(vec![0]));
    assert_eq!(root.children.len(), 1);
}

#[test]
fn leaves_kept_before_a_removed_sibling() {
    let mut root = Block::chain(vec![leaf(), block(vec![])]);
    let mut keep = Some(vec![0]);
    empty_blocks(&mut root, &mut keep);
    assert_eq!(keep, Some(vec![0]));
}

#[test]
fn clears_kept_inside_a_removed_block() {
    let mut root = Block::chain(vec![block(vec![block(vec![])]), leaf()]);
    let mut keep = Some(vec![0, 0]);
    empty_blocks(&mut root, &mut keep);
    assert_eq!(keep, None);
    assert_eq!(root.children.len(), 1);
}

#[test]
fn rebases_kept_in_a_surviving_nested_block() {
    let mut root = Block::chain(vec![block(vec![block(vec![]), leaf()]), leaf()]);
    let mut keep = Some(vec![0, 1]);
    empty_blocks(&mut root, &mut keep);
    assert_eq!(keep, Some(vec![0, 0]));
}

#[test]
fn stage_drops_a_field_no_action_targets_anymore() {
    let subject = 7;
    let mut scene = Scene {
        stage: Stage { subjects: vec![seeded(subject, "x")] },
        animation: Block::chain(vec![]),
    };
    stage(&mut scene);
    assert!(scene.stage.subjects.is_empty());
}

#[test]
fn stage_keeps_a_field_still_targeted() {
    let subject = 7;
    let mut scene = Scene {
        stage: Stage { subjects: vec![seeded(subject, "x")] },
        animation: Block::chain(vec![action(subject, "x")]),
    };
    stage(&mut scene);
    assert_eq!(scene.stage.subjects.len(), 1);
}

#[test]
fn stage_keeps_a_sibling_field_on_the_same_subject() {
    let subject = 7;
    let mut fields = seeded(subject, "x").fields;
    fields.extend(seeded(subject, "y").fields);
    let mut scene = Scene {
        stage: Stage { subjects: vec![Subject { id: subject, fields }] },
        animation: Block::chain(vec![action(subject, "y")]),
    };
    stage(&mut scene);
    assert_eq!(scene.stage.subjects[0].fields.len(), 1);
    assert_eq!(scene.stage.subjects[0].fields[0].field.component, "T");
    assert_eq!(scene.stage.subjects[0].fields[0].field.path, "y");
}

#[test]
fn an_emptied_block_goes_with_its_empty_parent() {
    // Pruning runs bottom up: a block holding only empty blocks is
    // empty once they go, and goes too.
    let mut root = Block::chain(vec![leaf(), block(vec![block(vec![]), block(vec![])])]);
    let mut keep = None;
    empty_blocks(&mut root, &mut keep);
    assert_eq!(root.children.len(), 1);
    assert!(matches!(root.children[0], Node::Draft { .. }));
    assert_eq!(keep, None);
}

#[test]
fn stage_drops_a_subject_left_with_no_field() {
    let mut scene = Scene {
        stage: Stage { subjects: vec![seeded(1, "x"), seeded(2, "x")] },
        animation: Block::chain(vec![action(2, "x")]),
    };
    stage(&mut scene);
    assert_eq!(scene.stage.subjects.len(), 1);
    assert_eq!(scene.stage.subjects[0].id, 2);
}

#[test]
fn pruning_again_prunes_nothing_more() {
    let mut root = Block::chain(vec![block(vec![block(vec![]), leaf()]), block(vec![]), leaf()]);
    let mut keep = None;
    empty_blocks(&mut root, &mut keep);
    assert_eq!(root.children.len(), 2);
    let Node::Block { block: inner, .. } = &root.children[0] else {
        panic!("the block with a leaf stays");
    };
    assert_eq!(inner.children.len(), 1);
    empty_blocks(&mut root, &mut keep);
    assert_eq!(root.children.len(), 2);
}

#[test]
fn pruning_keeps_every_staged_field_an_action_drives() {
    let mut scene = Scene {
        stage: Stage { subjects: vec![seeded(7, "x")] },
        animation: Block::chain(vec![block(vec![block(vec![]), action(7, "x")])]),
    };
    let mut keep = None;
    empty_blocks(&mut scene.animation, &mut keep);
    stage(&mut scene);
    assert_eq!(scene.stage.subjects.len(), 1);
}
