use lib::create::{add_action, seed_of};
use lib::reorder::Target;
use lib::scene::{Block, FieldRef, FieldSeed, Node, Scene, Stage, Subject};
use lib::span::Span;

#[test]
fn a_dropped_field_is_staged_once_and_its_action_lands() {
    let mut scene = Scene { stage: Stage { subjects: vec![] }, animation: Block::chain(vec![]) };
    let landed = add_action(&mut scene, 3, FieldRef::new("T", "::x"), 10, 11, None);
    assert_eq!(landed, Some(vec![0]));
    assert_eq!(seed_of(&scene.stage.subjects, 3, &FieldRef::new("T", "::x")), Some(11));
    let Node::Action { delay, action } = &scene.animation.children[0] else {
        panic!("an action");
    };
    assert_eq!(*delay, None);
    assert_eq!(action.value, 10);
    assert_eq!(action.duration, Span::from_secs(1));
    assert_eq!(action.interp, Some(0));
    // A second drop of the same field keeps its first seed.
    let landed = add_action(
        &mut scene,
        3,
        FieldRef::new("T", "::x"),
        12,
        13,
        Some(Target::Insert { parent: vec![], index: 0 }),
    );
    assert_eq!(landed, Some(vec![0]));
    assert_eq!(seed_of(&scene.stage.subjects, 3, &FieldRef::new("T", "::x")), Some(11));
    assert_eq!(scene.stage.subjects[0].fields.len(), 1);
    assert_eq!(scene.animation.children.len(), 2);
}

#[test]
fn a_seed_is_found_by_subject_and_field() {
    let subjects = vec![Subject {
        id: 1,
        fields: vec![FieldSeed { field: FieldRef::new("T", "::y"), value: 4 }],
    }];
    assert_eq!(seed_of(&subjects, 1, &FieldRef::new("T", "::y")), Some(4));
    assert_eq!(seed_of(&subjects, 1, &FieldRef::new("T", "::x")), None);
    assert_eq!(seed_of(&subjects, 2, &FieldRef::new("T", "::y")), None);
}
