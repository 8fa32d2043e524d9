use lib::recompile::{
    CompileError, EditorScene, Generations, SceneVersion, demote_offending_action, matches_error, scene_dirty,
};
use lib::scene::{ActionCmd, Block, FieldRef, Node};
use lib::span::Span;

fn cmd(subject: u128, field: &str, op: u32, value: u128, ease: Option<u32>) -> ActionCmd {
    ActionCmd {
        subject,
        field: FieldRef::new("T", field),
        op,
        value,
        duration: Span::from_secs(2),
        ease,
        interp: Some(1),
        name: Some("move".to_string()),
    }
}

#[test]
fn each_error_names_what_it_is_about() {
    let a = cmd(1, "x", 4, 9, Some(3));
    assert!(matches_error(&a, &CompileError::UnknownSubject(1)));
    assert!(!matches_error(&a, &CompileError::UnknownSubject(2)));
    assert!(matches_error(&a, &CompileError::UnknownField(FieldRef::new("T", "x"))));
    assert!(!matches_error(&a, &CompileError::TypeMismatch(FieldRef::new("T", "y"))));
    assert!(matches_error(&a, &CompileError::UnknownSubjectKind(FieldRef::new("T", "x"))));
    assert!(matches_error(&a, &CompileError::UnknownOp(4)));
    assert!(matches_error(&a, &CompileError::UnknownValue(9)));
    assert!(matches_error(&a, &CompileError::UnknownEase(3)));
    assert!(!matches_error(&a, &CompileError::UnknownInterp(3)));
    let linear = cmd(1, "x", 4, 9, None);
    assert!(!matches_error(&linear, &CompileError::UnknownEase(3)));
}

#[test]
fn the_first_offending_action_becomes_a_draft() {
    let mut root = Block::chain(vec![
        Node::action(cmd(1, "x", 0, 0, None)),
        Node::block(Block::chain(vec![Node::Action {
            delay: Some(Span::from_millis(300)),
            action: cmd(2, "y", 0, 0, None),
        }])),
        Node::action(cmd(2, "z", 0, 0, None)),
    ]);
    assert!(demote_offending_action(&mut root, &CompileError::UnknownSubject(2)));
    assert!(matches!(root.children[0], Node::Action { .. }));
    let Node::Block { block, .. } = &root.children[1] else {
        panic!("still a block");
    };
    let Node::Draft { delay, duration, name } = &block.children[0] else {
        panic!("demoted to a draft");
    };
    assert_eq!(*delay, Some(Span::from_millis(300)));
    assert_eq!(*duration, Span::from_secs(2));
    assert_eq!(name.as_deref(), Some("move"));
    // Only the first goes.
    assert!(matches!(root.children[2], Node::Action { .. }));
}

#[test]
fn demoting_again_takes_the_next_and_then_stops() {
    let mut root = Block::chain(vec![Node::action(cmd(2, "x", 0, 0, None)), Node::action(cmd(2, "y", 0, 0, None))]);
    let error = CompileError::UnknownSubject(2);
    assert!(demote_offending_action(&mut root, &error));
    assert!(demote_offending_action(&mut root, &error));
    assert!(!demote_offending_action(&mut root, &error));
    assert!(matches!(root.children[0], Node::Draft { .. }));
    assert!(matches!(root.children[1], Node::Draft { .. }));
}

#[test]
fn an_edit_or_a_new_scene_is_dirty_once() {
    let mut seen = None;
    let v = SceneVersion::first(4);
    assert!(scene_dirty(v, &mut seen));
    assert!(!scene_dirty(v, &mut seen));
    let edited = v.edited();
    assert_eq!(edited.edits, 1);
    assert!(scene_dirty(edited, &mut seen));
    assert!(!scene_dirty(edited, &mut seen));
    assert!(scene_dirty(SceneVersion::first(5), &mut seen));
}

#[test]
fn the_edit_count_wraps() {
    let v = SceneVersion { generation: 0, edits: u32::MAX };
    assert_eq!(v.edited().edits, 0);
}

#[test]
fn editing_the_scene_marks_it_dirty() {
    let mut generations = Generations::new();
    let _ = EditorScene::empty(&mut generations);
    let _ = EditorScene::empty(&mut generations);
    let mut editor = EditorScene::empty(&mut generations);
    let mut seen = None;
    assert!(scene_dirty(editor.current_version(), &mut seen));
    assert!(!scene_dirty(editor.current_version(), &mut seen));
    editor.edit().animation.children.push(Node::Draft { delay: None, duration: Span::from_secs(1), name: None });
    assert!(scene_dirty(editor.current_version(), &mut seen));
    assert_eq!(editor.get().animation.children.len(), 1);
    assert_eq!(editor.current_version().edits, 1);
    assert_eq!(editor.current_version().generation, 2);
    // Reaching for the scene to change it counts, written to or not.
    let _ = editor.edit();
    assert!(scene_dirty(editor.current_version(), &mut seen));
}

#[test]
fn many_edits_still_read_as_dirty() {
    let mut generations = Generations::new();
    let mut editor = EditorScene::empty(&mut generations);
    let mut seen = None;
    assert!(scene_dirty(editor.current_version(), &mut seen));
    for k in 1..=1_000u32 {
        editor.edit();
        assert!(scene_dirty(editor.current_version(), &mut seen), "edit {k} went unseen");
        assert!(!scene_dirty(editor.current_version(), &mut seen));
    }
    let start = SceneVersion { generation: 9, edits: 7 };
    let mut v = start;
    for _ in 0..100_000 {
        v = v.edited();
        assert!(v != start);
    }
}

#[test]
fn the_counter_hands_out_generations_in_turn() {
    let mut generations = Generations::new();
    assert_eq!(generations.take(), 0);
    assert_eq!(generations.take(), 1);
    assert_eq!(generations.take(), 2);
}

#[test]
fn a_replaced_scene_reads_as_dirty() {
    let mut generations = Generations::new();
    let mut editor = EditorScene::empty(&mut generations);
    let mut seen = None;
    assert!(scene_dirty(editor.current_version(), &mut seen));
    for _ in 0..1_000 {
        let _ = editor.edit();
        let replacement = EditorScene::empty(&mut generations);
        assert!(scene_dirty(replacement.current_version(), &mut seen));
        assert!(!scene_dirty(replacement.current_version(), &mut seen));
        editor = replacement;
    }
    assert_eq!(editor.current_version().generation, 1_000);
}
