use lib::inspector::{block_drives, field_ref_of};
use lib::scene::{ActionCmd, Block, FieldRef, Node};
use lib::span::Span;

fn act(subject: u128, path: &str) -> Node {
    Node::action(ActionCmd {
        subject,
        field: FieldRef::new("Transform", path),
        op: 0,
        value: 0,
        duration: Span::zero(),
        ease: None,
        interp: None,
        name: None,
    })
}

#[test]
fn a_nested_action_drives_its_field() {
    let root = Block::chain(vec![
        Node::Draft { delay: None, duration: Span::zero(), name: None },
        Node::block(Block::chain(vec![act(4, "::position::x")])),
    ]);
    assert!(block_drives(&root, 4, &FieldRef::new("Transform", "::position::x")));
    assert!(!block_drives(&root, 4, &FieldRef::new("Transform", "::position::y")));
    assert!(!block_drives(&root, 5, &FieldRef::new("Transform", "::position::x")));
}

#[test]
fn a_reflect_path_reads_as_a_scene_field() {
    let f = field_ref_of("bevy_transform::Transform", "position.x").unwrap();
    assert_eq!(f.component, "bevy_transform::Transform");
    assert_eq!(f.path, "::position::x");
    assert!(field_ref_of("bevy_transform::Transform", "").is_none());
}
