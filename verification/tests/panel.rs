use lib::panel::{
    Kind, Property, combinator_index, combinator_name, field_label, picked_combinator,
    property_label, set_combinator, summarize,
};
use lib::scene::{ActionCmd, Block, Combinator, FieldRef, Node};
use lib::span::Span;

fn tree() -> Block {
    Block {
        combinator: Combinator::Flow(Span::from_millis(200)),
        children: vec![
            Node::action(ActionCmd {
                subject: 5,
                field: FieldRef::new("Transform", "::scale::y"),
                op: 2,
                value: 11,
                duration: Span::from_secs(1),
                ease: None,
                interp: None,
                name: None,
            }),
            Node::Block {
                delay: Some(Span::from_secs(1)),
                block: Block::chain(vec![]),
            },
            Node::Draft { delay: None, duration: Span::from_secs(1), name: None },
        ],
        name: None,
    }
}

#[test]
fn an_action_shows_what_it_drives() {
    let s = summarize(&tree(), &[0]).unwrap();
    assert_eq!(s.kind, Kind::Action);
    assert_eq!(s.subject, Some(5));
    assert_eq!(s.field.as_ref().unwrap().path, "::scale::y");
    assert_eq!(s.op, Some(2));
    assert_eq!(s.value, Some(11));
    assert_eq!(s.edits, vec![Property::Duration, Property::Ease, Property::Interp]);
}

#[test]
fn a_block_offers_its_delay_only_when_it_has_one() {
    let s = summarize(&tree(), &[1]).unwrap();
    assert_eq!(s.kind, Kind::Block);
    assert_eq!(s.combinator, Some(Combinator::Chain));
    assert_eq!(s.edits, vec![Property::Delay]);
}

#[test]
fn the_root_offers_its_stagger() {
    let s = summarize(&tree(), &[]).unwrap();
    assert_eq!(s.kind, Kind::Block);
    assert_eq!(s.edits, vec![Property::Stagger]);
}

#[test]
fn a_draft_offers_its_duration() {
    let s = summarize(&tree(), &[2]).unwrap();
    assert_eq!(s.kind, Kind::Draft);
    assert_eq!(s.edits, vec![Property::Duration]);
}

#[test]
fn a_stale_selection_shows_nothing() {
    assert!(summarize(&tree(), &[3]).is_none());
    assert!(summarize(&tree(), &[0, 0]).is_none());
}

#[test]
fn the_type_picker_names_and_orders_the_combinators() {
    assert_eq!(combinator_name(&Combinator::Flow(Span::zero())), "Flow");
    assert_eq!(combinator_index(&Combinator::All), 1);
    assert_eq!(picked_combinator(0), Combinator::Chain);
    assert_eq!(picked_combinator(7), Combinator::Flow(Span::from_parts(0, 150_000_006)));
    assert_eq!(property_label(Property::Interp), "Interpolation");
}

#[test]
fn switching_to_a_flow_seeds_a_stagger() {
    let mut root = tree();
    set_combinator(&mut root, &[1], 2);
    let Node::Block { block, .. } = &root.children[1] else {
        panic!("still a block");
    };
    assert_eq!(block.combinator, Combinator::Flow(Span::from_parts(0, 150_000_006)));
    set_combinator(&mut root, &[], 0);
    assert_eq!(root.combinator, Combinator::Chain);
    // A leaf has no combinator to switch.
    set_combinator(&mut root, &[0], 1);
    assert!(matches!(root.children[0], Node::Action { .. }));
}

#[test]
fn a_field_reads_as_its_type_and_path() {
    assert_eq!(field_label("bevy_transform::components::Transform", None, "::position::x"), "Transform::position::x");
    assert_eq!(field_label("Plain", None, "::a"), "Plain::a");
    assert_eq!(field_label("x::Y", Some("Shown".to_string()), "::z"), "Shown::z");
}
