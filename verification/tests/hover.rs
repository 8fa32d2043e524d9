use lib::hover::{Spot, innermost_block, loose_index};

fn spot(path: &[usize], is_block: bool, holds_cursor: bool) -> Spot {
    Spot { path: path.to_vec(), is_block, holds_cursor }
}

#[test]
fn the_deepest_block_holding_the_cursor_wins() {
    let spots = vec![
        spot(&[], true, true),
        spot(&[0], false, true),
        spot(&[1], true, true),
        spot(&[1, 0], true, true),
        spot(&[1, 1], true, false),
    ];
    assert_eq!(innermost_block(&spots, &[0]), Some(vec![1, 0]));
}

#[test]
fn the_dragged_block_and_its_insides_are_passed_over() {
    let spots = vec![spot(&[], true, true), spot(&[1], true, true), spot(&[1, 0], true, true)];
    assert_eq!(innermost_block(&spots, &[1]), Some(vec![]));
    assert_eq!(innermost_block(&spots, &[]), None);
}

#[test]
fn of_equally_deep_blocks_the_last_wins() {
    let spots = vec![spot(&[0], true, true), spot(&[1], true, true), spot(&[2], true, false)];
    assert_eq!(innermost_block(&spots, &[5]), Some(vec![1]));
}

#[test]
fn nothing_holding_the_cursor_gives_no_block() {
    let spots = vec![spot(&[], true, false), spot(&[0], false, true)];
    assert_eq!(innermost_block(&spots, &[3]), None);
    assert_eq!(innermost_block(&vec![], &[3]), None);
}

#[test]
fn a_loose_drop_lands_past_the_children_it_cleared() {
    assert_eq!(loose_index(&vec![]), 0);
    assert_eq!(loose_index(&vec![true, true, false]), 2);
    assert_eq!(loose_index(&vec![false, false]), 0);
    assert_eq!(loose_index(&vec![true, false, true]), 2);
}
