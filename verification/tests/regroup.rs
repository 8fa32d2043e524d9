use lib::regroup::{At, Family, RootCheck, destination, holds, root_check, row_name, settle, uid_head};

/// root 0 holds 1 and 2; 1 holds 3 and 4; 4 holds 5.
fn family() -> Family {
    Family {
        parents: vec![(1, 0), (2, 0), (3, 1), (4, 1), (5, 4)],
        children: vec![(0, vec![1, 2]), (1, vec![3, 4]), (4, vec![5])],
    }
}

#[test]
fn an_entity_holds_what_sits_under_it() {
    let f = family();
    assert!(holds(&f, 1, 5));
    assert!(holds(&f, 0, 5));
    assert!(!holds(&f, 2, 5));
    assert!(!holds(&f, 5, 5));
}

#[test]
fn a_drop_onto_itself_or_its_own_subtree_does_not_hold() {
    let f = family();
    assert_eq!(destination(&f, 1, 1, At::Into), None);
    assert_eq!(destination(&f, 1, 5, At::Before), None);
}

#[test]
fn dropping_into_a_row_puts_it_last() {
    let f = family();
    // Arriving from elsewhere is added first, then placed.
    assert_eq!(destination(&f, 2, 4, At::Into), Some((4, usize::MAX)));
    // Moving within the same list lands on its last slot.
    assert_eq!(destination(&f, 3, 1, At::Into), Some((1, 1)));
}

#[test]
fn dropping_beside_a_row_lands_next_to_it() {
    let f = family();
    assert_eq!(destination(&f, 5, 3, At::Before), Some((1, 0)));
    assert_eq!(destination(&f, 5, 3, At::After), Some((1, 1)));
    // Moving forward within one list lands one short.
    assert_eq!(destination(&f, 3, 4, At::After), Some((1, 1)));
    // A row with no parent has no side to land on.
    assert_eq!(destination(&f, 5, 0, At::After), None);
}

#[test]
fn settling_shifts_a_forward_move_and_clamps() {
    let f = family();
    assert_eq!(settle(&f, 1, 3, 2), 1);
    assert_eq!(settle(&f, 1, 4, 0), 0);
    assert_eq!(settle(&f, 1, 3, usize::MAX), 1);
    assert_eq!(settle(&f, 1, 9, 2), 2);
    assert_eq!(settle(&f, 7, 3, 2), 0);
}

#[test]
fn an_id_shows_its_head() {
    assert_eq!(uid_head("6f1c2a9e-0b3d-4c5e-8f7a-1b2c3d4e5f60"), "6f1c2a9e");
    assert_eq!(uid_head("abc"), "abc");
}

#[test]
fn a_row_reads_its_name_or_its_id() {
    assert_eq!(row_name(Some("Cube".to_string()), Some("0123456789")), "Cube");
    assert_eq!(row_name(None, Some("0123456789")), "01234567");
    assert_eq!(row_name(None, None), "?");
}

#[test]
fn the_scene_has_one_root() {
    assert_eq!(root_check(0), RootCheck::Make);
    assert_eq!(root_check(1), RootCheck::Fine);
    assert_eq!(root_check(2), RootCheck::TooMany);
}
