use lib::project::{Missing, Part, assemble, part_of};

#[test]
fn entries_are_read_by_their_key() {
    assert_eq!(part_of(&"world".to_string()), Part::World);
    assert_eq!(part_of(&"scene".to_string()), Part::Scene);
    assert_eq!(part_of(&"bookmarks".to_string()), Part::Bookmarks);
    assert_eq!(part_of(&"extra".to_string()), Part::Other);
}

#[test]
fn both_halves_are_owed_and_bookmarks_are_not() {
    let whole = assemble(Some(1), Some("s"), None).unwrap();
    assert_eq!(whole.0, 1);
    assert_eq!(whole.1, "s");
    assert!(whole.2.is_empty());
    assert_eq!(assemble::<i32, &str>(None, None, None).unwrap_err(), Missing::World);
    assert_eq!(assemble::<i32, &str>(Some(1), None, None).unwrap_err(), Missing::Scene);
    let with = assemble(Some(1), Some(2), Some(vec![vec!["a".to_string()]])).unwrap();
    assert_eq!(with.2, vec![vec!["a".to_string()]]);
}
