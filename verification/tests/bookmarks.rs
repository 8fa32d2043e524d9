use lib::bookmarks::{add_bookmark, listed, prune_fold_state, remove_bookmark, set_folder_open};

fn p(parts: &[&str]) -> Vec<String> {
    parts.iter().map(|s| s.to_string()).collect()
}

#[test]
fn a_nesting_folder_is_not_bookmarked() {
    let mut bookmarks = vec![p(&["home", "art"])];
    assert!(!add_bookmark(&mut bookmarks, p(&["home", "art", "png"])));
    assert!(!add_bookmark(&mut bookmarks, p(&["home"])));
    assert!(add_bookmark(&mut bookmarks, p(&["home", "artwork"])));
    assert_eq!(bookmarks, vec![p(&["home", "art"]), p(&["home", "artwork"])]);
}

#[test]
fn removing_a_bookmark_forgets_its_open_folders() {
    let mut bookmarks = vec![p(&["a"]), p(&["b"])];
    let mut open = vec![p(&["a"]), p(&["a", "x"]), p(&["b", "y"]), p(&["ab"])];
    remove_bookmark(&mut bookmarks, &mut open, 0);
    assert_eq!(bookmarks, vec![p(&["b"])]);
    assert_eq!(open, vec![p(&["b", "y"]), p(&["ab"])]);
    remove_bookmark(&mut bookmarks, &mut open, 5);
    assert_eq!(bookmarks, vec![p(&["b"])]);
}

#[test]
fn a_vanished_folder_forgets_its_subtree() {
    let mut open = vec![p(&["a"]), p(&["a", "gone"]), p(&["a", "gone", "deep"]), p(&["a", "kept"]), p(&["b", "gone"])];
    prune_fold_state(&mut open, &p(&["a"]), &vec![p(&["a", "kept"]), p(&["a", "file.png"])]);
    assert_eq!(open, vec![p(&["a"]), p(&["a", "kept"]), p(&["b", "gone"])]);
}

#[test]
fn opening_a_folder_twice_lists_it_once() {
    let mut open: Vec<Vec<String>> = vec![p(&["a"])];
    set_folder_open(&mut open, p(&["a", "b"]), true);
    set_folder_open(&mut open, p(&["a", "b"]), true);
    set_folder_open(&mut open, p(&["a"]), true);
    assert_eq!(open, vec![p(&["a"]), p(&["a", "b"])]);
    assert!(listed(&open, &p(&["a", "b"])));
    assert!(!listed(&open, &p(&["b"])));
}

#[test]
fn closing_a_folder_leaves_the_rest_open() {
    let mut open: Vec<Vec<String>> = vec![p(&["a"]), p(&["a", "b"]), p(&["c"])];
    set_folder_open(&mut open, p(&["a"]), false);
    assert_eq!(open, vec![p(&["a", "b"]), p(&["c"])]);
    set_folder_open(&mut open, p(&["x"]), false);
    assert_eq!(open, vec![p(&["a", "b"]), p(&["c"])]);
    assert!(!listed(&open, &p(&["a"])));
}
