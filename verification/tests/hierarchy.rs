use lib::hierarchy::{Listed, collect_rows};

fn entity(id: u64, parent: Option<u64>, children: &[u64], name: Option<&str>) -> Listed {
    Listed {
        id,
        index: id as u32,
        parent,
        children: children.to_vec(),
        name: name.map(|n| n.to_string()),
    }
}

fn read(es: &Vec<Listed>) -> Vec<(usize, String)> {
    collect_rows(es).into_iter().map(|r| (r.depth, r.name)).collect()
}

#[test]
fn roots_come_in_id_order_each_with_its_subtree() {
    let es = vec![
        entity(7, None, &[3], Some("camera")),
        entity(3, Some(7), &[9, 4], Some("lens")),
        entity(2, None, &[], None),
        entity(4, Some(3), &[], Some("cap")),
        entity(9, Some(3), &[], None),
    ];
    assert_eq!(
        read(&es),
        vec![
            (0, "Entity 2".to_string()),
            (0, "camera".to_string()),
            (1, "lens".to_string()),
            (2, "Entity 9".to_string()),
            (2, "cap".to_string()),
        ]
    );
}

#[test]
fn a_parent_outside_the_scene_makes_a_root() {
    // 5's parent, 100, is no scene entity, and 6's child 200 is none either.
    let es = vec![entity(6, None, &[200], Some("stage")), entity(5, Some(100), &[], Some("prop"))];
    assert_eq!(read(&es), vec![(0, "prop".to_string()), (0, "stage".to_string())]);
}

#[test]
fn an_empty_scene_has_no_rows() {
    assert!(read(&vec![]).is_empty());
}
