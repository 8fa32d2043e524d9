use lib::pattern::hatch;

#[test]
fn the_hatch_is_white_with_diagonal_stripes() {
    let data = hatch();
    assert_eq!(data.len(), 8 * 8 * 4);
    for y in 0..8usize {
        for x in 0..8usize {
            let at = (y * 8 + x) * 4;
            assert_eq!(&data[at..at + 3], &[255, 255, 255]);
            let on = (x + y) % 4 < 2;
            assert_eq!(data[at + 3], if on { 255 } else { 0 });
        }
    }
    assert_eq!(data[3], 255);
    assert_eq!(data[2 * 4 + 3], 0);
}
