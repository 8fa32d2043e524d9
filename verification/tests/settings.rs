use lib::settings::EditorSettings;

#[test]
fn the_preview_starts_in_portrait() {
    let s = EditorSettings::default();
    assert!(!s.hdr);
    assert_eq!(s.physical_size, (1080, 1920));
    let (w, h) = s.physical_size;
    assert_eq!(w * 16, h * 9);
}
