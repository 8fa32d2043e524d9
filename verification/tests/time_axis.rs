use lib::time_axis::{label, tick_marks};

/// The label spacing at each of the zoom levels the axis is exercised
/// at, from the coarsest to the finest.
const STEPS: [i64; 6] = [50_000, 5_000, 500, 100, 10, 5];

/// The label spacing at the timeline's default zoom.
const DEFAULT_STEP: i64 = 500;

#[test]
fn neighbours_in_a_row_never_read_alike() {
    for step in STEPS {
        for i in 0..20 {
            let a = label(i * step, step);
            let b = label((i + 1) * step, step);
            assert_ne!(a, b, "step {step}ms repeats {a}");
        }
    }
}

#[test]
fn labels_read_as_expected_at_the_current_scale() {
    let step = DEFAULT_STEP;
    assert_eq!(label(0, step), "0.0");
    assert_eq!(label(500, step), "0.5");
    assert_eq!(label(1_000, step), "1.0");
}

#[test]
fn decimals_follow_the_spacing_not_the_value() {
    assert_eq!(label(2_000, 1_000), "2");
    assert_eq!(label(2_000, 100), "2.0");
    assert_eq!(label(2_000, 10), "2.00");
    assert_eq!(label(2_000, 5), "2.000");
    assert_eq!(label(123_456, 1), "123.456");
}

#[test]
fn a_tie_rounds_to_even() {
    assert_eq!(label(1_500, 1_000), "2");
    assert_eq!(label(2_500, 1_000), "2");
    assert_eq!(label(1_250, 100), "1.2");
    assert_eq!(label(1_251, 100), "1.3");
    assert_eq!(label(1_249, 100), "1.2");
}

#[test]
fn a_negative_time_keeps_its_sign() {
    assert_eq!(label(-1_500, 100), "-1.5");
    assert_eq!(label(-1, 100), "-0.0");
}

#[test]
fn marks_start_at_zero_and_label_every_nth() {
    // 800 ms visible, ticks every 100 ms, labels every 500 ms.
    let marks = tick_marks(0, 800, 100, 500);
    // From zero (the padded start is clamped) to (800 + 500) / 100.
    assert_eq!(marks.len(), 14);
    assert_eq!(marks[0].ms, 0);
    assert_eq!(marks[0].label.as_deref(), Some("0.0"));
    assert_eq!(marks[13].ms, 1_300);
    let labelled: Vec<usize> = marks
        .iter()
        .enumerate()
        .filter(|(_, m)| m.label.is_some())
        .map(|(i, _)| i)
        .collect();
    assert_eq!(labelled, vec![0, 5, 10]);
    assert_eq!(marks[5].label.as_deref(), Some("0.5"));
    assert_eq!(marks[10].label.as_deref(), Some("1.0"));
}

#[test]
fn a_panned_view_pads_before_its_left_edge() {
    // 10 s in, 2 s visible, ticks every second, labels every 5.
    let marks = tick_marks(10_000, 2_000, 1_000, 5_000);
    assert_eq!(marks.first().unwrap().ms, 5_000);
    assert_eq!(marks.last().unwrap().ms, 17_000);
    assert_eq!(marks.len(), 13);
    assert_eq!(marks[0].label.as_deref(), Some("5"));
    assert_eq!(marks[5].label.as_deref(), Some("10"));
    assert_eq!(marks[1].label, None);
}

#[test]
fn a_view_before_the_start_has_no_marks() {
    let marks = tick_marks(-10_000, 1_000, 100, 500);
    assert!(marks.is_empty());
}

/// Per zoom level: tick spacing, label spacing, and how many
/// milliseconds an 800 px view shows, as the axis works them out at
/// 1, 20, 160, 640, 5000 and 20000 px per second.
const ZOOMS: [(i64, i64, i64); 6] = [
    (10_000, 50_000, 800_000),
    (500, 5_000, 40_000),
    (100, 500, 5_000),
    (50, 100, 1_250),
    (5, 10, 160),
    (1, 5, 40),
];

#[test]
fn tick_marks_span_each_zoom_and_label_every_nth() {
    for (minor, major, visible) in ZOOMS {
        let marks = tick_marks(0, visible, minor, major);
        assert!(!marks.is_empty(), "no marks at {major}");
        // Zero is always the first mark, and always labelled.
        assert_eq!(marks[0].ms, 0);
        assert!(marks[0].label.is_some());
        assert!(marks.last().unwrap().ms >= visible, "stops short at {major}");
        let labelled: Vec<usize> =
            marks.iter().enumerate().filter(|(_, m)| m.label.is_some()).map(|(i, _)| i).collect();
        assert!(labelled.len() >= 2);
        let stride = labelled[1];
        for pair in labelled.windows(2) {
            assert_eq!(pair[1] - pair[0], stride);
        }
    }
}

#[test]
fn tick_marks_cover_a_panned_view() {
    for (minor, major, visible) in ZOOMS {
        // Two screens in.
        let offset = 2 * visible;
        let marks = tick_marks(offset, visible, minor, major);
        assert!(!marks.is_empty());
        assert!(marks.first().unwrap().ms <= offset);
        assert!(marks.last().unwrap().ms >= offset + visible);
    }
}

#[test]
fn labels_read_the_seconds_as_an_f32() {
    // 0.35 and 1.15 as `f32` lie just below the half, 0.15 just above.
    assert_eq!(label(350, 500), "0.3");
    assert_eq!(label(1_150, 100), "1.1");
    assert_eq!(label(150, 100), "0.2");
    assert_eq!(label(125, 10), "0.12");
    assert_eq!(label(15, 1), "0.015");
}

#[test]
fn far_out_labels_follow_the_f32_steps() {
    // Past 2^24 ms the `f32` no longer tells each millisecond apart.
    assert_eq!(label(16_777_216, 1), "16777.217");
    assert_eq!(label(16_777_217, 1), "16777.217");
    assert_eq!(label(8_388_606, 1), "8388.606");
    assert_eq!(label(8_388_607, 1), "8388.607");
    assert_eq!(label(i64::MAX, 1_000), "9223372474941440");
    assert_eq!(label(i64::MIN, 1), "-9223372474941440.000");
}
