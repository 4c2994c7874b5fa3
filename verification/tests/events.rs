use atomic_universe::{hue_channels, redraw_due, IDLE_REDRAW_MILLIS, PHYSICS_SUB_STEPS};

#[test]
fn hue_sectors_arrange_the_channels() {
    assert_eq!(hue_channels(0, 'c', 'x', '0'), ('c', 'x', '0'));
    assert_eq!(hue_channels(1, 'c', 'x', '0'), ('x', 'c', '0'));
    assert_eq!(hue_channels(2, 'c', 'x', '0'), ('0', 'c', 'x'));
    assert_eq!(hue_channels(3, 'c', 'x', '0'), ('0', 'x', 'c'));
    assert_eq!(hue_channels(4, 'c', 'x', '0'), ('x', '0', 'c'));
    assert_eq!(hue_channels(5, 'c', 'x', '0'), ('c', '0', 'x'));
}

#[test]
fn hue_sectors_out_of_range_fall_to_the_last() {
    assert_eq!(hue_channels(6, 1.0f32, 0.5, 0.0), (1.0, 0.0, 0.5));
    assert_eq!(hue_channels(-1, 1u8, 2, 3), (1, 3, 2));
    assert_eq!(hue_channels(i32::MAX, 1u8, 2, 3), (1, 3, 2));
}

#[test]
fn each_sector_uses_every_value_once() {
    for s in 0..6 {
        let (r, g, b) = hue_channels(s, 1u8, 2, 4);
        assert_eq!(r | g | b, 7);
    }
}

#[test]
fn redraw_is_due_after_eight_seconds() {
    assert!(!redraw_due(0));
    assert!(!redraw_due(7999));
    assert!(redraw_due(8000));
    assert!(redraw_due(8001));
    assert!(redraw_due(u128::MAX));
    assert_eq!(IDLE_REDRAW_MILLIS, 8000);
}

#[test]
fn twenty_physics_steps_per_frame() {
    assert_eq!(PHYSICS_SUB_STEPS, 20);
}
