use pair::pattern::{crop_plane, squared_error, TestPattern};

#[test]
fn the_pattern_is_a_gradient_with_a_moving_box() {
    let pattern = TestPattern {
        width: 8,
        height: 4,
    };
    assert_eq!(
        pattern.luma(1),
        vec![
            0, 31, 63, 95, 127, 159, 191, 223, //
            63, 32, 0, 96, 64, 160, 128, 224, //
            127, 96, 64, 235, 0, 224, 192, 160, //
            191, 160, 128, 224, 192, 32, 0, 96,
        ]
    );
    assert_ne!(pattern.luma(1), pattern.luma(2), "the box moves");
    assert_eq!(pattern.luma(0)[0], 235, "and starts at the corner");
}

#[test]
fn an_empty_pattern_has_no_pixels() {
    for (width, height) in [(0, 4), (4, 0), (0, 0)] {
        assert!(TestPattern { width, height }.luma(3).is_empty());
    }
}

#[test]
fn the_error_is_the_sum_of_squares() {
    assert_eq!(squared_error(&[1, 2, 3], &[1, 5, 1]), Some(9 + 4));
    assert_eq!(squared_error(&[0], &[255]), Some(65_025));
    assert_eq!(squared_error(&[7, 7], &[7, 7]), Some(0));
}

#[test]
fn planes_that_differ_in_size_are_not_comparable() {
    assert_eq!(squared_error(&[], &[]), None);
    assert_eq!(squared_error(&[1], &[1, 2]), None);
}

#[test]
fn cropping_drops_the_padding_of_each_row() {
    let plane = [1, 2, 9, 3, 4, 9, 5, 6, 9];
    assert_eq!(crop_plane(&plane, 3, 2, 3), Some(vec![1, 2, 3, 4, 5, 6]));
    assert_eq!(crop_plane(&plane, 3, 3, 1), Some(vec![1, 2, 9]));
    // The last row needs no padding behind it.
    assert_eq!(
        crop_plane(&plane[..8], 3, 2, 3),
        Some(vec![1, 2, 3, 4, 5, 6])
    );
    assert_eq!(crop_plane(&plane, 3, 0, 3), None);
    assert_eq!(crop_plane(&plane, 3, 2, 0), None);
    assert_eq!(crop_plane(&plane, 2, 3, 3), None, "rows too short");
}
