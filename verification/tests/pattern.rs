use wfc::{Direction, Pattern};

fn grid_3x3() -> Pattern {
    Pattern { samples: vec![1, 2, 3, 4, 5, 6, 7, 8, 9], height: 3, width: 3 }
}

#[test]
fn reverses_each_row() {
    let test_pattern = grid_3x3();
    let result = test_pattern.rowwise_mirror();

    assert_eq!(result.height, test_pattern.height);
    assert_eq!(result.width, test_pattern.width);
    assert_eq!(result.samples, vec![3, 2, 1, 6, 5, 4, 9, 8, 7]);
}

#[test]
fn can_rotate_in_90_deg_increments() {
    let test_pattern = grid_3x3();

    let result_90 = test_pattern.rotate_quarter_turns(1);
    assert_eq!(result_90.samples, vec![7, 4, 1, 8, 5, 2, 9, 6, 3]);

    let result_180 = test_pattern.rotate_quarter_turns(2);
    assert_eq!(result_180.samples, vec![9, 8, 7, 6, 5, 4, 3, 2, 1]);

    let result_270 = test_pattern.rotate_quarter_turns(3);
    assert_eq!(result_270.samples, vec![3, 6, 9, 2, 5, 8, 1, 4, 7]);

    let result_360 = test_pattern.rotate_quarter_turns(0);
    assert_eq!(result_360.samples, test_pattern.samples);
}

#[test]
fn mirroring_twice_gives_the_pattern_back() {
    let test_pattern = Pattern { samples: vec![1, 2, 3, 4, 5, 6], height: 2, width: 3 };

    assert_eq!(test_pattern.rowwise_mirror().rowwise_mirror(), test_pattern);
}

#[test]
fn quarter_turns_compose() {
    let test_pattern = grid_3x3();
    let once = test_pattern.rotate_quarter_turns(1);

    assert_eq!(once.rotate_quarter_turns(1), test_pattern.rotate_quarter_turns(2));
    assert_eq!(once.rotate_quarter_turns(3), test_pattern);
}

#[test]
fn sample_reads_row_major() {
    let test_pattern = Pattern { samples: vec![1, 2, 3, 4, 5, 6], height: 2, width: 3 };

    assert_eq!(test_pattern.sample(0, 0), 1);
    assert_eq!(test_pattern.sample(2, 0), 3);
    assert_eq!(test_pattern.sample(1, 1), 5);
}

#[test]
fn compatibility_checks_the_overlap_in_each_direction() {
    // The rows of `lower` are the rows of `upper` shifted up by one.
    let upper = Pattern { samples: vec![1, 2, 3, 4], height: 2, width: 2 };
    let lower = Pattern { samples: vec![3, 4, 5, 6], height: 2, width: 2 };

    assert!(lower.compatible(&upper, &Direction::Up));
    assert!(upper.compatible(&lower, &Direction::Down));
    assert!(!upper.compatible(&lower, &Direction::Up));
    assert!(!lower.compatible(&upper, &Direction::Down));

    // The columns of `right` are the columns of `left` shifted left by one.
    let left = Pattern { samples: vec![1, 2, 3, 4], height: 2, width: 2 };
    let right = Pattern { samples: vec![2, 7, 4, 8], height: 2, width: 2 };

    assert!(left.compatible(&right, &Direction::Right));
    assert!(right.compatible(&left, &Direction::Left));
    assert!(!left.compatible(&right, &Direction::Left));
}

#[test]
fn a_single_row_pattern_accepts_any_vertical_neighbour() {
    let a = Pattern { samples: vec![1, 2], height: 1, width: 2 };
    let b = Pattern { samples: vec![7, 8], height: 1, width: 2 };

    assert!(a.compatible(&b, &Direction::Up));
    assert!(a.compatible(&b, &Direction::Down));
    assert!(!a.compatible(&b, &Direction::Right));
}
