use wfc::Dimensions;

#[test]
fn rejects_a_zero_length_axis() {
    assert!(Dimensions::new([0, 3]).is_none());
    assert!(Dimensions::new([3, 0]).is_none());
    assert!(Dimensions::new([3, 3, 0]).is_none());
}

#[test]
fn accepts_every_axis_non_zero() {
    assert!(Dimensions::new([3, 3]).is_some());
}

#[test]
fn multiplies_every_axis() {
    assert_eq!(Dimensions::new([4, 3]).unwrap().total(), 12);
    assert_eq!(Dimensions::new([4, 3, 2]).unwrap().total(), 24);
}

#[test]
fn widens_before_multiplying() {
    let dimensions = Dimensions::new([100_000, 100_000, 100_000]).unwrap();

    assert_eq!(dimensions.total(), 1_000_000_000_000_000);
}

#[test]
fn counts_positions_along_every_axis() {
    let dimensions = Dimensions::new([8, 5]).unwrap();

    let windows = dimensions.windows(Dimensions::new([3, 2]).unwrap()).unwrap();

    assert_eq!(windows, Dimensions::new([6, 4]).unwrap());
}

#[test]
fn accepts_a_pattern_that_fills_the_space() {
    let dimensions = Dimensions::new([3, 3]).unwrap();

    let windows = dimensions.windows(dimensions).unwrap();

    assert_eq!(windows, Dimensions::new([1, 1]).unwrap());
}

#[test]
fn rejects_a_pattern_longer_on_any_single_axis() {
    let dimensions = Dimensions::new([8, 8]).unwrap();

    assert!(dimensions.windows(Dimensions::new([9, 3]).unwrap()).is_none());
    assert!(dimensions.windows(Dimensions::new([3, 9]).unwrap()).is_none());
}

#[test]
fn rejects_a_pattern_one_longer_than_the_space() {
    let dimensions = Dimensions::new([3, 3]).unwrap();

    assert!(dimensions.windows(Dimensions::new([4, 4]).unwrap()).is_none());
}

#[test]
fn counts_positions_in_three_dimensions() {
    let dimensions = Dimensions::new([4, 3, 2]).unwrap();

    let windows = dimensions.windows(Dimensions::new([2, 2, 2]).unwrap()).unwrap();

    assert_eq!(windows, Dimensions::new([3, 2, 1]).unwrap());
}

#[test]
fn handles_minimum_index_correctly() {
    let dimensions = Dimensions::new([100, 100, 100]).unwrap();

    assert_eq!(dimensions.coord_of(0), [0, 0, 0]);
}

#[test]
fn converts_an_index_to_dimension_space_coordinate_correctly() {
    let dimensions = Dimensions::new([100, 100, 100]).unwrap();

    assert_eq!(dimensions.coord_of(101), [1, 1, 0]);
}

#[test]
fn axis_zero_varies_fastest() {
    let dimensions = Dimensions::new([3, 2]).unwrap();

    assert_eq!(dimensions.coord_of(0), [0, 0]);
    assert_eq!(dimensions.coord_of(1), [1, 0]);
    assert_eq!(dimensions.coord_of(2), [2, 0]);
    assert_eq!(dimensions.coord_of(3), [0, 1]);
    assert_eq!(dimensions.coord_of(4), [1, 1]);
    assert_eq!(dimensions.coord_of(5), [2, 1]);
}

#[test]
fn handles_maximum_index_correctly() {
    let dimensions = Dimensions::new([4, 3, 2]).unwrap();

    assert_eq!(dimensions.coord_of(dimensions.total() - 1), [3, 2, 1]);
}

#[test]
fn handles_a_single_cell_extent() {
    let dimensions = Dimensions::new([1, 1, 1]).unwrap();

    assert_eq!(dimensions.coord_of(0), [0, 0, 0]);
}

#[test]
fn dimensions_handles_length_one_axes() {
    let dimensions = Dimensions::new([4, 1, 3]).unwrap();

    assert_eq!(dimensions.coord_of(0), [0, 0, 0]);
    assert_eq!(dimensions.coord_of(5), [1, 0, 1]);
    assert_eq!(dimensions.coord_of(11), [3, 0, 2]);

    assert_eq!(dimensions.index_of([0, 0, 0]), 0);
    assert_eq!(dimensions.index_of([1, 0, 1]), 5);
    assert_eq!(dimensions.index_of([3, 0, 2]), 11);
}

#[test]
fn handles_one_axis() {
    let dimensions = Dimensions::new([5]).unwrap();

    assert_eq!(dimensions.coord_of(0), [0]);
    assert_eq!(dimensions.coord_of(3), [3]);
}

#[test]
fn matches_the_row_major_formula() {
    let dimensions = Dimensions::new([5, 3]).unwrap();

    for y in 0..3 {
        for x in 0..5 {
            assert_eq!(dimensions.index_of([x, y]), (x + y * 5) as usize);
        }
    }
}

#[test]
fn inverts_coord_of_at_every_index() {
    let dimensions = Dimensions::new([4, 3, 2]).unwrap();

    for index in 0..dimensions.total() {
        assert_eq!(dimensions.index_of(dimensions.coord_of(index)), index);
    }
}

#[test]
fn accepts_the_last_valid_coordinate() {
    let dimensions = Dimensions::new([3, 2]).unwrap();

    assert_eq!(dimensions.index_of([2, 1]), 5);
}

#[test]
fn get_reads_each_axis_length() {
    let dimensions = Dimensions::new([7, 2, 9]).unwrap();

    assert_eq!(dimensions.get(0), 7);
    assert_eq!(dimensions.get(1), 2);
    assert_eq!(dimensions.get(2), 9);
}

#[test]
fn coord_of_inverts_index_of_at_every_coordinate() {
    let dimensions = Dimensions::new([3, 4]).unwrap();

    for y in 0..4 {
        for x in 0..3 {
            assert_eq!(dimensions.coord_of(dimensions.index_of([x, y])), [x, y]);
        }
    }
}
