use bevy_cells::cells::coords::{
    calculate_cell_coordinate, calculate_cell_index, calculate_chunk_coordinate,
    calculate_chunk_relative_cell_coordinate, max_cell_index, CoordIterator,
};

fn ordered(a: isize, b: isize) -> std::ops::RangeInclusive<isize> {
    if a < b {
        a..=b
    } else {
        b..=a
    }
}

fn check_coord_iter(corner_1: [isize; 3], corner_2: [isize; 3]) {
    let mut iter = CoordIterator::new(corner_1, corner_2);
    for z in ordered(corner_1[2], corner_2[2]) {
        for y in ordered(corner_1[1], corner_2[1]) {
            for x in ordered(corner_1[0], corner_2[0]) {
                assert_eq!(Some([x, y, z]), iter.next());
            }
        }
    }
    assert_eq!(None, iter.next());
    assert_eq!(None, iter.next());
}

#[test]
fn coord_iter_from_low_to_high() {
    check_coord_iter([0, 0, 0], [3, 3, 3]);
}

#[test]
fn coord_iter_from_high_to_low() {
    check_coord_iter([3, 3, 3], [0, 0, 0]);
}

#[test]
fn coord_iter_with_mixed_corners() {
    check_coord_iter([0, 3, 0], [3, 0, 3]);
    check_coord_iter([0, 3, 0], [3, 3, 3]);
    check_coord_iter([0, 3, 0], [0, 0, 3]);
}

#[test]
fn coord_iter_over_a_single_point() {
    check_coord_iter([3, 3, 3], [3, 3, 3]);
}

#[test]
fn cell_index_of_positive_cells() {
    assert_eq!(calculate_cell_index([15, 0], 16), 15);
    assert_eq!(calculate_cell_index([0, 15], 16), 240);
    assert_eq!(calculate_cell_index([15, 15], 16), 255);
}

#[test]
fn cell_index_of_negative_cells() {
    assert_eq!(calculate_cell_index([-1, -1], 16), 255);
    assert_eq!(calculate_cell_index([-16, -16], 16), 0);
}

#[test]
fn chunk_coordinate_floors_toward_negative_infinity() {
    assert_eq!(calculate_chunk_coordinate([-1, -1], 16), [-1, -1]);
    assert_eq!(calculate_chunk_coordinate([-16, -17], 16), [-1, -2]);
    assert_eq!(calculate_chunk_coordinate([0, 15], 16), [0, 0]);
    assert_eq!(calculate_chunk_coordinate([16, 31], 16), [1, 1]);
}

#[test]
fn relative_coordinate_is_never_negative() {
    assert_eq!(calculate_chunk_relative_cell_coordinate([-1, -16], 16), [15, 0]);
    assert_eq!(calculate_chunk_relative_cell_coordinate([17, 5], 16), [1, 5]);
}

#[test]
fn cell_coordinate_inverts_chunk_and_index() {
    for x in -40..40isize {
        for y in -40..40isize {
            for z in [-9isize, 0, 7] {
                let cell = [x, y, z];
                let chunk = calculate_chunk_coordinate(cell, 5);
                let index = calculate_cell_index(cell, 5);
                assert_eq!(calculate_cell_coordinate(chunk, index, 5), cell);
            }
        }
    }
}

#[test]
fn cell_coordinate_decodes_every_digit() {
    assert_eq!(calculate_cell_coordinate([0, 0, 0], 1 + 2 * 4 + 3 * 16, 4), [1, 2, 3]);
    assert_eq!(calculate_cell_coordinate([-1, 2, 0], 7, 4), [-1, 9, 0]);
}

#[test]
fn max_cell_index_is_the_last_slot() {
    assert_eq!(max_cell_index::<2>(16), 255);
    assert_eq!(max_cell_index::<3>(4), 63);
    assert_eq!(max_cell_index::<1>(1), 0);
}

#[test]
fn coord_iter_in_one_dimension() {
    let mut iter = CoordIterator::new([2], [-1]);
    for x in -1..=2 {
        assert_eq!(iter.next(), Some([x]));
    }
    assert_eq!(iter.next(), None);
}

#[test]
fn coord_iter_counts_the_product_of_the_extents() {
    let mut iter = CoordIterator::new([3, -2, 0, 5], [1, 2, 0, 6]);
    let mut seen: Vec<[isize; 4]> = Vec::new();
    while let Some(point) = iter.next() {
        assert!(!seen.contains(&point));
        seen.push(point);
    }
    assert_eq!(seen.len(), 3 * 5 * 1 * 2);
    assert_eq!(seen[0], [1, -2, 0, 5]);
    assert_eq!(seen[1], [2, -2, 0, 5]);
    assert_eq!(seen[3], [1, -1, 0, 5]);
    assert_eq!(seen[29], [3, 2, 0, 6]);
}

#[test]
fn coordinates_near_the_limits_of_the_machine() {
    assert_eq!(calculate_chunk_coordinate([isize::MIN, isize::MAX], 3), [isize::MIN / 3 - 1, isize::MAX / 3]);
    assert_eq!(calculate_chunk_relative_cell_coordinate([isize::MIN, isize::MAX], 16), [0, 15]);
    let cell = [isize::MIN + 1, isize::MAX];
    let chunk = calculate_chunk_coordinate(cell, 3);
    let index = calculate_cell_index(cell, 3);
    assert_eq!(calculate_cell_coordinate(chunk, index, 3), cell);
}

#[test]
fn coord_iter_is_done_after_the_last_point() {
    let mut iter = CoordIterator::new([0, 0], [1, 0]);
    assert!(!iter.is_done());
    assert_eq!(iter.next(), Some([0, 0]));
    assert!(!iter.is_done());
    assert_eq!(iter.next(), Some([1, 0]));
    assert!(iter.is_done());
    assert_eq!(iter.next(), None);
    assert!(iter.is_done());
}
