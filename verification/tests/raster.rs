use term3d::sorting::sort_ascending;
use term3d::utils::{edges_of, intersections, row_range};

#[test]
fn crossing_is_interpolated_with_truncation() {
    // x = x_low + (y - y_low) * (x_high - x_low) / (y_high - y_low), rounded toward zero
    let edges = vec![((10, 0), (0, 3))];
    assert_eq!(intersections(0, &edges), vec![10]);
    assert_eq!(intersections(1, &edges), vec![7]);
    assert_eq!(intersections(2, &edges), vec![4]);
}

#[test]
fn crossing_truncates_positive_offsets_downward() {
    let edges = vec![((0, 0), (10, 3))];
    assert_eq!(intersections(1, &edges), vec![3]);
    assert_eq!(intersections(2, &edges), vec![6]);
}

#[test]
fn endpoints_are_put_in_order_of_their_rows() {
    let up = vec![((2, 1), (8, 5))];
    let down = vec![((8, 5), (2, 1))];
    for y in 0..7 {
        assert_eq!(intersections(y, &up), intersections(y, &down));
    }
    assert_eq!(intersections(3, &up), vec![5]);
}

#[test]
fn upper_endpoint_is_excluded() {
    let edges = vec![((10, 0), (0, 3))];
    assert_eq!(intersections(3, &edges), Vec::<i32>::new());
    assert_eq!(intersections(-1, &edges), Vec::<i32>::new());
    assert_eq!(intersections(4, &edges), Vec::<i32>::new());
}

#[test]
fn shared_vertex_is_counted_once() {
    // two edges that meet in (5, 2): row 2 belongs to the upper one only
    let edges = vec![((0, 0), (5, 2)), ((5, 2), (0, 4))];
    assert_eq!(intersections(2, &edges), vec![5]);
}

#[test]
fn horizontal_edges_contribute_nothing() {
    let edges = vec![((0, 2), (9, 2))];
    assert_eq!(intersections(2, &edges), Vec::<i32>::new());
    let with = vec![((0, 0), (0, 4)), ((0, 2), (9, 2)), ((9, 4), (9, 0))];
    let without = vec![((0, 0), (0, 4)), ((9, 4), (9, 0))];
    for y in -1..6 {
        assert_eq!(intersections(y, &with), intersections(y, &without));
    }
    assert_eq!(intersections(2, &with), vec![0, 9]);
}

#[test]
fn crossings_come_in_the_order_of_the_edges() {
    let edges = vec![((9, 0), (9, 4)), ((1, 4), (1, 0)), ((5, 0), (5, 9))];
    assert_eq!(intersections(1, &edges), vec![9, 1, 5]);
}

#[test]
fn crossing_of_extreme_coordinates_does_not_overflow() {
    let edges = vec![((i32::MIN, i32::MIN), (i32::MAX, i32::MAX))];
    assert_eq!(intersections(0, &edges), vec![0]);
    assert_eq!(intersections(i32::MIN, &edges), vec![i32::MIN]);
    assert_eq!(intersections(i32::MAX - 1, &edges), vec![i32::MAX - 1]);
    let steep = vec![((i32::MAX, i32::MIN), (i32::MIN, i32::MAX))];
    assert_eq!(intersections(-1, &steep), vec![0]);
    assert_eq!(intersections(i32::MAX - 1, &steep), vec![i32::MIN + 1]);
}

#[test]
fn no_edges_no_crossings() {
    assert_eq!(intersections(0, &Vec::new()), Vec::<i32>::new());
}

#[test]
fn loop_is_closed_from_last_vertex_to_first() {
    let points = vec![(0, 0), (4, 0), (4, 3)];
    assert_eq!(
        edges_of(&points),
        vec![((0, 0), (4, 0)), ((4, 0), (4, 3)), ((4, 3), (0, 0))]
    );
    assert_eq!(edges_of(&vec![(7, 7)]), vec![((7, 7), (7, 7))]);
    assert_eq!(edges_of(&Vec::new()), Vec::new());
}

#[test]
fn row_range_is_smallest_and_largest_row() {
    assert_eq!(row_range(&vec![(0, 3), (4, -2), (4, 9), (1, 0)]), (-2, 9));
    assert_eq!(row_range(&vec![(5, 5)]), (5, 5));
}

#[test]
fn sort_is_ascending_and_keeps_every_element() {
    assert_eq!(sort_ascending(&vec![9, 1, 5, 1, -3]), vec![-3, 1, 1, 5, 9]);
    assert_eq!(sort_ascending(&Vec::new()), Vec::<i32>::new());
    assert_eq!(sort_ascending(&vec![i32::MAX, i32::MIN]), vec![i32::MIN, i32::MAX]);
}
