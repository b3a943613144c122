use term3d::draw::Screen;
use term3d::utils::{edges_of, intersections};

fn painted(screen: &Screen) -> Vec<(usize, usize)> {
    let mut out = Vec::new();
    for y in 0..screen.height() {
        for x in 0..screen.width() {
            if screen.pixel(x, y) != Some((0, 0, 0)) {
                out.push((x, y));
            }
        }
    }
    out
}

fn turn(a: (i32, i32), b: (i32, i32), p: (i32, i32)) -> i64 {
    (b.0 - a.0) as i64 * (p.1 - a.1) as i64 - (b.1 - a.1) as i64 * (p.0 - a.0) as i64
}

#[test]
fn new_screen_has_two_rows_per_terminal_row() {
    let screen = Screen::new(8, 3);
    assert_eq!(screen.width(), 8);
    assert_eq!(screen.height(), 6);
    assert_eq!(painted(&screen), Vec::new());
    assert_eq!(screen.pixel(7, 5), Some((0, 0, 0)));
    assert_eq!(screen.pixel(8, 5), None);
    assert_eq!(screen.pixel(7, 6), None);
}

#[test]
fn empty_terminal_gives_empty_grid() {
    let mut screen = Screen::new(0, 0);
    assert_eq!(screen.width(), 0);
    assert_eq!(screen.height(), 0);
    screen.polygon(vec![(0, 0), (4, 0), (4, 4)], (1, 1, 1));
    screen.clear();
    assert_eq!(screen.height(), 0);
    assert_eq!(screen.write(), Vec::<u8>::new());
    let mut flat = Screen::new(5, 0);
    flat.clear();
    assert_eq!(flat.width(), 5);
    assert_eq!(flat.height(), 0);
}

#[test]
fn square_is_filled_up_to_its_last_row() {
    let mut screen = Screen::new(8, 3);
    screen.polygon(vec![(1, 1), (4, 1), (4, 4), (1, 4)], (9, 8, 7));
    let mut expected = Vec::new();
    for y in 1..4 {
        for x in 1..5 {
            expected.push((x, y));
        }
    }
    assert_eq!(painted(&screen), expected);
    assert_eq!(screen.pixel(1, 1), Some((9, 8, 7)));
    assert_eq!(screen.pixel(4, 3), Some((9, 8, 7)));
    assert_eq!(screen.pixel(4, 4), Some((0, 0, 0)));
}

#[test]
fn triangle_rows_follow_the_truncated_crossings() {
    let mut screen = Screen::new(12, 2);
    screen.polygon(vec![(0, 0), (10, 0), (0, 3)], (1, 2, 3));
    let mut expected = Vec::new();
    for x in 0..=10 {
        expected.push((x, 0));
    }
    for x in 0..=7 {
        expected.push((x, 1));
    }
    for x in 0..=4 {
        expected.push((x, 2));
    }
    assert_eq!(painted(&screen), expected);
}

#[test]
fn horizontal_top_edge_fills_its_row_once() {
    // the top edge lies in row 2; the row is delimited by the two slanted edges alone
    let mut screen = Screen::new(12, 4);
    let points = vec![(2, 2), (9, 2), (5, 6)];
    assert_eq!(intersections(2, &edges_of(&points)), vec![9, 2]);
    screen.polygon(points, (5, 5, 5));
    let row: Vec<usize> = (0..12).filter(|&x| screen.pixel(x, 2) == Some((5, 5, 5))).collect();
    assert_eq!(row, vec![2, 3, 4, 5, 6, 7, 8, 9]);
    assert_eq!(screen.pixel(5, 5), Some((5, 5, 5)));
    assert_eq!(screen.pixel(5, 6), Some((0, 0, 0)));
}

#[test]
fn pixels_outside_the_grid_are_dropped() {
    let mut screen = Screen::new(4, 2);
    screen.polygon(vec![(-5, -5), (20, -5), (20, 20), (-5, 20)], (3, 3, 3));
    assert_eq!(painted(&screen).len(), 16);
    let mut other = Screen::new(4, 2);
    other.polygon(vec![(10, 0), (12, 0), (12, 3), (10, 3)], (3, 3, 3));
    other.polygon(vec![(0, -9), (3, -9), (3, -1), (0, -1)], (3, 3, 3));
    other.polygon(vec![(0, 4), (3, 4), (3, 9), (0, 9)], (3, 3, 3));
    other.polygon(vec![(-9, 0), (-1, 0), (-1, 3), (-9, 3)], (3, 3, 3));
    assert_eq!(painted(&other), Vec::new());
}

#[test]
fn far_away_vertices_are_clipped_without_overflow() {
    let mut screen = Screen::new(3, 1);
    screen.polygon(
        vec![(i32::MIN, i32::MIN), (i32::MAX, i32::MIN), (i32::MAX, i32::MAX), (i32::MIN, i32::MAX)],
        (8, 8, 8),
    );
    assert_eq!(painted(&screen).len(), 6);
}

#[test]
fn unpaired_last_crossing_is_dropped() {
    let mut screen = Screen::new(10, 2);
    screen.fill_row(1, &vec![2, 4, 7], (1, 1, 1));
    assert_eq!(painted(&screen), vec![(2, 1), (3, 1), (4, 1)]);
    screen.fill_row(2, &vec![5], (1, 1, 1));
    screen.fill_row(3, &Vec::new(), (1, 1, 1));
    assert_eq!(painted(&screen), vec![(2, 1), (3, 1), (4, 1)]);
}

#[test]
fn crossings_delimit_spans_two_at_a_time() {
    let mut screen = Screen::new(10, 1);
    screen.fill_row(0, &vec![1, 2, 5, 5, 8, 20], (1, 1, 1));
    assert_eq!(painted(&screen), vec![(1, 0), (2, 0), (5, 0), (8, 0), (9, 0)]);
    // a pair that is not in ascending order delimits nothing
    screen.fill_row(1, &vec![6, 3], (1, 1, 1));
    screen.fill_row(1, &vec![-9, -2], (1, 1, 1));
    assert_eq!(painted(&screen).len(), 5);
    screen.fill_row(1, &vec![-3, 0], (1, 1, 1));
    assert_eq!(screen.pixel(0, 1), Some((1, 1, 1)));
    assert_eq!(screen.pixel(1, 1), Some((0, 0, 0)));
}

#[test]
fn a_loop_of_two_vertices_is_a_line() {
    let mut single = Screen::new(10, 2);
    single.polygon(vec![(3, 0), (3, 2)], (1, 1, 1));
    assert_eq!(painted(&single), vec![(3, 0), (3, 1)]);
}

#[test]
fn degenerate_loops_paint_little_or_nothing() {
    let mut screen = Screen::new(6, 2);
    screen.polygon(Vec::new(), (1, 1, 1));
    screen.polygon(vec![(2, 2)], (1, 1, 1));
    screen.polygon(vec![(0, 1), (5, 1)], (1, 1, 1));
    assert_eq!(painted(&screen), Vec::new());
    screen.polygon(vec![(1, 0), (4, 3)], (1, 1, 1));
    assert_eq!(painted(&screen), vec![(1, 0), (2, 1), (3, 2)]);
}

#[test]
fn later_polygon_overdraws_earlier_one() {
    let mut screen = Screen::new(6, 2);
    screen.polygon(vec![(0, 0), (3, 0), (3, 3), (0, 3)], (10, 10, 10));
    screen.polygon(vec![(2, 1), (5, 1), (5, 3), (2, 3)], (20, 20, 20));
    assert_eq!(screen.pixel(1, 1), Some((10, 10, 10)));
    assert_eq!(screen.pixel(2, 1), Some((20, 20, 20)));
    assert_eq!(screen.pixel(3, 2), Some((20, 20, 20)));
    assert_eq!(screen.pixel(3, 0), Some((10, 10, 10)));
    assert_eq!(screen.pixel(5, 2), Some((20, 20, 20)));
    assert_eq!(screen.pixel(5, 3), Some((0, 0, 0)));
}

#[test]
fn clear_blackens_every_pixel_and_keeps_the_size() {
    let mut screen = Screen::new(7, 2);
    screen.polygon(vec![(0, 0), (6, 0), (6, 4), (0, 4)], (200, 100, 50));
    assert!(!painted(&screen).is_empty());
    screen.clear();
    assert_eq!(screen.width(), 7);
    assert_eq!(screen.height(), 4);
    for y in 0..4 {
        for x in 0..7 {
            assert_eq!(screen.pixel(x, y), Some((0, 0, 0)));
        }
    }
    screen.polyhedron(Vec::new(), (255, 255, 255), false);
    assert_eq!(painted(&screen), Vec::new());
}

#[test]
fn convex_polygon_interior_is_filled_and_exterior_is_not() {
    // both directions of the loop
    let hexagon = vec![(2, 0), (7, 1), (9, 4), (6, 7), (3, 6), (0, 3)];
    let mut reversed = hexagon.clone();
    reversed.reverse();
    for points in [hexagon, reversed] {
        let n = points.len();
        let mut screen = Screen::new(12, 5);
        screen.polygon(points.clone(), (1, 1, 1));
        let edges = edges_of(&points);
        let mut inside_count = 0;
        for y in 0..10i32 {
            let crossings = intersections(y, &edges);
            for x in 0..12i32 {
                let sides: Vec<i64> =
                    (0..n).map(|i| turn(points[i], points[(i + 1) % n], (x, y))).collect();
                let inside = sides.iter().all(|&s| s > 0) || sides.iter().all(|&s| s < 0);
                let positive = turn(points[0], points[1], points[2]) > 0;
                let outside = sides.iter().any(|&s| if positive { s < 0 } else { s > 0 });
                let filled = screen.pixel(x as usize, y as usize) == Some((1, 1, 1));
                if inside {
                    inside_count += 1;
                    assert!(filled, "({x}, {y}) lies inside");
                }
                if outside && !crossings.contains(&x) {
                    assert!(!filled, "({x}, {y}) lies outside");
                }
            }
        }
        assert!(inside_count > 20);
    }
}

#[test]
fn rounding_may_paint_one_column_outside_an_edge() {
    // the edge from (10, 0) to (0, 3) meets row 1 at 6 2/3; the fill takes column 7
    let mut screen = Screen::new(12, 2);
    let points = vec![(0, 0), (10, 0), (0, 3)];
    assert!(turn(points[1], points[2], (7, 1)) < 0);
    assert!(turn(points[0], points[1], points[2]) > 0);
    screen.polygon(points, (1, 1, 1));
    assert_eq!(screen.pixel(7, 1), Some((1, 1, 1)));
    assert_eq!(screen.pixel(8, 1), Some((0, 0, 0)));
}
