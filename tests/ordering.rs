use fourier_epicycles::grid::BinaryGrid;
use fourier_epicycles::path::{foreground_points, nearest_index, sort_points, trace_skeleton, Point};
use fourier_epicycles::spectrum::PipelineError;

fn p(x: u32, y: u32) -> Point {
    Point { x, y }
}

#[test]
fn empty_input_orders_to_empty() {
    assert_eq!(sort_points(Vec::new()), Vec::new());
}

#[test]
fn single_point_orders_to_itself() {
    assert_eq!(sort_points(vec![p(3, 4)]), vec![p(3, 4)]);
}

#[test]
fn greedy_walk_follows_nearest_points() {
    let input = vec![p(0, 0), p(10, 0), p(1, 0), p(5, 0), p(2, 0)];
    let out = sort_points(input);
    assert_eq!(out, vec![p(0, 0), p(1, 0), p(2, 0), p(5, 0), p(10, 0)]);
}

#[test]
fn ties_go_to_the_earliest_point() {
    let input = vec![p(5, 5), p(6, 5), p(4, 5), p(5, 6)];
    assert_eq!(nearest_index(p(5, 5), &vec![p(6, 5), p(4, 5), p(5, 6)]), 0);
    let out = sort_points(input);
    assert_eq!(out, vec![p(5, 5), p(6, 5), p(5, 6), p(4, 5)]);
}

#[test]
fn ordering_is_a_permutation() {
    let input = vec![p(9, 1), p(0, 0), p(3, 3), p(9, 1), p(7, 2), p(1, 8)];
    let out = sort_points(input.clone());
    assert_eq!(out.len(), input.len());
    let mut a = input.clone();
    let mut b = out.clone();
    a.sort_by_key(|q| (q.x, q.y));
    b.sort_by_key(|q| (q.x, q.y));
    assert_eq!(a, b);
    assert_eq!(out[0], input[0]);
}

#[test]
fn ordering_is_deterministic() {
    let input = vec![p(4, 4), p(0, 0), p(8, 8), p(4, 0), p(0, 4), p(2, 2)];
    assert_eq!(sort_points(input.clone()), sort_points(input));
}

#[test]
fn far_coordinates_do_not_overflow() {
    let input = vec![p(0, 0), p(u32::MAX, u32::MAX), p(1, 1)];
    assert_eq!(sort_points(input), vec![p(0, 0), p(1, 1), p(u32::MAX, u32::MAX)]);
}

#[test]
fn points_come_in_raster_order() {
    let mut g = BinaryGrid::new(4, 3);
    g.set(2, 0, true);
    g.set(0, 1, true);
    g.set(3, 1, true);
    g.set(1, 2, true);
    assert_eq!(foreground_points(&g), vec![p(2, 0), p(0, 1), p(3, 1), p(1, 2)]);
}

#[test]
fn single_pixel_mask_traces_one_point() {
    let mut g = BinaryGrid::new(5, 5);
    g.set(2, 2, true);
    assert_eq!(trace_skeleton(&g), Ok(vec![p(2, 2)]));
}

#[test]
fn empty_mask_is_an_empty_input_error() {
    let g = BinaryGrid::new(6, 4);
    assert_eq!(trace_skeleton(&g), Err(PipelineError::EmptyInput));
}

#[test]
fn diagonal_mask_traces_along_the_line() {
    let mut g = BinaryGrid::new(6, 6);
    for i in 1..5 {
        g.set(i, i, true);
    }
    assert_eq!(trace_skeleton(&g), Ok(vec![p(1, 1), p(2, 2), p(3, 3), p(4, 4)]));
}

#[test]
fn non_empty_skeleton_always_gives_a_stroke() {
    let mut g = BinaryGrid::new(7, 5);
    for x in 1..6 {
        for y in 1..4 {
            g.set(x, y, true);
        }
    }
    let stroke = trace_skeleton(&g).unwrap();
    assert!(!stroke.is_empty());
}
