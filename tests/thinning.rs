use fourier_epicycles::grid::{marked_for_removal, outer_pass, skeletonize, BinaryGrid, Neighbors};

fn grid_from(rows: &[&str]) -> BinaryGrid {
    let height = rows.len();
    let width = rows[0].len();
    let mut g = BinaryGrid::new(width, height);
    for (y, row) in rows.iter().enumerate() {
        for (x, ch) in row.chars().enumerate() {
            if ch == '#' {
                g.set(x, y, true);
            }
        }
    }
    g
}

fn cells(g: &BinaryGrid) -> Vec<Vec<bool>> {
    let mut out = Vec::new();
    for y in 0..g.height {
        let mut row = Vec::new();
        for x in 0..g.width {
            row.push(g.get(x, y));
        }
        out.push(row);
    }
    out
}

fn count(g: &BinaryGrid) -> usize {
    cells(g).iter().map(|r| r.iter().filter(|&&b| b).count()).sum()
}

fn components(g: &BinaryGrid) -> usize {
    let mut seen = vec![vec![false; g.width]; g.height];
    let mut n = 0;
    for y in 0..g.height {
        for x in 0..g.width {
            if g.get(x, y) && !seen[y][x] {
                n += 1;
                let mut stack = vec![(x, y)];
                seen[y][x] = true;
                while let Some((cx, cy)) = stack.pop() {
                    for dy in -1i64..=1 {
                        for dx in -1i64..=1 {
                            let nx = cx as i64 + dx;
                            let ny = cy as i64 + dy;
                            if nx < 0 || ny < 0 || nx >= g.width as i64 || ny >= g.height as i64 {
                                continue;
                            }
                            let (nx, ny) = (nx as usize, ny as usize);
                            if g.get(nx, ny) && !seen[ny][nx] {
                                seen[ny][nx] = true;
                                stack.push((nx, ny));
                            }
                        }
                    }
                }
            }
        }
    }
    n
}

#[test]
fn new_grid_is_background() {
    let g = BinaryGrid::new(4, 3);
    assert_eq!(g.width, 4);
    assert_eq!(g.height, 3);
    assert_eq!(count(&g), 0);
}

#[test]
fn neighbors_are_sampled_clockwise_from_north() {
    let g = grid_from(&["#..", ".#.", "..#"]);
    let n = Neighbors::get(&g, 1, 1);
    assert_eq!(
        n,
        Neighbors { n: false, ne: false, e: false, se: true, s: false, sw: false, w: false, nw: true }
    );
    assert_eq!(n.count_nonzero(), 2);
    assert_eq!(n.count_transitions(), 2);
}

#[test]
fn transitions_wrap_from_north_west_to_north() {
    let n = Neighbors { n: true, ne: false, e: false, se: false, s: false, sw: false, w: false, nw: false };
    assert_eq!(n.count_transitions(), 1);
    let all = Neighbors { n: true, ne: true, e: true, se: true, s: true, sw: true, w: true, nw: true };
    assert_eq!(all.count_transitions(), 0);
    assert_eq!(all.count_nonzero(), 8);
    let alternating = Neighbors { n: true, ne: false, e: true, se: false, s: true, sw: false, w: true, nw: false };
    assert_eq!(alternating.count_transitions(), 4);
}

#[test]
fn single_pixel_is_kept() {
    let g = grid_from(&[".....", ".....", "..#..", ".....", "....."]);
    let t = skeletonize(&g);
    assert_eq!(cells(&t), cells(&g));
}

#[test]
fn diagonal_line_is_unchanged() {
    let g = grid_from(&["......", ".#....", "..#...", "...#..", "....#.", "......"]);
    let t = skeletonize(&g);
    assert_eq!(cells(&t), cells(&g));
}

#[test]
fn one_pixel_bar_is_kept() {
    let g = grid_from(&[".....", ".###.", "....."]);
    assert!(!marked_for_removal(&g, 1, 1, true));
    assert!(!marked_for_removal(&g, 2, 1, true));
    let t = skeletonize(&g);
    assert_eq!(cells(&t), cells(&g));
}

#[test]
fn edge_pixels_are_marked_only_by_their_sub_iteration() {
    let g = grid_from(&[".....", ".###.", ".###.", "....."]);
    // Top edge: E, SE, S, SW and W set, so E·S·W holds.
    assert!(!marked_for_removal(&g, 2, 1, true));
    assert!(marked_for_removal(&g, 2, 1, false));
    // Bottom edge: W, NW, N, NE and E set, so N·E·W holds.
    assert!(marked_for_removal(&g, 2, 2, true));
    assert!(!marked_for_removal(&g, 2, 2, false));
}

#[test]
fn filled_rectangle_thins_to_connected_thinner_shape() {
    let g = grid_from(&[
        ".........",
        ".#######.",
        ".#######.",
        ".#######.",
        ".#######.",
        ".#######.",
        ".........",
    ]);
    let t = skeletonize(&g);
    assert!(count(&t) < count(&g));
    assert!(count(&t) > 0);
    assert_eq!(components(&t), 1);
}

#[test]
fn thinning_twice_equals_thinning_once() {
    let g = grid_from(&[
        "..........",
        ".####.....",
        ".#####....",
        ".######...",
        "..#####...",
        "...####...",
        "..........",
    ]);
    let once = skeletonize(&g);
    let twice = skeletonize(&once);
    assert_eq!(cells(&twice), cells(&once));
}

#[test]
fn skeleton_has_no_removable_pixel() {
    let g = grid_from(&[
        "........",
        ".######.",
        ".######.",
        ".######.",
        "........",
    ]);
    let t = skeletonize(&g);
    for y in 0..t.height {
        for x in 0..t.width {
            assert!(!marked_for_removal(&t, x, y, true));
            assert!(!marked_for_removal(&t, x, y, false));
        }
    }
    let (again, changed) = outer_pass(&t);
    assert!(!changed);
    assert_eq!(cells(&again), cells(&t));
}

#[test]
fn border_pixels_are_never_removed() {
    let g = grid_from(&["###", "###", "###"]);
    for y in 0..3 {
        for x in 0..3 {
            if x != 1 || y != 1 {
                assert!(!marked_for_removal(&g, x, y, true));
                assert!(!marked_for_removal(&g, x, y, false));
            }
        }
    }
    let t = skeletonize(&g);
    assert_eq!(cells(&t), cells(&g));
}

#[test]
fn empty_and_tiny_masks_converge() {
    let g = BinaryGrid::new(0, 0);
    let t = skeletonize(&g);
    assert_eq!(count(&t), 0);
    let g = grid_from(&["##", "##"]);
    let t = skeletonize(&g);
    assert_eq!(count(&t), 4);
}

#[test]
fn anti_diagonal_line_is_unchanged() {
    let g = grid_from(&["......", "....#.", "...#..", "..#...", ".#....", "......"]);
    let t = skeletonize(&g);
    assert_eq!(cells(&t), cells(&g));
}

#[test]
fn filled_rectangle_loses_its_south_east_corner_first() {
    let g = grid_from(&[".....", ".###.", ".###.", ".###.", "....."]);
    assert!(marked_for_removal(&g, 3, 3, true));
    let t = skeletonize(&g);
    assert!(count(&t) < count(&g));
    assert!(count(&t) >= 1);
    assert_eq!(components(&t), 1);
}
