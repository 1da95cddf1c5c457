use vstd::prelude::*;
use vstd::multiset::Multiset;
use crate::grid::{BinaryGrid, skeletonize, thinned};
use crate::spectrum::PipelineError;

verus! {

broadcast use vstd::seq_lib::group_to_multiset_ensures;

/// A pixel coordinate: column `x`, row `y`.
#[derive(Clone, Copy, Debug, PartialEq, Eq, Structural)]
pub struct Point {
    pub x: u32,
    pub y: u32,
}

/// The foreground pixels of one row, left to right.
pub open spec fn row_points(row: Seq<bool>, y: int) -> Seq<Point>
    decreases row.len(),
{
    if row.len() == 0 {
        Seq::empty()
    } else {
        let before = row_points(row.drop_last(), y);
        if row.last() {
            before.push(Point { x: (row.len() - 1) as u32, y: y as u32 })
        } else {
            before
        }
    }
}

/// The foreground pixels of the cells `c` in raster order: row by row from
/// the top, left to right within a row.
pub open spec fn raster_points(c: Seq<Seq<bool>>) -> Seq<Point>
    decreases c.len(),
{
    if c.len() == 0 {
        Seq::empty()
    } else {
        raster_points(c.drop_last()) + row_points(c.last(), c.len() - 1)
    }
}

/// Collects the foreground pixels of `grid` in raster order.
pub fn foreground_points(grid: &BinaryGrid) -> (r: Vec<Point>)
    requires
        grid.wf(),
    ensures
        r@ == raster_points(grid.cells()),
{
    let ghost c = grid.cells();
    let mut points: Vec<Point> = Vec::new();
    let mut y: usize = 0;
    while y < grid.height
        invariant
            grid.wf(),
            c == grid.cells(),
            y <= grid.height,
            points@ == raster_points(c.take(y as int)),
        decreases grid.height - y,
    {
        let ghost row = c[y as int];
        assert(row.len() == grid.width);
        let mut x: usize = 0;
        while x < grid.width
            invariant
                grid.wf(),
                c == grid.cells(),
                y < grid.height,
                row == c[y as int],
                row.len() == grid.width,
                x <= grid.width,
                points@ == raster_points(c.take(y as int)) + row_points(row.take(x as int), y as int),
            decreases grid.width - x,
        {
            assert(row.take(x + 1).drop_last() =~= row.take(x as int));
            if grid.get(x, y) {
                points.push(Point { x: x as u32, y: y as u32 });
            }
            x = x + 1;
        }
        assert(row.take(grid.width as int) =~= row);
        assert(c.take(y + 1).drop_last() =~= c.take(y as int));
        y = y + 1;
    }
    assert(c.take(grid.height as int) =~= c);
    points
}

/// The squared Euclidean distance between two points.
pub open spec fn dist_sq(a: Point, b: Point) -> int {
    (a.x - b.x) * (a.x - b.x) + (a.y - b.y) * (a.y - b.y)
}

/// The index of the point of `rest` nearest to `cur`; among equally near
/// points, the first.
pub open spec fn first_nearest(cur: Point, rest: Seq<Point>) -> int
    decreases rest.len(),
{
    if rest.len() <= 1 {
        0
    } else {
        let i = first_nearest(cur, rest.drop_last());
        if dist_sq(cur, rest.last()) < dist_sq(cur, rest[i]) {
            rest.len() - 1
        } else {
            i
        }
    }
}

/// The nearest point of a non-empty list is one of its points.
pub proof fn lemma_first_nearest_in_range(cur: Point, rest: Seq<Point>)
    requires
        rest.len() > 0,
    ensures
        0 <= first_nearest(cur, rest) < rest.len(),
    decreases rest.len(),
{
    if rest.len() > 1 {
        lemma_first_nearest_in_range(cur, rest.drop_last());
    }
}

/// The greedy walk from `cur`: step to the nearest remaining point until
/// none remains.
pub open spec fn greedy_from(cur: Point, rest: Seq<Point>) -> Seq<Point>
    decreases rest.len(),
{
    if rest.len() == 0 {
        Seq::empty()
    } else {
        proof {
            lemma_first_nearest_in_range(cur, rest);
        }
        let i = first_nearest(cur, rest);
        seq![rest[i]] + greedy_from(rest[i], rest.remove(i))
    }
}

/// The nearest-neighbour ordering of `s`: it starts at the first point and
/// walks greedily through the others.
pub open spec fn nearest_neighbor_order(s: Seq<Point>) -> Seq<Point> {
    if s.len() == 0 {
        s
    } else {
        seq![s[0]] + greedy_from(s[0], s.drop_first())
    }
}

fn distance_squared(a: Point, b: Point) -> (r: u128)
    ensures
        r == dist_sq(a, b),
{
    let dx: u64 = if a.x >= b.x { (a.x - b.x) as u64 } else { (b.x - a.x) as u64 };
    let dy: u64 = if a.y >= b.y { (a.y - b.y) as u64 } else { (b.y - a.y) as u64 };
    assert(dx * dx == (a.x - b.x) * (a.x - b.x)) by (nonlinear_arith)
        requires dx == a.x - b.x || dx == b.x - a.x;
    assert(dy * dy == (a.y - b.y) * (a.y - b.y)) by (nonlinear_arith)
        requires dy == a.y - b.y || dy == b.y - a.y;
    assert(dx * dx <= 0xffff_ffff_u64 * 0xffff_ffff_u64) by (nonlinear_arith)
        requires dx <= 0xffff_ffff_u64;
    assert(dy * dy <= 0xffff_ffff_u64 * 0xffff_ffff_u64) by (nonlinear_arith)
        requires dy <= 0xffff_ffff_u64;
    (dx as u128) * (dx as u128) + (dy as u128) * (dy as u128)
}

/// The index of the point of `rest` nearest to `cur`, the first among ties.
pub fn nearest_index(cur: Point, rest: &Vec<Point>) -> (r: usize)
    requires
        rest@.len() > 0,
    ensures
        r == first_nearest(cur, rest@),
        r < rest@.len(),
{
    let mut best: usize = 0;
    let mut best_dist: u128 = distance_squared(cur, rest[0]);
    let mut i: usize = 1;
    while i < rest.len()
        invariant
            1 <= i <= rest@.len(),
            best == first_nearest(cur, rest@.take(i as int)),
            best < i,
            best_dist == dist_sq(cur, rest@[best as int]),
        decreases rest@.len() - i,
    {
        assert(rest@.take(i + 1).drop_last() =~= rest@.take(i as int));
        let d = distance_squared(cur, rest[i]);
        if d < best_dist {
            best = i;
            best_dist = d;
        }
        i = i + 1;
    }
    assert(rest@.take(rest@.len() as int) =~= rest@);
    best
}

/// The greedy walk holds each remaining point once.
pub proof fn lemma_greedy_is_permutation(cur: Point, rest: Seq<Point>)
    ensures
        greedy_from(cur, rest).to_multiset() == rest.to_multiset(),
        greedy_from(cur, rest).len() == rest.len(),
    decreases rest.len(),
{
    if rest.len() > 0 {
        lemma_first_nearest_in_range(cur, rest);
        let i = first_nearest(cur, rest);
        let tail = rest.remove(i);
        lemma_greedy_is_permutation(rest[i], tail);
        vstd::seq_lib::to_multiset_remove(rest, i);
        vstd::seq_lib::lemma_multiset_commutative(seq![rest[i]], greedy_from(rest[i], tail));
        assert(seq![rest[i]].to_multiset() =~= Multiset::empty().insert(rest[i])) by {
            assert(seq![rest[i]] =~= Seq::<Point>::empty().push(rest[i]));
            vstd::seq_lib::to_multiset_build(Seq::<Point>::empty(), rest[i]);
        }
        assert(rest.to_multiset().count(rest[i]) > 0);
        assert(greedy_from(cur, rest).to_multiset() =~= rest.to_multiset());
    }
}

/// The nearest-neighbour ordering is a permutation of its input: the same
/// points, each as often, and as many.
pub proof fn lemma_order_is_permutation(s: Seq<Point>)
    ensures
        nearest_neighbor_order(s).to_multiset() == s.to_multiset(),
        nearest_neighbor_order(s).len() == s.len(),
{
    if s.len() > 0 {
        lemma_greedy_is_permutation(s[0], s.drop_first());
        vstd::seq_lib::lemma_multiset_commutative(seq![s[0]], greedy_from(s[0], s.drop_first()));
        vstd::seq_lib::lemma_multiset_commutative(seq![s[0]], s.drop_first());
        assert(seq![s[0]] + s.drop_first() =~= s);
    }
}

/// Orders `points` into one stroke: start at the first point, then go to
/// the nearest remaining point (the first of equally near ones, in the
/// order of `points`) until every point has been visited.
pub fn sort_points(points: Vec<Point>) -> (r: Vec<Point>)
    ensures
        r@ == nearest_neighbor_order(points@),
        r@.to_multiset() == points@.to_multiset(),
        r@.len() == points@.len(),
{
    proof {
        lemma_order_is_permutation(points@);
    }
    let mut points = points;
    if points.len() == 0 {
        return points;
    }
    let ghost input = points@;
    let mut sorted: Vec<Point> = Vec::new();
    let mut current = points.remove(0);
    sorted.push(current);
    assert(input.drop_first() =~= points@);
    assert(sorted@ =~= seq![input[0]]);
    while points.len() > 0
        invariant
            sorted@ + greedy_from(current, points@) == nearest_neighbor_order(input),
        decreases points@.len(),
    {
        let ghost before = sorted@;
        let ghost rest = points@;
        let idx = nearest_index(current, &points);
        current = points.remove(idx);
        sorted.push(current);
        assert(before + (seq![current] + greedy_from(current, points@)) =~= sorted@ + greedy_from(
            current,
            points@,
        ));
    }
    assert(sorted@ + greedy_from(current, points@) =~= sorted@);
    sorted
}

/// The stroke that a mask yields: its skeleton's foreground pixels, in
/// raster order, then in nearest-neighbour order.
pub open spec fn stroke_of(grid: BinaryGrid) -> Seq<Point> {
    nearest_neighbor_order(
        raster_points(thinned(grid.cells(), grid.width as int, grid.height as int)),
    )
}

/// Thins `mask`, collects the skeleton's pixels and orders them into one
/// stroke. An empty skeleton is an error: it has no spectrum.
pub fn trace_skeleton(mask: &BinaryGrid) -> (r: Result<Vec<Point>, PipelineError>)
    requires
        mask.wf(),
    ensures
        (r == Err::<Vec<Point>, PipelineError>(PipelineError::EmptyInput)) == (stroke_of(*mask).len() == 0),
        stroke_of(*mask).len() > 0 ==> r is Ok,
        r is Ok ==> r->Ok_0@ == stroke_of(*mask),
{
    let skeleton = skeletonize(mask);
    let points = foreground_points(&skeleton);
    if points.len() == 0 {
        proof {
            lemma_order_is_permutation(points@);
        }
        return Err(PipelineError::EmptyInput);
    }
    proof {
        lemma_order_is_permutation(points@);
    }
    let ordered = sort_points(points);
    Ok(ordered)
}

} // verus!
