use vstd::prelude::*;

verus! {

/// A binary mask: `rows[y][x]` is true where the pixel at column `x`,
/// row `y` is foreground.
pub struct BinaryGrid {
    pub width: usize,
    pub height: usize,
    pub rows: Vec<Vec<bool>>,
}

/// `c` has `h` rows of `w` cells each.
pub open spec fn shaped(c: Seq<Seq<bool>>, w: int, h: int) -> bool {
    &&& c.len() == h
    &&& forall|y: int| 0 <= y < h ==> #[trigger] c[y].len() == w
}

impl BinaryGrid {
    /// The mask's cells, row by row.
    pub open spec fn cells(&self) -> Seq<Seq<bool>> {
        Seq::new(self.rows@.len(), |y: int| self.rows@[y]@)
    }

    /// Every row has `width` cells, and coordinates fit in `u32`.
    pub open spec fn wf(&self) -> bool {
        &&& shaped(self.cells(), self.width as int, self.height as int)
        &&& self.width <= u32::MAX
        &&& self.height <= u32::MAX
    }

    /// An all-background mask of the given size.
    pub fn new(width: usize, height: usize) -> (r: BinaryGrid)
        requires
            width <= u32::MAX,
            height <= u32::MAX,
        ensures
            r.wf(),
            r.width == width,
            r.height == height,
            forall|y: int, x: int|
                0 <= y < height && 0 <= x < width ==> !#[trigger] r.cells()[y][x],
    {
        let mut rows: Vec<Vec<bool>> = Vec::new();
        let mut y: usize = 0;
        while y < height
            invariant
                y <= height,
                rows@.len() == y,
                forall|j: int| 0 <= j < y ==> #[trigger] rows@[j]@.len() == width,
                forall|j: int, x: int| 0 <= j < y && 0 <= x < width ==> !#[trigger] rows@[j]@[x],
            decreases height - y,
        {
            let row: Vec<bool> = vec![false; width];
            rows.push(row);
            y = y + 1;
        }
        BinaryGrid { width, height, rows }
    }

    /// The value of the pixel at column `x`, row `y`.
    pub fn get(&self, x: usize, y: usize) -> (r: bool)
        requires
            self.wf(),
            x < self.width,
            y < self.height,
        ensures
            r == self.cells()[y as int][x as int],
    {
        assert(self.cells()[y as int].len() == self.width);
        self.rows[y][x]
    }

    /// Sets the pixel at column `x`, row `y` to `value`; every other pixel
    /// keeps its value.
    pub fn set(&mut self, x: usize, y: usize, value: bool)
        requires
            old(self).wf(),
            x < old(self).width,
            y < old(self).height,
        ensures
            final(self).wf(),
            final(self).width == old(self).width,
            final(self).height == old(self).height,
            final(self).cells() == old(self).cells().update(
                y as int,
                old(self).cells()[y as int].update(x as int, value),
            ),
    {
        assert(self.cells()[y as int].len() == self.width);
        let mut row: Vec<bool> = self.rows[y].clone();
        row.set(x, value);
        self.rows.set(y, row);
        assert(self.cells() =~~= old(self).cells().update(
            y as int,
            old(self).cells()[y as int].update(x as int, value),
        ));
    }
}

/// The 8-connected neighbourhood of a pixel, clockwise from North.
#[derive(Clone, Copy, Debug, PartialEq, Eq, Structural)]
pub struct Neighbors {
    pub n: bool,
    pub ne: bool,
    pub e: bool,
    pub se: bool,
    pub s: bool,
    pub sw: bool,
    pub w: bool,
    pub nw: bool,
}

/// The pixel `(x, y)` has all eight neighbours inside a `w` by `h` mask.
pub open spec fn interior(w: int, h: int, x: int, y: int) -> bool {
    1 <= x < w - 1 && 1 <= y < h - 1
}

/// The neighbourhood of `(x, y)` read from the cells `c`.
pub open spec fn neighbors_of(c: Seq<Seq<bool>>, x: int, y: int) -> Neighbors {
    Neighbors {
        n: c[y - 1][x],
        ne: c[y - 1][x + 1],
        e: c[y][x + 1],
        se: c[y + 1][x + 1],
        s: c[y + 1][x],
        sw: c[y + 1][x - 1],
        w: c[y][x - 1],
        nw: c[y - 1][x - 1],
    }
}

/// 1 where the pair of clockwise-adjacent neighbours goes from background
/// to foreground.
pub open spec fn rise(a: bool, b: bool) -> int {
    if !a && b { 1 } else { 0 }
}

/// 1 for a foreground value, 0 for background.
pub open spec fn bit(a: bool) -> int {
    if a { 1 } else { 0 }
}

/// The number of background-to-foreground steps around the cyclic
/// clockwise sequence of neighbours.
pub open spec fn transitions(nb: Neighbors) -> int {
    rise(nb.n, nb.ne) + rise(nb.ne, nb.e) + rise(nb.e, nb.se) + rise(nb.se, nb.s)
        + rise(nb.s, nb.sw) + rise(nb.sw, nb.w) + rise(nb.w, nb.nw) + rise(nb.nw, nb.n)
}

/// The number of foreground neighbours.
pub open spec fn nonzero(nb: Neighbors) -> int {
    bit(nb.n) + bit(nb.ne) + bit(nb.e) + bit(nb.se) + bit(nb.s) + bit(nb.sw) + bit(nb.w) + bit(
        nb.nw,
    )
}

/// The corner condition of the first (`first`) or the second sub-iteration.
pub open spec fn corner_clear(nb: Neighbors, first: bool) -> bool {
    if first {
        !(nb.n && nb.e && nb.s) && !(nb.e && nb.s && nb.w)
    } else {
        !(nb.n && nb.e && nb.w) && !(nb.n && nb.s && nb.w)
    }
}

/// The pixel `(x, y)` is an interior foreground pixel that the given
/// sub-iteration removes.
pub open spec fn removable(c: Seq<Seq<bool>>, w: int, h: int, x: int, y: int, first: bool) -> bool {
    &&& interior(w, h, x, y)
    &&& c[y][x]
    &&& transitions(neighbors_of(c, x, y)) == 1
    &&& 2 <= nonzero(neighbors_of(c, x, y)) <= 6
    &&& corner_clear(neighbors_of(c, x, y), first)
}

/// One sub-iteration: every pixel marked on the snapshot `c` is cleared at once.
pub open spec fn sub_pass(c: Seq<Seq<bool>>, w: int, h: int, first: bool) -> Seq<Seq<bool>> {
    Seq::new(h as nat, |y: int| Seq::new(w as nat, |x: int| c[y][x] && !removable(c, w, h, x, y, first)))
}

/// One outer pass: the first sub-iteration, then the second on its result.
pub open spec fn round(c: Seq<Seq<bool>>, w: int, h: int) -> Seq<Seq<bool>> {
    sub_pass(sub_pass(c, w, h, true), w, h, false)
}

/// The number of foreground cells in a row.
pub open spec fn row_count(r: Seq<bool>) -> nat
    decreases r.len(),
{
    if r.len() == 0 {
        0
    } else {
        row_count(r.drop_last()) + bit(r.last()) as nat
    }
}

/// The number of foreground cells.
pub open spec fn fg_count(c: Seq<Seq<bool>>) -> nat
    decreases c.len(),
{
    if c.len() == 0 {
        0
    } else {
        fg_count(c.drop_last()) + row_count(c.last())
    }
}

/// Every cell of `b` that is set is set in `a`.
pub open spec fn below(b: Seq<Seq<bool>>, a: Seq<Seq<bool>>, w: int, h: int) -> bool {
    forall|y: int, x: int| 0 <= y < h && 0 <= x < w && #[trigger] b[y][x] ==> a[y][x]
}

/// The skeleton of `c`: outer passes repeated until one removes nothing.
pub open spec fn thinned(c: Seq<Seq<bool>>, w: int, h: int) -> Seq<Seq<bool>>
    decreases fg_count(c),
    when shaped(c, w, h)
{
    if round(c, w, h) == c {
        c
    } else {
        proof {
            lemma_round_shrinks(c, w, h);
        }
        thinned(round(c, w, h), w, h)
    }
}

/// A row whose set cells are all set in another counts no more, and
/// fewer if it lacks one of them.
pub proof fn lemma_row_count_below(b: Seq<bool>, a: Seq<bool>)
    requires
        b.len() == a.len(),
        forall|x: int| 0 <= x < a.len() && #[trigger] b[x] ==> a[x],
    ensures
        row_count(b) <= row_count(a),
        (exists|x: int| 0 <= x < a.len() && a[x] && !b[x]) ==> row_count(b) < row_count(a),
    decreases a.len(),
{
    if a.len() > 0 {
        lemma_row_count_below(b.drop_last(), a.drop_last());
        if exists|x: int| 0 <= x < a.len() && a[x] && !b[x] {
            let x = choose|x: int| 0 <= x < a.len() && a[x] && !b[x];
            if x < a.len() - 1 {
                assert(a.drop_last()[x] && !b.drop_last()[x]);
            }
        }
    }
}

/// A mask whose set cells are all set in another counts no more, and
/// fewer if it lacks one of them.
pub proof fn lemma_count_below(b: Seq<Seq<bool>>, a: Seq<Seq<bool>>, w: int, h: int)
    requires
        shaped(a, w, h),
        shaped(b, w, h),
        below(b, a, w, h),
    ensures
        fg_count(b) <= fg_count(a),
        (exists|y: int, x: int| 0 <= y < h && 0 <= x < w && a[y][x] && !b[y][x]) ==> fg_count(b)
            < fg_count(a),
    decreases h,
{
    if h > 0 {
        lemma_count_below(b.drop_last(), a.drop_last(), w, h - 1);
        assert(b.last().len() == w && a.last().len() == w);
        assert forall|x: int| 0 <= x < a.last().len() && #[trigger] b.last()[x] implies a.last()[x] by {
            assert(b[h - 1][x]);
        }
        lemma_row_count_below(b.last(), a.last());
        if exists|y: int, x: int| 0 <= y < h && 0 <= x < w && a[y][x] && !b[y][x] {
            let (y, x) = choose|y: int, x: int| 0 <= y < h && 0 <= x < w && a[y][x] && !b[y][x];
            if y < h - 1 {
                assert(a.drop_last()[y][x] && !b.drop_last()[y][x]);
            } else {
                assert(a.last()[x] && !b.last()[x]);
            }
        }
    }
}

/// A sub-iteration keeps the shape and only clears pixels; if it changes
/// the mask it clears one.
pub proof fn lemma_sub_pass_below(c: Seq<Seq<bool>>, w: int, h: int, first: bool)
    requires
        shaped(c, w, h),
    ensures
        shaped(sub_pass(c, w, h, first), w, h),
        below(sub_pass(c, w, h, first), c, w, h),
        sub_pass(c, w, h, first) != c ==> exists|y: int, x: int|
            0 <= y < h && 0 <= x < w && c[y][x] && !sub_pass(c, w, h, first)[y][x],
{
    let p = sub_pass(c, w, h, first);
    if !(exists|y: int, x: int| 0 <= y < h && 0 <= x < w && c[y][x] && !p[y][x]) {
        assert forall|y: int| 0 <= y < h implies #[trigger] p[y] == c[y] by {
            assert(p[y] =~= c[y]);
        }
        assert(p =~= c);
    }
}

/// An outer pass only clears pixels; if it changes the mask it clears one.
pub proof fn lemma_round_shrinks(c: Seq<Seq<bool>>, w: int, h: int)
    requires
        shaped(c, w, h),
    ensures
        shaped(round(c, w, h), w, h),
        fg_count(round(c, w, h)) <= fg_count(c),
        round(c, w, h) != c ==> fg_count(round(c, w, h)) < fg_count(c),
{
    let p = sub_pass(c, w, h, true);
    let q = sub_pass(p, w, h, false);
    lemma_sub_pass_below(c, w, h, true);
    lemma_sub_pass_below(p, w, h, false);
    if q != c {
        if p != c {
            let (y, x) = choose|y: int, x: int| 0 <= y < h && 0 <= x < w && c[y][x] && !p[y][x];
            assert(!q[y][x]);
        } else {
            let (y, x) = choose|y: int, x: int| 0 <= y < h && 0 <= x < w && p[y][x] && !q[y][x];
            assert(c[y][x]);
        }
    }
    lemma_count_below(q, c, w, h);
}

impl Neighbors {
    /// Samples the neighbourhood of the interior pixel `(x, y)`.
    pub fn get(grid: &BinaryGrid, x: usize, y: usize) -> (r: Neighbors)
        requires
            grid.wf(),
            interior(grid.width as int, grid.height as int, x as int, y as int),
        ensures
            r == neighbors_of(grid.cells(), x as int, y as int),
    {
        assert(grid.cells()[y - 1].len() == grid.width);
        assert(grid.cells()[y as int].len() == grid.width);
        assert(grid.cells()[y + 1].len() == grid.width);
        Neighbors {
            n: grid.rows[y - 1][x],
            ne: grid.rows[y - 1][x + 1],
            e: grid.rows[y][x + 1],
            se: grid.rows[y + 1][x + 1],
            s: grid.rows[y + 1][x],
            sw: grid.rows[y + 1][x - 1],
            w: grid.rows[y][x - 1],
            nw: grid.rows[y - 1][x - 1],
        }
    }

    /// The number of background-to-foreground steps, clockwise and cyclic.
    pub fn count_transitions(&self) -> (r: u8)
        ensures
            r == transitions(*self),
    {
        u8_of(!self.n && self.ne) + u8_of(!self.ne && self.e) + u8_of(!self.e && self.se) + u8_of(
            !self.se && self.s,
        ) + u8_of(!self.s && self.sw) + u8_of(!self.sw && self.w) + u8_of(!self.w && self.nw)
            + u8_of(!self.nw && self.n)
    }

    /// The number of foreground neighbours.
    pub fn count_nonzero(&self) -> (r: u8)
        ensures
            r == nonzero(*self),
    {
        u8_of(self.n) + u8_of(self.ne) + u8_of(self.e) + u8_of(self.se) + u8_of(self.s) + u8_of(
            self.sw,
        ) + u8_of(self.w) + u8_of(self.nw)
    }
}

fn u8_of(a: bool) -> (r: u8)
    ensures
        r == bit(a),
{
    if a {
        1
    } else {
        0
    }
}

/// Whether the given sub-iteration removes the pixel `(x, y)` of `grid`.
pub fn marked_for_removal(grid: &BinaryGrid, x: usize, y: usize, first: bool) -> (r: bool)
    requires
        grid.wf(),
        x < grid.width,
        y < grid.height,
    ensures
        r == removable(grid.cells(), grid.width as int, grid.height as int, x as int, y as int, first),
{
    if x == 0 || y == 0 || x + 1 >= grid.width || y + 1 >= grid.height {
        return false;
    }
    if !grid.get(x, y) {
        return false;
    }
    let nb = Neighbors::get(grid, x, y);
    let a = nb.count_transitions();
    let b = nb.count_nonzero();
    let corners = if first {
        !(nb.n && nb.e && nb.s) && !(nb.e && nb.s && nb.w)
    } else {
        !(nb.n && nb.e && nb.w) && !(nb.n && nb.s && nb.w)
    };
    a == 1 && 2 <= b && b <= 6 && corners
}

/// One sub-iteration on a snapshot: the result holds every pixel of `grid`
/// but those marked for removal, all cleared at once. The flag tells
/// whether any pixel was cleared.
pub fn sub_iteration(grid: &BinaryGrid, first: bool) -> (r: (BinaryGrid, bool))
    requires
        grid.wf(),
    ensures
        r.0.wf(),
        r.0.width == grid.width,
        r.0.height == grid.height,
        r.0.cells() == sub_pass(grid.cells(), grid.width as int, grid.height as int, first),
        r.1 == (r.0.cells() != grid.cells()),
{
    let ghost c = grid.cells();
    let ghost w = grid.width as int;
    let ghost h = grid.height as int;
    let ghost target = sub_pass(c, w, h, first);
    let mut rows: Vec<Vec<bool>> = Vec::new();
    let mut changed = false;
    let ghost mut wx: int = 0;
    let ghost mut wy: int = 0;
    let mut y: usize = 0;
    while y < grid.height
        invariant
            grid.wf(),
            c == grid.cells(),
            w == grid.width,
            h == grid.height,
            target == sub_pass(c, w, h, first),
            y <= h,
            rows@.len() == y,
            forall|j: int| 0 <= j < y ==> #[trigger] rows@[j]@ == target[j],
            changed ==> 0 <= wy < y && 0 <= wx < w && c[wy][wx] && !target[wy][wx],
            !changed ==> forall|j: int, x: int| 0 <= j < y && 0 <= x < w ==> #[trigger] c[j][x] == target[j][x],
        decreases h - y,
    {
        let mut row: Vec<bool> = Vec::new();
        let mut x: usize = 0;
        while x < grid.width
            invariant
                grid.wf(),
                c == grid.cells(),
                w == grid.width,
                h == grid.height,
                target == sub_pass(c, w, h, first),
                y < h,
                x <= w,
                row@.len() == x,
                forall|i: int| 0 <= i < x ==> #[trigger] row@[i] == target[y as int][i],
                changed ==> 0 <= wy <= y && 0 <= wx < w && c[wy][wx] && !target[wy][wx],
                !changed ==> forall|j: int, i: int| 0 <= j < y && 0 <= i < w ==> #[trigger] c[j][i] == target[j][i],
                !changed ==> forall|i: int| 0 <= i < x ==> #[trigger] c[y as int][i] == target[y as int][i],
            decreases w - x,
        {
            let keep = grid.get(x, y) && !marked_for_removal(grid, x, y, first);
            if grid.get(x, y) && !keep {
                changed = true;
                proof {
                    wx = x as int;
                    wy = y as int;
                }
            }
            row.push(keep);
            x = x + 1;
        }
        assert(row@ =~= target[y as int]);
        rows.push(row);
        y = y + 1;
    }
    let r = BinaryGrid { width: grid.width, height: grid.height, rows };
    assert(r.cells() =~~= target);
    if !changed {
        assert forall|j: int| 0 <= j < h implies #[trigger] c[j] == target[j] by {
            assert(c[j] =~= target[j]);
        }
        assert(c =~= target);
    }
    (r, changed)
}

/// One outer pass: the first sub-iteration, then the second on its result.
/// The flag tells whether any pixel was cleared.
pub fn outer_pass(grid: &BinaryGrid) -> (r: (BinaryGrid, bool))
    requires
        grid.wf(),
    ensures
        r.0.wf(),
        r.0.width == grid.width,
        r.0.height == grid.height,
        r.0.cells() == round(grid.cells(), grid.width as int, grid.height as int),
        r.1 == (r.0.cells() != grid.cells()),
{
    let (first, changed1) = sub_iteration(grid, true);
    let (second, changed2) = sub_iteration(&first, false);
    proof {
        lemma_round_unchanged(grid.cells(), grid.width as int, grid.height as int);
    }
    (second, changed1 || changed2)
}

/// Thins `grid` to its one-pixel-wide skeleton: outer passes of the two
/// sub-iterations run until one pass removes nothing.
pub fn skeletonize(grid: &BinaryGrid) -> (r: BinaryGrid)
    requires
        grid.wf(),
    ensures
        r.wf(),
        r.width == grid.width,
        r.height == grid.height,
        r.cells() == thinned(grid.cells(), grid.width as int, grid.height as int),
        forall|x: int, y: int|
            !removable(r.cells(), r.width as int, r.height as int, x, y, true)
            && !removable(r.cells(), r.width as int, r.height as int, x, y, false),
{
    let ghost w = grid.width as int;
    let ghost h = grid.height as int;
    let (mut current, mut changed) = outer_pass(grid);
    proof {
        lemma_step(grid.cells(), w, h);
    }
    while changed
        invariant
            current.wf(),
            current.width == w,
            current.height == h,
            shaped(grid.cells(), w, h),
            thinned(current.cells(), w, h) == thinned(grid.cells(), w, h),
            !changed ==> round(current.cells(), w, h) == current.cells(),
        decreases fg_count(current.cells()), bit(changed),
    {
        let ghost before = current.cells();
        let (next, next_changed) = outer_pass(&current);
        current = next;
        changed = next_changed;
        proof {
            lemma_round_shrinks(before, w, h);
            lemma_step(before, w, h);
        }
    }
    proof {
        lemma_fixed_point_has_no_removable(current.cells(), w, h);
    }
    current
}

/// An outer pass leaves the mask as it is exactly when neither
/// sub-iteration clears a pixel.
pub proof fn lemma_round_unchanged(c: Seq<Seq<bool>>, w: int, h: int)
    requires
        shaped(c, w, h),
    ensures
        (round(c, w, h) == c) == (sub_pass(c, w, h, true) == c && sub_pass(
            sub_pass(c, w, h, true),
            w,
            h,
            false,
        ) == sub_pass(c, w, h, true)),
{
    let p = sub_pass(c, w, h, true);
    let q = sub_pass(p, w, h, false);
    lemma_sub_pass_below(c, w, h, true);
    lemma_sub_pass_below(p, w, h, false);
    if q == c && p != c {
        let (y, x) = choose|y: int, x: int| 0 <= y < h && 0 <= x < w && c[y][x] && !p[y][x];
        assert(!q[y][x]);
    }
}

/// Thinning after one outer pass gives the same skeleton as thinning before it.
pub proof fn lemma_step(c: Seq<Seq<bool>>, w: int, h: int)
    requires
        shaped(c, w, h),
    ensures
        thinned(round(c, w, h), w, h) == thinned(c, w, h),
{
    lemma_round_shrinks(c, w, h);
}

/// A mask that an outer pass leaves unchanged has no pixel that either
/// sub-iteration removes.
pub proof fn lemma_fixed_point_has_no_removable(r: Seq<Seq<bool>>, w: int, h: int)
    requires
        shaped(r, w, h),
        round(r, w, h) == r,
    ensures
        forall|x: int, y: int| !removable(r, w, h, x, y, true) && !removable(r, w, h, x, y, false),
{
    lemma_round_unchanged(r, w, h);
    let p = sub_pass(r, w, h, true);
    assert forall|x: int, y: int| !removable(r, w, h, x, y, true) && !removable(r, w, h, x, y, false) by {
        if removable(r, w, h, x, y, true) {
            assert(!p[y][x]);
        }
        if removable(r, w, h, x, y, false) {
            assert(!sub_pass(p, w, h, false)[y][x]);
        }
    }
}

/// The skeleton keeps the mask's shape, and an outer pass leaves it unchanged.
pub proof fn lemma_thinned_is_fixed(c: Seq<Seq<bool>>, w: int, h: int)
    requires
        shaped(c, w, h),
    ensures
        shaped(thinned(c, w, h), w, h),
        round(thinned(c, w, h), w, h) == thinned(c, w, h),
    decreases fg_count(c),
{
    if round(c, w, h) != c {
        lemma_round_shrinks(c, w, h);
        lemma_thinned_is_fixed(round(c, w, h), w, h);
    }
}

/// Thinning is idempotent: the skeleton of a skeleton is itself.
pub proof fn lemma_thin_idempotent(c: Seq<Seq<bool>>, w: int, h: int)
    requires
        shaped(c, w, h),
    ensures
        thinned(thinned(c, w, h), w, h) == thinned(c, w, h),
{
    lemma_thinned_is_fixed(c, w, h);
}

/// No interior foreground pixel of a skeleton satisfies the removal
/// condition of either sub-iteration.
pub proof fn lemma_thinned_has_no_removable(c: Seq<Seq<bool>>, w: int, h: int)
    requires
        shaped(c, w, h),
    ensures
        forall|x: int, y: int|
            !removable(thinned(c, w, h), w, h, x, y, true) && !removable(
                thinned(c, w, h),
                w,
                h,
                x,
                y,
                false,
            ),
{
    lemma_thinned_is_fixed(c, w, h);
    lemma_fixed_point_has_no_removable(thinned(c, w, h), w, h);
}

/// The pixel `(x, y)` lies on the one-pixel-wide diagonal of `len` pixels
/// that starts at `(x0, y0)` and runs right and down (`down`) or right and up.
pub open spec fn on_diagonal(x0: int, y0: int, len: int, down: bool, x: int, y: int) -> bool {
    &&& 0 <= x - x0 < len
    &&& if down {
        y - y0 == x - x0
    } else {
        y0 - y == x - x0
    }
}

/// The foreground of `c` is exactly the part of that diagonal inside the mask.
pub open spec fn is_diagonal_mask(
    c: Seq<Seq<bool>>,
    w: int,
    h: int,
    x0: int,
    y0: int,
    len: int,
    down: bool,
) -> bool {
    &&& shaped(c, w, h)
    &&& forall|y: int, x: int|
        0 <= y < h && 0 <= x < w ==> #[trigger] c[y][x] == on_diagonal(x0, y0, len, down, x, y)
}

proof fn lemma_diagonal_pixel_not_removable(
    c: Seq<Seq<bool>>,
    w: int,
    h: int,
    x0: int,
    y0: int,
    len: int,
    down: bool,
    x: int,
    y: int,
    first: bool,
)
    requires
        is_diagonal_mask(c, w, h, x0, y0, len, down),
    ensures
        !removable(c, w, h, x, y, first),
{
    if interior(w, h, x, y) && c[y][x] {
        let nb = neighbors_of(c, x, y);
        assert(c[y - 1][x] == on_diagonal(x0, y0, len, down, x, y - 1));
        assert(c[y - 1][x + 1] == on_diagonal(x0, y0, len, down, x + 1, y - 1));
        assert(c[y][x + 1] == on_diagonal(x0, y0, len, down, x + 1, y));
        assert(c[y + 1][x + 1] == on_diagonal(x0, y0, len, down, x + 1, y + 1));
        assert(c[y + 1][x] == on_diagonal(x0, y0, len, down, x, y + 1));
        assert(c[y + 1][x - 1] == on_diagonal(x0, y0, len, down, x - 1, y + 1));
        assert(c[y][x - 1] == on_diagonal(x0, y0, len, down, x - 1, y));
        assert(c[y - 1][x - 1] == on_diagonal(x0, y0, len, down, x - 1, y - 1));
        assert(c[y][x] == on_diagonal(x0, y0, len, down, x, y));
        assert(!nb.n && !nb.e && !nb.s && !nb.w);
    }
}

/// A one-pixel-wide diagonal line is already a skeleton: thinning leaves
/// the mask as it is.
pub proof fn lemma_diagonal_is_fixed(
    c: Seq<Seq<bool>>,
    w: int,
    h: int,
    x0: int,
    y0: int,
    len: int,
    down: bool,
)
    requires
        is_diagonal_mask(c, w, h, x0, y0, len, down),
    ensures
        thinned(c, w, h) == c,
{
    assert forall|first: bool| #[trigger] sub_pass(c, w, h, first) == c by {
        let p = sub_pass(c, w, h, first);
        assert forall|y: int| 0 <= y < h implies #[trigger] p[y] == c[y] by {
            assert forall|x: int| 0 <= x < w implies #[trigger] p[y][x] == c[y][x] by {
                lemma_diagonal_pixel_not_removable(c, w, h, x0, y0, len, down, x, y, first);
            }
            assert(p[y] =~= c[y]);
        }
        assert(p =~= c);
    }
    assert(round(c, w, h) == c);
}

/// The skeleton keeps only pixels of the mask, and no more of them.
pub proof fn lemma_thinned_below(c: Seq<Seq<bool>>, w: int, h: int)
    requires
        shaped(c, w, h),
    ensures
        shaped(thinned(c, w, h), w, h),
        below(thinned(c, w, h), c, w, h),
        fg_count(thinned(c, w, h)) <= fg_count(c),
        round(c, w, h) != c ==> fg_count(thinned(c, w, h)) < fg_count(c),
    decreases fg_count(c),
{
    lemma_round_shrinks(c, w, h);
    if round(c, w, h) != c {
        let r = round(c, w, h);
        lemma_thinned_below(r, w, h);
        lemma_sub_pass_below(c, w, h, true);
        lemma_sub_pass_below(sub_pass(c, w, h, true), w, h, false);
    }
}

/// The foreground of `c` is exactly the filled `rw` by `rh` rectangle whose
/// top-left pixel is `(x0, y0)`.
pub open spec fn is_rectangle_mask(
    c: Seq<Seq<bool>>,
    w: int,
    h: int,
    x0: int,
    y0: int,
    rw: int,
    rh: int,
) -> bool {
    &&& shaped(c, w, h)
    &&& forall|y: int, x: int|
        0 <= y < h && 0 <= x < w ==> #[trigger] c[y][x] == (x0 <= x < x0 + rw && y0 <= y < y0 + rh)
}

/// A filled rectangle of at least 3 by 3 pixels, clear of the border,
/// thins to a strictly smaller set of its own pixels.
pub proof fn lemma_rectangle_thins_strictly(
    c: Seq<Seq<bool>>,
    w: int,
    h: int,
    x0: int,
    y0: int,
    rw: int,
    rh: int,
)
    requires
        is_rectangle_mask(c, w, h, x0, y0, rw, rh),
        rw >= 3,
        rh >= 3,
        x0 >= 1,
        y0 >= 1,
        x0 + rw <= w - 1,
        y0 + rh <= h - 1,
    ensures
        below(thinned(c, w, h), c, w, h),
        fg_count(thinned(c, w, h)) < fg_count(c),
{
    let cx = x0 + rw - 1;
    let cy = y0 + rh - 1;
    assert(c[cy - 1][cx] && !c[cy - 1][cx + 1] && !c[cy][cx + 1] && !c[cy + 1][cx + 1]);
    assert(!c[cy + 1][cx] && !c[cy + 1][cx - 1] && c[cy][cx - 1] && c[cy - 1][cx - 1]);
    assert(c[cy][cx]);
    assert(removable(c, w, h, cx, cy, true));
    let p = sub_pass(c, w, h, true);
    lemma_sub_pass_below(c, w, h, true);
    lemma_sub_pass_below(p, w, h, false);
    assert(!round(c, w, h)[cy][cx]);
    lemma_thinned_below(c, w, h);
}

} // verus!
