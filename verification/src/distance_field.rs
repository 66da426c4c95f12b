//! Distance fields: dense grids of shortest 4-connected distances.
//!
//! A [`DistanceField`] is an `rows x cols` grid whose cells hold either
//! [`UNVISITED`](crate::UNVISITED) or the exact shortest 4-connected step
//! count to the nearest pixel of its source set.  On an open grid the
//! shortest 4-connected path length between two cells is their Manhattan
//! distance, so the field is characterized cell by cell: every visited cell
//! equals the least Manhattan distance to a source, and a cell is unvisited
//! exactly when there are no sources at all.

use vstd::prelude::*;

use std::collections::VecDeque;

use crate::EvaluationError;
use crate::MAX_AREA;
use crate::UNVISITED;

verus! {

/// Manhattan distance between two cells.
pub open spec fn man_dist(a: (int, int), b: (int, int)) -> int {
    (if a.0 >= b.0 { a.0 - b.0 } else { b.0 - a.0 })
        + (if a.1 >= b.1 { a.1 - b.1 } else { b.1 - a.1 })
}

/// `v` is the least Manhattan distance from `c` to a member of `srcs`,
/// with `UNVISITED` standing for the distance to an empty source set.
pub open spec fn dist_ok(srcs: Set<(int, int)>, c: (int, int), v: int) -> bool {
    &&& (forall|s: (int, int)| #[trigger] srcs.contains(s) ==> man_dist(s, c) >= v)
    &&& (v != UNVISITED as int ==> exists|s: (int, int)|
            #[trigger] srcs.contains(s) && man_dist(s, c) == v)
    &&& (v == UNVISITED as int ==> forall|s: (int, int)| !(#[trigger] srcs.contains(s)))
    &&& v >= UNVISITED as int
}

/// The set of coordinates in `pixels` that fall inside an `rows x cols` grid.
pub open spec fn inb_set(pixels: Seq<(usize, usize)>, rows: int, cols: int) -> Set<(int, int)> {
    Set::new(|c: (int, int)| {
        &&& 0 <= c.0 < rows
        &&& 0 <= c.1 < cols
        &&& exists|i: int| 0 <= i < pixels.len()
                && (#[trigger] pixels[i]).0 == c.0 && pixels[i].1 == c.1
    })
}

/// Cell value of a grid of rows, as a mathematical integer.
pub open spec fn gat(g: Seq<Vec<i32>>, y: int, x: int) -> int {
    g[y]@[x] as int
}

/// The rows of `g` form a well-shaped `rows x cols` grid.
pub open spec fn grid_shaped(g: Seq<Vec<i32>>, rows: int, cols: int) -> bool {
    &&& g.len() == rows
    &&& forall|y: int| 0 <= y < rows ==> (#[trigger] g[y])@.len() == cols
}

/// `(y, x)` lies inside an `rows x cols` grid (coordinate-pair form).
pub open spec fn inbp(rows: int, cols: int, c: (int, int)) -> bool {
    0 <= c.0 < rows && 0 <= c.1 < cols
}

/// Largest Manhattan distance between two cells of an `rows x cols` grid.
pub open spec fn dmax(rows: int, cols: int) -> int {
    rows + cols - 2
}

/// Termination weight of a single cell: unvisited cells carry the cap,
/// visited cells their distance.
spec fn pot_cell(v: i32, cap: int) -> int {
    if v == UNVISITED {
        cap
    } else {
        v as int
    }
}

/// Weight cap: strictly larger than any distance the fill can ever write.
spec fn pot_cap(rows: int, cols: int) -> int {
    rows + cols + rows * cols
}

/// Number of visited cells among the first `n` of a row.
spec fn row_visited(row: Seq<i32>, n: int) -> int
    decreases n,
{
    if n <= 0 {
        0
    } else {
        row_visited(row, n - 1) + if row[n - 1] != UNVISITED {
            1int
        } else {
            0int
        }
    }
}

/// Number of visited cells in the first `n` rows.
spec fn grid_visited(g: Seq<Vec<i32>>, n: int) -> int
    decreases n,
{
    if n <= 0 {
        0
    } else {
        grid_visited(g, n - 1) + row_visited(g[n - 1]@, g[n - 1]@.len() as int)
    }
}

/// Total termination weight of the first `n` cells of a row.
spec fn row_pot(row: Seq<i32>, n: int, cap: int) -> int
    decreases n,
{
    if n <= 0 {
        0
    } else {
        row_pot(row, n - 1, cap) + pot_cell(row[n - 1], cap)
    }
}

/// Total termination weight of the first `n` rows.
spec fn grid_pot(g: Seq<Vec<i32>>, n: int, cap: int) -> int
    decreases n,
{
    if n <= 0 {
        0
    } else {
        grid_pot(g, n - 1, cap) + row_pot(g[n - 1]@, g[n - 1]@.len() as int, cap)
    }
}

proof fn lemma_row_visited_bounds(row: Seq<i32>, n: int)
    requires
        0 <= n <= row.len(),
    ensures
        0 <= row_visited(row, n) <= n,
    decreases n,
{
    if n > 0 {
        lemma_row_visited_bounds(row, n - 1);
    }
}

proof fn lemma_grid_visited_bounds(g: Seq<Vec<i32>>, n: int, cols: int)
    requires
        0 <= n <= g.len(),
        0 <= cols,
        forall|y: int| 0 <= y < g.len() ==> (#[trigger] g[y])@.len() == cols,
    ensures
        0 <= grid_visited(g, n) <= n * cols,
    decreases n,
{
    if n > 0 {
        lemma_grid_visited_bounds(g, n - 1, cols);
        lemma_row_visited_bounds(g[n - 1]@, cols);
        assert((n - 1) * cols + cols == n * cols) by (nonlinear_arith);
    }
}

proof fn lemma_row_visited_update(r1: Seq<i32>, r2: Seq<i32>, n: int, x: int)
    requires
        0 <= x < n,
        n <= r1.len(),
        r2.len() == r1.len(),
        forall|j: int| 0 <= j < r1.len() && j != x ==> r1[j] == r2[j],
    ensures
        row_visited(r2, n) == row_visited(r1, n)
            + (if r2[x] != UNVISITED { 1int } else { 0int })
            - (if r1[x] != UNVISITED { 1int } else { 0int }),
    decreases n,
{
    if x == n - 1 {
        lemma_row_visited_agree(r1, r2, n - 1);
    } else {
        lemma_row_visited_update(r1, r2, n - 1, x);
    }
}

proof fn lemma_row_visited_agree(r1: Seq<i32>, r2: Seq<i32>, n: int)
    requires
        n <= r1.len(),
        n <= r2.len(),
        forall|j: int| 0 <= j < n ==> r1[j] == r2[j],
    ensures
        row_visited(r2, n) == row_visited(r1, n),
    decreases n,
{
    if n > 0 {
        lemma_row_visited_agree(r1, r2, n - 1);
    }
}

proof fn lemma_row_pot_update(r1: Seq<i32>, r2: Seq<i32>, n: int, x: int, cap: int)
    requires
        0 <= x < n,
        n <= r1.len(),
        r2.len() == r1.len(),
        forall|j: int| 0 <= j < r1.len() && j != x ==> r1[j] == r2[j],
    ensures
        row_pot(r2, n, cap) == row_pot(r1, n, cap) + pot_cell(r2[x], cap) - pot_cell(r1[x], cap),
    decreases n,
{
    if x == n - 1 {
        lemma_row_pot_agree(r1, r2, n - 1, cap);
    } else {
        lemma_row_pot_update(r1, r2, n - 1, x, cap);
    }
}

proof fn lemma_row_pot_agree(r1: Seq<i32>, r2: Seq<i32>, n: int, cap: int)
    requires
        n <= r1.len(),
        n <= r2.len(),
        forall|j: int| 0 <= j < n ==> r1[j] == r2[j],
    ensures
        row_pot(r2, n, cap) == row_pot(r1, n, cap),
    decreases n,
{
    if n > 0 {
        lemma_row_pot_agree(r1, r2, n - 1, cap);
    }
}

proof fn lemma_grid_visited_update(g1: Seq<Vec<i32>>, g2: Seq<Vec<i32>>, n: int, y: int, x: int)
    requires
        0 <= y < n,
        n <= g1.len(),
        g2.len() == g1.len(),
        forall|i: int| 0 <= i < g1.len() && i != y ==> g1[i] == g2[i],
        g2[y]@.len() == g1[y]@.len(),
        0 <= x < g1[y]@.len(),
        forall|j: int| 0 <= j < g1[y]@.len() && j != x ==> g1[y]@[j] == g2[y]@[j],
    ensures
        grid_visited(g2, n) == grid_visited(g1, n)
            + (if g2[y]@[x] != UNVISITED { 1int } else { 0int })
            - (if g1[y]@[x] != UNVISITED { 1int } else { 0int }),
    decreases n,
{
    if y == n - 1 {
        lemma_grid_visited_agree(g1, g2, n - 1);
        lemma_row_visited_update(g1[y]@, g2[y]@, g1[y]@.len() as int, x);
    } else {
        lemma_grid_visited_update(g1, g2, n - 1, y, x);
    }
}

proof fn lemma_grid_visited_agree(g1: Seq<Vec<i32>>, g2: Seq<Vec<i32>>, n: int)
    requires
        n <= g1.len(),
        n <= g2.len(),
        forall|i: int| 0 <= i < n ==> g1[i] == g2[i],
    ensures
        grid_visited(g2, n) == grid_visited(g1, n),
    decreases n,
{
    if n > 0 {
        lemma_grid_visited_agree(g1, g2, n - 1);
    }
}

proof fn lemma_grid_pot_update(g1: Seq<Vec<i32>>, g2: Seq<Vec<i32>>, n: int, y: int, x: int, cap: int)
    requires
        0 <= y < n,
        n <= g1.len(),
        g2.len() == g1.len(),
        forall|i: int| 0 <= i < g1.len() && i != y ==> g1[i] == g2[i],
        g2[y]@.len() == g1[y]@.len(),
        0 <= x < g1[y]@.len(),
        forall|j: int| 0 <= j < g1[y]@.len() && j != x ==> g1[y]@[j] == g2[y]@[j],
    ensures
        grid_pot(g2, n, cap) == grid_pot(g1, n, cap) + pot_cell(g2[y]@[x], cap)
            - pot_cell(g1[y]@[x], cap),
    decreases n,
{
    if y == n - 1 {
        lemma_grid_pot_agree(g1, g2, n - 1, cap);
        lemma_row_pot_update(g1[y]@, g2[y]@, g1[y]@.len() as int, x, cap);
    } else {
        lemma_grid_pot_update(g1, g2, n - 1, y, x, cap);
    }
}

proof fn lemma_grid_pot_agree(g1: Seq<Vec<i32>>, g2: Seq<Vec<i32>>, n: int, cap: int)
    requires
        n <= g1.len(),
        n <= g2.len(),
        forall|i: int| 0 <= i < n ==> g1[i] == g2[i],
    ensures
        grid_pot(g2, n, cap) == grid_pot(g1, n, cap),
    decreases n,
{
    if n > 0 {
        lemma_grid_pot_agree(g1, g2, n - 1, cap);
    }
}

proof fn lemma_row_pot_nonneg(row: Seq<i32>, n: int, cap: int)
    requires
        n <= row.len(),
        cap >= 0,
        forall|j: int| 0 <= j < n ==> (#[trigger] row[j]) as int >= UNVISITED as int,
    ensures
        row_pot(row, n, cap) >= 0,
    decreases n,
{
    if n > 0 {
        lemma_row_pot_nonneg(row, n - 1, cap);
    }
}

proof fn lemma_grid_pot_nonneg(g: Seq<Vec<i32>>, n: int, cap: int)
    requires
        n <= g.len(),
        cap >= 0,
        forall|i: int, j: int| 0 <= i < n && 0 <= j < (#[trigger] g[i])@.len()
            ==> (#[trigger] g[i]@[j]) as int >= UNVISITED as int,
    ensures
        grid_pot(g, n, cap) >= 0,
    decreases n,
{
    if n > 0 {
        lemma_grid_pot_nonneg(g, n - 1, cap);
        lemma_row_pot_nonneg(g[n - 1]@, g[n - 1]@.len() as int, cap);
    }
}

/// Grid coordinate of a queue entry.
spec fn ecell(e: (usize, usize, i32)) -> (int, int) {
    (e.0 as int, e.1 as int)
}

/// Distance tag of a queue entry.
spec fn edist(e: (usize, usize, i32)) -> int {
    e.2 as int
}

/// A pending queue entry is sound: in bounds, tagged with a distance no
/// smaller than the cell's current value, bounded by the reachable range,
/// and witnessed by a source within the tagged distance.
spec fn entry_ok(
    e: (usize, usize, i32),
    g: Seq<Vec<i32>>,
    rows: int,
    cols: int,
    srcs: Set<(int, int)>,
) -> bool {
    &&& inbp(rows, cols, ecell(e))
    &&& 0 <= edist(e)
    &&& edist(e) <= dmax(rows, cols) + grid_visited(g, rows)
    &&& gat(g, ecell(e).0, ecell(e).1) != UNVISITED as int
    &&& gat(g, ecell(e).0, ecell(e).1) <= edist(e)
    &&& exists|s: (int, int)| #[trigger] srcs.contains(s) && man_dist(s, ecell(e)) <= edist(e)
}

spec fn inv_queue(
    q: Seq<(usize, usize, i32)>,
    g: Seq<Vec<i32>>,
    rows: int,
    cols: int,
    srcs: Set<(int, int)>,
) -> bool {
    forall|i: int| 0 <= i < q.len() ==> entry_ok(#[trigger] q[i], g, rows, cols, srcs)
}

/// Every visited cell is nonnegative and bounded by the reachable range.
spec fn inv_vbnd(g: Seq<Vec<i32>>, rows: int, cols: int) -> bool {
    forall|y: int, x: int| 0 <= y < rows && 0 <= x < cols
        ==> #[trigger] gat(g, y, x) == UNVISITED as int
            || (0 <= gat(g, y, x) <= dmax(rows, cols) + grid_visited(g, rows))
}

/// Every visited cell has a source within its stored distance.
spec fn inv_lower(g: Seq<Vec<i32>>, rows: int, cols: int, srcs: Set<(int, int)>) -> bool {
    forall|y: int, x: int| 0 <= y < rows && 0 <= x < cols
            && #[trigger] gat(g, y, x) != UNVISITED as int
        ==> exists|s: (int, int)| #[trigger] srcs.contains(s) && man_dist(s, (y, x)) <= gat(g, y, x)
}

/// Cells never rise above their value in the starting grid `f0`.
spec fn inv_upper_old(g: Seq<Vec<i32>>, f0: Seq<Vec<i32>>, rows: int, cols: int) -> bool {
    forall|y: int, x: int| 0 <= y < rows && 0 <= x < cols
            && gat(f0, y, x) != UNVISITED as int
        ==> #[trigger] gat(g, y, x) != UNVISITED as int && gat(g, y, x) <= gat(f0, y, x)
}

/// Every already-seeded source cell sits at distance zero.
spec fn inv_seeds(g: Seq<Vec<i32>>, rows: int, cols: int, seeded: Set<(int, int)>) -> bool {
    forall|t: (int, int)| #[trigger] seeded.contains(t)
        ==> inbp(rows, cols, t) && gat(g, t.0, t.1) == 0
}

/// The one-step slack condition between a cell and one of its neighbors.
spec fn lip_at(g: Seq<Vec<i32>>, c: (int, int), n: (int, int)) -> bool {
    gat(g, c.0, c.1) == UNVISITED as int
        || (gat(g, n.0, n.1) != UNVISITED as int && gat(g, n.0, n.1) <= gat(g, c.0, c.1) + 1)
}

/// `c` still has a pending queue entry tagged with its current value.
spec fn covered(q: Seq<(usize, usize, i32)>, g: Seq<Vec<i32>>, c: (int, int)) -> bool {
    exists|i: int| 0 <= i < q.len() && ecell(#[trigger] q[i]) == c
        && edist(q[i]) == gat(g, c.0, c.1)
}

/// Every neighbor pair is one-step slack, or the center cell still has a
/// pending entry that will process it; cells in `exc` are excused.
spec fn inv_lip(
    g: Seq<Vec<i32>>,
    q: Seq<(usize, usize, i32)>,
    rows: int,
    cols: int,
    exc: Set<(int, int)>,
) -> bool {
    forall|c: (int, int), n: (int, int)|
        inbp(rows, cols, c) && inbp(rows, cols, n) && man_dist(c, n) == 1 && !exc.contains(c)
            ==> #[trigger] lip_at(g, c, n) || covered(q, g, c)
}

/// All the flood-fill loop invariants bundled together.
spec fn inv_state(
    g: Seq<Vec<i32>>,
    q: Seq<(usize, usize, i32)>,
    rows: int,
    cols: int,
    srcs: Set<(int, int)>,
    f0: Seq<Vec<i32>>,
    seeded: Set<(int, int)>,
    exc: Set<(int, int)>,
) -> bool {
    &&& grid_shaped(g, rows, cols)
    &&& inv_vbnd(g, rows, cols)
    &&& inv_queue(q, g, rows, cols, srcs)
    &&& inv_lower(g, rows, cols, srcs)
    &&& inv_upper_old(g, f0, rows, cols)
    &&& inv_seeds(g, rows, cols, seeded)
    &&& inv_lip(g, q, rows, cols, exc)
}

/// The full one-step slack condition with no pending entries left.
spec fn full_lip(g: Seq<Vec<i32>>, rows: int, cols: int) -> bool {
    forall|c: (int, int), n: (int, int)|
        inbp(rows, cols, c) && inbp(rows, cols, n) && man_dist(c, n) == 1
            ==> #[trigger] lip_at(g, c, n)
}

/// Walking from a visited cell `a` to any cell `c` under the one-step slack
/// condition, the value can grow by at most one per step, so `c` is visited
/// and bounded by `a`'s value plus the Manhattan distance.
proof fn lemma_lip_path(g: Seq<Vec<i32>>, rows: int, cols: int, a: (int, int), c: (int, int))
    requires
        full_lip(g, rows, cols),
        inbp(rows, cols, a),
        inbp(rows, cols, c),
        gat(g, a.0, a.1) != UNVISITED as int,
    ensures
        gat(g, c.0, c.1) != UNVISITED as int,
        gat(g, c.0, c.1) <= gat(g, a.0, a.1) + man_dist(a, c),
    decreases man_dist(a, c),
{
    if a == c {
    } else {
        let b: (int, int) = if a.0 < c.0 {
            (a.0 + 1, a.1)
        } else if a.0 > c.0 {
            (a.0 - 1, a.1)
        } else if a.1 < c.1 {
            (a.0, a.1 + 1)
        } else {
            (a.0, a.1 - 1)
        };
        assert(man_dist(a, b) == 1);
        assert(man_dist(b, c) == man_dist(a, c) - 1);
        assert(inbp(rows, cols, b));
        assert(lip_at(g, a, b));
        lemma_lip_path(g, rows, cols, b, c);
    }
}

/// An exact field obeys the one-step slack condition everywhere.
proof fn lemma_exact_full_lip(f: DistanceField)
    requires
        f.wf(),
        f.exact(),
    ensures
        full_lip(f.cells@, f.rows as int, f.cols as int),
{
    let g = f.cells@;
    let rows = f.rows as int;
    let cols = f.cols as int;
    assert forall|c: (int, int), n: (int, int)|
        inbp(rows, cols, c) && inbp(rows, cols, n) && man_dist(c, n) == 1
        implies #[trigger] lip_at(g, c, n) by {
        let vc = f.at(c.0, c.1);
        let vn = f.at(n.0, n.1);
        assert(dist_ok(f.srcs(), (c.0, c.1), vc));
        assert(dist_ok(f.srcs(), (n.0, n.1), vn));
        if vc != UNVISITED as int {
            let s = choose|s: (int, int)| #[trigger] f.srcs().contains(s) && man_dist(s, (c.0, c.1)) == vc;
            assert(f.srcs().contains(s));
            assert(man_dist(s, (n.0, n.1)) >= vn);
            assert(man_dist(s, (n.0, n.1)) <= man_dist(s, (c.0, c.1)) + 1);
            assert(vn != UNVISITED as int);
        }
    }
}

/// A source cell of an exact field sits at distance zero.
proof fn lemma_exact_source_zero(f: DistanceField, s: (int, int))
    requires
        f.wf(),
        f.exact(),
        f.srcs().contains(s),
    ensures
        f.inb(s.0, s.1),
        f.at(s.0, s.1) == 0,
{
    assert(dist_ok(f.srcs(), (s.0, s.1), f.at(s.0, s.1)));
    assert(man_dist(s, (s.0, s.1)) == 0);
    assert(f.at(s.0, s.1) <= 0);
    if f.at(s.0, s.1) == UNVISITED as int {
        assert(!f.srcs().contains(s));
    }
}

/// One relaxation step of the flood fill: if `nd` improves cell `(ny, nx)`
/// (or the cell is unvisited), write it and enqueue the cell.
fn relax(
    cells: &mut Vec<Vec<i32>>,
    queue: &mut VecDeque<(usize, usize, i32)>,
    ny: usize,
    nx: usize,
    nd: i32,
    Ghost(rows): Ghost<int>,
    Ghost(cols): Ghost<int>,
    Ghost(srcs): Ghost<Set<(int, int)>>,
    Ghost(f0): Ghost<Seq<Vec<i32>>>,
    Ghost(seeded): Ghost<Set<(int, int)>>,
    Ghost(exc): Ghost<Set<(int, int)>>,
)
    requires
        1 <= rows,
        1 <= cols,
        rows * cols <= MAX_AREA as int,
        inv_state(old(cells)@, old(queue)@, rows, cols, srcs, f0, seeded, exc),
        (ny as int) < rows,
        (nx as int) < cols,
        1 <= nd as int,
        nd as int <= dmax(rows, cols) + grid_visited(old(cells)@, rows) + 1,
        exists|s: (int, int)| #[trigger] srcs.contains(s)
            && man_dist(s, (ny as int, nx as int)) <= nd as int,
    ensures
        inv_state(final(cells)@, final(queue)@, rows, cols, srcs, f0, seeded, exc),
        forall|y: int, x: int| 0 <= y < rows && 0 <= x < cols
                && !(y == ny as int && x == nx as int)
            ==> #[trigger] gat(final(cells)@, y, x) == gat(old(cells)@, y, x),
        gat(final(cells)@, ny as int, nx as int) != UNVISITED as int,
        gat(final(cells)@, ny as int, nx as int) <= nd as int,
        gat(old(cells)@, ny as int, nx as int) != UNVISITED as int
            ==> gat(final(cells)@, ny as int, nx as int)
                <= gat(old(cells)@, ny as int, nx as int),
        final(queue)@ == old(queue)@ || final(queue)@ == old(queue)@.push((ny, nx, nd)),
        final(queue)@.len() + grid_pot(final(cells)@, rows, pot_cap(rows, cols))
            <= old(queue)@.len() + grid_pot(old(cells)@, rows, pot_cap(rows, cols)),
        grid_visited(old(cells)@, rows) <= grid_visited(final(cells)@, rows)
            <= grid_visited(old(cells)@, rows) + 1,
{
    let ghost g0 = cells@;
    let ghost q0 = queue@;
    let ghost ny_ = ny as int;
    let ghost nx_ = nx as int;
    let ghost ncell: (int, int) = (ny_, nx_);
    let ghost cap = pot_cap(rows, cols);
    let cur = cells[ny][nx];
    if cur == UNVISITED || nd < cur {
        cells[ny][nx] = nd;
        queue.push_back((ny, nx, nd));
        proof {
            let g1 = cells@;
            let q1 = queue@;
            assert(g1.len() == g0.len());
            assert(g1[ny_]@ == g0[ny_]@.update(nx_, nd));
            assert forall|y: int, x: int| 0 <= y < rows && 0 <= x < cols
                    && !(y == ny_ && x == nx_)
                implies #[trigger] gat(g1, y, x) == gat(g0, y, x) by {
                if y != ny_ {
                    assert(g1[y] == g0[y]);
                } else {
                    assert(g1[y]@[x] == g0[y]@[x]);
                }
            }
            assert(grid_shaped(g1, rows, cols));
            assert(gat(g1, ny_, nx_) == nd as int);
            let dvis: int = if cur == UNVISITED { 1 } else { 0 };
            lemma_grid_visited_update(g0, g1, rows, ny_, nx_);
            lemma_grid_pot_update(g0, g1, rows, ny_, nx_, cap);
            lemma_grid_visited_bounds(g0, rows, cols);
            let vis0 = grid_visited(g0, rows);
            let vis1 = grid_visited(g1, rows);
            assert(vis1 == vis0 + dvis);
            // The new weight of the written cell dropped by at least one.
            if cur == UNVISITED {
                assert(nd as int <= dmax(rows, cols) + vis0 + 1);
                assert(pot_cell(cur, cap) == cap);
                assert((nd as int) < cap);
            }
            assert(pot_cell(nd, cap) <= pot_cell(cur, cap) - 1);
            assert(grid_pot(g1, rows, cap) <= grid_pot(g0, rows, cap) - 1);
            // Bounded values.
            assert forall|y: int, x: int| 0 <= y < rows && 0 <= x < cols
                implies #[trigger] gat(g1, y, x) == UNVISITED as int
                    || (0 <= gat(g1, y, x) <= dmax(rows, cols) + vis1) by {
                if y == ny_ && x == nx_ {
                    if cur != UNVISITED {
                        assert(gat(g0, y, x) == cur as int);
                        assert(cur as int <= dmax(rows, cols) + vis0);
                    }
                } else {
                    assert(gat(g1, y, x) == gat(g0, y, x));
                }
            }
            // Queue entries stay sound, and the new one is.
            assert forall|i: int| 0 <= i < q1.len()
                implies entry_ok(#[trigger] q1[i], g1, rows, cols, srcs) by {
                if i < q0.len() {
                    assert(q1[i] == q0[i]);
                    assert(entry_ok(q0[i], g0, rows, cols, srcs));
                    let e = q0[i];
                    if ecell(e) == ncell {
                        assert(gat(g0, ny_, nx_) != UNVISITED as int);
                        assert(cur != UNVISITED);
                        assert(nd < cur);
                    } else {
                        assert(gat(g1, ecell(e).0, ecell(e).1) == gat(g0, ecell(e).0, ecell(e).1));
                    }
                } else {
                    assert(q1[i] == (ny, nx, nd));
                    assert(gat(g1, ny_, nx_) == nd as int);
                }
            }
            // Lower-bound witnesses.
            assert forall|y: int, x: int| 0 <= y < rows && 0 <= x < cols
                    && #[trigger] gat(g1, y, x) != UNVISITED as int
                implies exists|s: (int, int)| #[trigger] srcs.contains(s)
                    && man_dist(s, (y, x)) <= gat(g1, y, x) by {
                if y == ny_ && x == nx_ {
                    let s = choose|s: (int, int)| #[trigger] srcs.contains(s)
                        && man_dist(s, ncell) <= nd as int;
                    assert(srcs.contains(s) && man_dist(s, (y, x)) <= gat(g1, y, x));
                } else {
                    assert(gat(g0, y, x) == gat(g1, y, x));
                    assert(gat(g0, y, x) != UNVISITED as int);
                }
            }
            // Never above the starting grid.
            assert forall|y: int, x: int| 0 <= y < rows && 0 <= x < cols
                    && gat(f0, y, x) != UNVISITED as int
                implies #[trigger] gat(g1, y, x) != UNVISITED as int
                    && gat(g1, y, x) <= gat(f0, y, x) by {
                assert(gat(g0, y, x) != UNVISITED as int && gat(g0, y, x) <= gat(f0, y, x));
                if y == ny_ && x == nx_ {
                    assert(cur != UNVISITED);
                    assert(nd < cur);
                }
            }
            // Seeds keep distance zero: a seed holds 0 and 0 < nd.
            assert forall|t: (int, int)| #[trigger] seeded.contains(t)
                implies inbp(rows, cols, t) && gat(g1, t.0, t.1) == 0 by {
                assert(gat(g0, t.0, t.1) == 0);
                if t == ncell {
                    assert(cur as int == 0);
                }
            }
            // Slack-or-covered survives the write.
            assert forall|c: (int, int), n: (int, int)|
                inbp(rows, cols, c) && inbp(rows, cols, n) && man_dist(c, n) == 1
                    && !exc.contains(c)
                implies #[trigger] lip_at(g1, c, n) || covered(q1, g1, c) by {
                if c == ncell {
                    let i = q0.len() as int;
                    assert(ecell(q1[i]) == c && edist(q1[i]) == gat(g1, c.0, c.1));
                    assert(covered(q1, g1, c));
                } else {
                    assert(gat(g1, c.0, c.1) == gat(g0, c.0, c.1));
                    assert(lip_at(g0, c, n) || covered(q0, g0, c));
                    if covered(q0, g0, c) {
                        let i = choose|i: int| 0 <= i < q0.len() && ecell(#[trigger] q0[i]) == c
                            && edist(q0[i]) == gat(g0, c.0, c.1);
                        assert(q1[i] == q0[i]);
                        assert(covered(q1, g1, c));
                    } else {
                        if gat(g0, c.0, c.1) != UNVISITED as int {
                            if n == ncell {
                                if cur != UNVISITED {
                                    assert(gat(g0, n.0, n.1) == cur as int);
                                    assert(nd < cur);
                                    assert(lip_at(g1, c, n));
                                } else {
                                    assert(gat(g0, n.0, n.1) == UNVISITED as int);
                                    assert(false);
                                }
                            } else {
                                assert(gat(g1, n.0, n.1) == gat(g0, n.0, n.1));
                                assert(lip_at(g1, c, n));
                            }
                        }
                    }
                }
            }
        }
    } else {
        proof {
            assert(gat(cells@, ny_, nx_) == cur as int);
            assert(cur != UNVISITED && nd >= cur);
        }
    }
}

/// Force a new source cell to distance zero and enqueue it.
fn seed(
    cells: &mut Vec<Vec<i32>>,
    queue: &mut VecDeque<(usize, usize, i32)>,
    ty: usize,
    tx: usize,
    Ghost(rows): Ghost<int>,
    Ghost(cols): Ghost<int>,
    Ghost(srcs): Ghost<Set<(int, int)>>,
    Ghost(f0): Ghost<Seq<Vec<i32>>>,
    Ghost(seeded): Ghost<Set<(int, int)>>,
)
    requires
        1 <= rows,
        1 <= cols,
        rows * cols <= MAX_AREA as int,
        inv_state(old(cells)@, old(queue)@, rows, cols, srcs, f0, seeded, Set::empty()),
        (ty as int) < rows,
        (tx as int) < cols,
        srcs.contains((ty as int, tx as int)),
        forall|y: int, x: int| 0 <= y < rows && 0 <= x < cols
            ==> #[trigger] gat(f0, y, x) == UNVISITED as int || gat(f0, y, x) >= 0,
    ensures
        inv_state(
            final(cells)@,
            final(queue)@,
            rows,
            cols,
            srcs,
            f0,
            seeded.insert((ty as int, tx as int)),
            Set::empty(),
        ),
        grid_visited(old(cells)@, rows) <= grid_visited(final(cells)@, rows),
{
    let ghost g0 = cells@;
    let ghost q0 = queue@;
    let ghost ty_ = ty as int;
    let ghost tx_ = tx as int;
    let ghost tcell: (int, int) = (ty_, tx_);
    let cur = cells[ty][tx];
    cells[ty][tx] = 0;
    queue.push_back((ty, tx, 0));
    proof {
        let g1 = cells@;
        let q1 = queue@;
        assert(g1[ty_]@ == g0[ty_]@.update(tx_, 0));
        assert forall|y: int, x: int| 0 <= y < rows && 0 <= x < cols
                && !(y == ty_ && x == tx_)
            implies #[trigger] gat(g1, y, x) == gat(g0, y, x) by {
            if y != ty_ {
                assert(g1[y] == g0[y]);
            } else {
                assert(g1[y]@[x] == g0[y]@[x]);
            }
        }
        assert(grid_shaped(g1, rows, cols));
        assert(gat(g1, ty_, tx_) == 0);
        lemma_grid_visited_update(g0, g1, rows, ty_, tx_);
        lemma_grid_visited_bounds(g0, rows, cols);
        let vis0 = grid_visited(g0, rows);
        let vis1 = grid_visited(g1, rows);
        assert(vis0 <= vis1);
        // Bounded values.
        assert forall|y: int, x: int| 0 <= y < rows && 0 <= x < cols
            implies #[trigger] gat(g1, y, x) == UNVISITED as int
                || (0 <= gat(g1, y, x) <= dmax(rows, cols) + vis1) by {
            if y == ty_ && x == tx_ {
            } else {
                assert(gat(g1, y, x) == gat(g0, y, x));
            }
        }
        // Queue entries stay sound, and the new one is.
        assert forall|i: int| 0 <= i < q1.len()
            implies entry_ok(#[trigger] q1[i], g1, rows, cols, srcs) by {
            if i < q0.len() {
                assert(q1[i] == q0[i]);
                assert(entry_ok(q0[i], g0, rows, cols, srcs));
                let e = q0[i];
                if ecell(e) == tcell {
                    assert(gat(g1, ty_, tx_) == 0);
                } else {
                    assert(gat(g1, ecell(e).0, ecell(e).1) == gat(g0, ecell(e).0, ecell(e).1));
                }
            } else {
                assert(q1[i] == (ty, tx, 0i32));
                assert(man_dist(tcell, ecell(q1[i])) == 0);
            }
        }
        // Lower-bound witnesses.
        assert forall|y: int, x: int| 0 <= y < rows && 0 <= x < cols
                && #[trigger] gat(g1, y, x) != UNVISITED as int
            implies exists|s: (int, int)| #[trigger] srcs.contains(s)
                && man_dist(s, (y, x)) <= gat(g1, y, x) by {
            if y == ty_ && x == tx_ {
                assert(srcs.contains(tcell) && man_dist(tcell, (y, x)) <= gat(g1, y, x));
            } else {
                assert(gat(g0, y, x) == gat(g1, y, x));
                assert(gat(g0, y, x) != UNVISITED as int);
            }
        }
        // Never above the starting grid.
        assert forall|y: int, x: int| 0 <= y < rows && 0 <= x < cols
                && gat(f0, y, x) != UNVISITED as int
            implies #[trigger] gat(g1, y, x) != UNVISITED as int
                && gat(g1, y, x) <= gat(f0, y, x) by {
            assert(gat(g0, y, x) != UNVISITED as int && gat(g0, y, x) <= gat(f0, y, x));
            if y == ty_ && x == tx_ {
                assert(gat(f0, y, x) >= 0);
            }
        }
        // All seeds, the new one included, sit at zero.
        assert forall|t: (int, int)| #[trigger] seeded.insert(tcell).contains(t)
            implies inbp(rows, cols, t) && gat(g1, t.0, t.1) == 0 by {
            if t == tcell {
            } else {
                assert(seeded.contains(t));
                assert(gat(g0, t.0, t.1) == 0);
                assert(gat(g1, t.0, t.1) == gat(g0, t.0, t.1));
            }
        }
        // Slack-or-covered survives the write.
        assert forall|c: (int, int), n: (int, int)|
            inbp(rows, cols, c) && inbp(rows, cols, n) && man_dist(c, n) == 1
                && !Set::<(int, int)>::empty().contains(c)
            implies #[trigger] lip_at(g1, c, n) || covered(q1, g1, c) by {
            if c == tcell {
                let i = q0.len() as int;
                assert(ecell(q1[i]) == c && edist(q1[i]) == gat(g1, c.0, c.1));
                assert(covered(q1, g1, c));
            } else {
                assert(gat(g1, c.0, c.1) == gat(g0, c.0, c.1));
                assert(lip_at(g0, c, n) || covered(q0, g0, c));
                if covered(q0, g0, c) {
                    let i = choose|i: int| 0 <= i < q0.len() && ecell(#[trigger] q0[i]) == c
                        && edist(q0[i]) == gat(g0, c.0, c.1);
                    assert(q1[i] == q0[i]);
                    assert(covered(q1, g1, c));
                } else {
                    if gat(g0, c.0, c.1) != UNVISITED as int {
                        if n == tcell {
                            assert(gat(g0, n.0, n.1) != UNVISITED as int);
                            assert(gat(g0, n.0, n.1) == cur as int);
                            assert(gat(g1, n.0, n.1) == 0);
                            assert(0 <= cur as int);
                            assert(lip_at(g1, c, n));
                        } else {
                            assert(gat(g1, n.0, n.1) == gat(g0, n.0, n.1));
                            assert(lip_at(g1, c, n));
                        }
                    }
                }
            }
        }
    }
}

/// Restricting a pixel list by one more element grows its in-bounds set by
/// at most that pixel.
pub proof fn lemma_inb_set_take_step(pixels: Seq<(usize, usize)>, k: int, rows: int, cols: int)
    requires
        0 <= k < pixels.len(),
    ensures
        inbp(rows, cols, (pixels[k].0 as int, pixels[k].1 as int))
            ==> inb_set(pixels.take(k + 1), rows, cols)
                =~= inb_set(pixels.take(k), rows, cols)
                    .insert((pixels[k].0 as int, pixels[k].1 as int)),
        !inbp(rows, cols, (pixels[k].0 as int, pixels[k].1 as int))
            ==> inb_set(pixels.take(k + 1), rows, cols) =~= inb_set(pixels.take(k), rows, cols),
{
    let pk: (int, int) = (pixels[k].0 as int, pixels[k].1 as int);
    let s0 = inb_set(pixels.take(k), rows, cols);
    let s1 = inb_set(pixels.take(k + 1), rows, cols);
    assert forall|c: (int, int)| s1.contains(c)
        implies s0.contains(c) || (c == pk && inbp(rows, cols, pk)) by {
        let i = choose|i: int| 0 <= i < pixels.take(k + 1).len()
            && (#[trigger] pixels.take(k + 1)[i]).0 == c.0 && pixels.take(k + 1)[i].1 == c.1;
        if i < k {
            assert(pixels.take(k)[i] == pixels[i]);
            assert(s0.contains(c));
        } else {
            assert(pixels.take(k + 1)[i] == pixels[k]);
        }
    }
    assert forall|c: (int, int)| s0.contains(c) implies s1.contains(c) by {
        let i = choose|i: int| 0 <= i < pixels.take(k).len()
            && (#[trigger] pixels.take(k)[i]).0 == c.0 && pixels.take(k)[i].1 == c.1;
        assert(pixels.take(k + 1)[i] == pixels[i]);
    }
    if inbp(rows, cols, pk) {
        assert(pixels.take(k + 1)[k] == pixels[k]);
        assert(s1.contains(pk));
        assert(s1 =~= s0.insert(pk));
    } else {
        assert(s1 =~= s0);
    }
}

/// At the end of the fill: with no pending entries, the one-step slack
/// condition plus the invariants pin every cell to the exact shortest
/// distance to the combined source set.
#[verifier::rlimit(60)]
proof fn lemma_extend_exact(
    g: Seq<Vec<i32>>,
    rows: int,
    cols: int,
    all: Set<(int, int)>,
    f0: Seq<Vec<i32>>,
    seeded: Set<(int, int)>,
    srcs0: Set<(int, int)>,
)
    requires
        1 <= rows,
        1 <= cols,
        grid_shaped(g, rows, cols),
        full_lip(g, rows, cols),
        inv_lower(g, rows, cols, all),
        inv_upper_old(g, f0, rows, cols),
        inv_seeds(g, rows, cols, seeded),
        all == srcs0.union(seeded),
        forall|s: (int, int)| #[trigger] srcs0.contains(s)
            ==> inbp(rows, cols, s) && gat(f0, s.0, s.1) == 0,
    ensures
        forall|y: int, x: int| 0 <= y < rows && 0 <= x < cols
            ==> dist_ok(all, (y, x), #[trigger] gat(g, y, x)),
        forall|s: (int, int)| #[trigger] all.contains(s) ==> inbp(rows, cols, s),
{
    assert forall|s: (int, int)| #[trigger] all.contains(s)
        implies inbp(rows, cols, s) && gat(g, s.0, s.1) == 0 by {
        if seeded.contains(s) {
        } else {
            assert(srcs0.contains(s));
            assert(gat(f0, s.0, s.1) == 0);
            assert(gat(g, s.0, s.1) != UNVISITED as int && gat(g, s.0, s.1) <= 0);
            let w = choose|w: (int, int)| #[trigger] all.contains(w)
                && man_dist(w, (s.0, s.1)) <= gat(g, s.0, s.1);
            assert(man_dist(w, (s.0, s.1)) >= 0);
        }
    }
    assert forall|y: int, x: int| 0 <= y < rows && 0 <= x < cols
        implies dist_ok(all, (y, x), #[trigger] gat(g, y, x)) by {
        let v = gat(g, y, x);
        assert forall|s: (int, int)| #[trigger] all.contains(s)
            implies man_dist(s, (y, x)) >= v by {
            assert(gat(g, s.0, s.1) == 0);
            lemma_lip_path(g, rows, cols, s, (y, x));
        }
        if v == UNVISITED as int {
            assert forall|s: (int, int)| !(#[trigger] all.contains(s)) by {
                if all.contains(s) {
                    lemma_lip_path(g, rows, cols, s, (y, x));
                }
            }
        } else {
            let s = choose|s: (int, int)| #[trigger] all.contains(s)
                && man_dist(s, (y, x)) <= v;
            assert(all.contains(s) && man_dist(s, (y, x)) == v);
        }
    }
}

/// A dense grid of shortest 4-connected distances from a source set.
///
/// The source set itself is kept as ghost state; `exact()` ties the stored
/// cell values to it.  Fields restored from serialized data keep their raw
/// values without the `exact()` claim.
pub struct DistanceField {
    /// Grid height.
    pub rows: usize,
    /// Grid width.
    pub cols: usize,
    /// Row-major cell values.
    pub cells: Vec<Vec<i32>>,
    /// The pixels the stored distances are measured from.
    pub sources: Ghost<Set<(int, int)>>,
}

impl DistanceField {
    /// The ghost source set.
    pub open spec fn srcs(self) -> Set<(int, int)> {
        self.sources@
    }

    /// Stored distance of cell `(y, x)`.
    pub open spec fn at(self, y: int, x: int) -> int {
        gat(self.cells@, y, x)
    }

    /// `(y, x)` lies inside the grid.
    pub open spec fn inb(self, y: int, x: int) -> bool {
        0 <= y < self.rows && 0 <= x < self.cols
    }

    /// Structural well-formedness: positive bounded dimensions and a
    /// rectangular cell grid.
    pub open spec fn wf(self) -> bool {
        &&& 1 <= self.rows
        &&& 1 <= self.cols
        &&& (self.rows as int) * (self.cols as int) <= MAX_AREA as int
        &&& grid_shaped(self.cells@, self.rows as int, self.cols as int)
    }

    /// The stored values are exactly the shortest distances to `srcs()`.
    pub open spec fn exact(self) -> bool {
        &&& (forall|s: (int, int)| #[trigger] self.srcs().contains(s) ==> self.inb(s.0, s.1))
        &&& (forall|y: int, x: int| self.inb(y, x)
                ==> dist_ok(self.srcs(), (y, x), #[trigger] self.at(y, x)))
    }

    /// A fresh all-`UNVISITED` field with an empty source set.
    pub fn unvisited(rows: usize, cols: usize) -> (f: DistanceField)
        requires
            1 <= rows,
            1 <= cols,
            rows * cols <= MAX_AREA,
        ensures
            f.wf(),
            f.exact(),
            f.rows == rows,
            f.cols == cols,
            f.srcs() === Set::empty(),
            forall|y: int, x: int| f.inb(y, x) ==> #[trigger] f.at(y, x) == UNVISITED as int,
    {
        let mut cells: Vec<Vec<i32>> = Vec::new();
        let mut y: usize = 0;
        while y < rows
            invariant
                y <= rows,
                cells@.len() == y,
                forall|i: int| 0 <= i < y ==> (#[trigger] cells@[i])@.len() == cols,
                forall|i: int, j: int| 0 <= i < y && 0 <= j < cols
                    ==> #[trigger] gat(cells@, i, j) == UNVISITED as int,
            decreases rows - y,
        {
            let mut row: Vec<i32> = Vec::new();
            let mut x: usize = 0;
            while x < cols
                invariant
                    x <= cols,
                    row@.len() == x,
                    forall|j: int| 0 <= j < x ==> row@[j] == UNVISITED,
                decreases cols - x,
            {
                row.push(UNVISITED);
                x = x + 1;
            }
            let ghost prev = cells@;
            cells.push(row);
            proof {
                assert forall|i: int, j: int| 0 <= i < y + 1 && 0 <= j < cols
                    implies #[trigger] gat(cells@, i, j) == UNVISITED as int by {
                    if i < y {
                        assert(gat(prev, i, j) == UNVISITED as int);
                        assert(cells@[i] == prev[i]);
                    } else {
                        assert(cells@[i] == row);
                    }
                }
            }
            y = y + 1;
        }
        DistanceField { rows, cols, cells, sources: Ghost(Set::empty()) }
    }

    /// Extend the field with newly observed source pixels, relaxing stored
    /// distances downward wherever one of the new sources is closer.
    ///
    /// Out-of-bounds pixels are silently ignored.  Afterwards the field is
    /// exact for the union of the old sources and the in-bounds new pixels,
    /// and no cell's distance has increased.
    #[verifier::loop_isolation(false)]
    #[verifier::rlimit(100)]
    pub fn extend(&mut self, new_sources: &Vec<(usize, usize)>)
        requires
            old(self).wf(),
            old(self).exact(),
        ensures
            final(self).wf(),
            final(self).exact(),
            final(self).rows == old(self).rows,
            final(self).cols == old(self).cols,
            final(self).srcs() == old(self).srcs().union(
                inb_set(new_sources@, old(self).rows as int, old(self).cols as int),
            ),
            forall|y: int, x: int| old(self).inb(y, x)
                    && #[trigger] old(self).at(y, x) != UNVISITED as int
                ==> final(self).at(y, x) != UNVISITED as int
                    && final(self).at(y, x) <= old(self).at(y, x),
    {
        let ghost fstart = *self;
        let rows = self.rows;
        let cols = self.cols;
        let ghost rows_ = rows as int;
        let ghost cols_ = cols as int;
        let ghost f0 = self.cells@;
        let ghost srcs0 = self.srcs();
        let ghost tset = inb_set(new_sources@, rows_, cols_);
        let ghost all = srcs0.union(tset);
        let ghost cap = pot_cap(rows_, cols_);
        let mut queue: VecDeque<(usize, usize, i32)> = VecDeque::new();
        proof {
            lemma_exact_full_lip(fstart);
            lemma_grid_visited_bounds(f0, rows_, cols_);
            assert forall|y: int, x: int| 0 <= y < rows_ && 0 <= x < cols_
                implies #[trigger] gat(f0, y, x) == UNVISITED as int
                    || (0 <= gat(f0, y, x) <= dmax(rows_, cols_) + grid_visited(f0, rows_)) by {
                assert(dist_ok(srcs0, (y, x), fstart.at(y, x)));
                let v = gat(f0, y, x);
                if v != UNVISITED as int {
                    let s = choose|s: (int, int)| #[trigger] srcs0.contains(s)
                        && man_dist(s, (y, x)) == v;
                    assert(fstart.inb(s.0, s.1));
                    assert(v <= dmax(rows_, cols_));
                }
            }
            assert forall|y: int, x: int| 0 <= y < rows_ && 0 <= x < cols_
                    && #[trigger] gat(f0, y, x) != UNVISITED as int
                implies exists|s: (int, int)| #[trigger] all.contains(s)
                    && man_dist(s, (y, x)) <= gat(f0, y, x) by {
                assert(dist_ok(srcs0, (y, x), fstart.at(y, x)));
                let s = choose|s: (int, int)| #[trigger] srcs0.contains(s)
                    && man_dist(s, (y, x)) == gat(f0, y, x);
                assert(all.contains(s) && man_dist(s, (y, x)) <= gat(f0, y, x));
            }
            assert forall|t: (int, int)|
                #[trigger] inb_set(new_sources@.take(0), rows_, cols_).contains(t)
                implies inbp(rows_, cols_, t) && gat(f0, t.0, t.1) == 0 by {
                assert(false);
            }
            assert(inv_state(
                f0,
                queue@,
                rows_,
                cols_,
                all,
                f0,
                inb_set(new_sources@.take(0), rows_, cols_),
                Set::empty(),
            ));
        }
        let mut k: usize = 0;
        while k < new_sources.len()
            invariant
                self.rows == rows,
                self.cols == cols,
                rows_ == rows as int,
                cols_ == cols_,
                1 <= rows_,
                1 <= cols_,
                rows_ * cols_ <= MAX_AREA as int,
                k <= new_sources.len(),
                inv_state(
                    self.cells@,
                    queue@,
                    rows_,
                    cols_,
                    all,
                    f0,
                    inb_set(new_sources@.take(k as int), rows_, cols_),
                    Set::empty(),
                ),
                forall|y: int, x: int| 0 <= y < rows_ && 0 <= x < cols_
                    ==> #[trigger] gat(f0, y, x) == UNVISITED as int || gat(f0, y, x) >= 0,
            decreases new_sources.len() - k,
        {
            let p = new_sources[k];
            let ty = p.0;
            let tx = p.1;
            proof {
                lemma_inb_set_take_step(new_sources@, k as int, rows_, cols_);
            }
            if ty < rows && tx < cols {
                proof {
                    assert(tset.contains((ty as int, tx as int))) by {
                        let i = k as int;
                        assert(0 <= i < new_sources@.len()
                            && (#[trigger] new_sources@[i]).0 == ty
                            && new_sources@[i].1 == tx);
                    }
                    assert(all.contains((ty as int, tx as int)));
                }
                seed(
                    &mut self.cells,
                    &mut queue,
                    ty,
                    tx,
                    Ghost(rows_),
                    Ghost(cols_),
                    Ghost(all),
                    Ghost(f0),
                    Ghost(inb_set(new_sources@.take(k as int), rows_, cols_)),
                );
                proof {
                    assert(inb_set(new_sources@.take(k as int + 1), rows_, cols_)
                        == inb_set(new_sources@.take(k as int), rows_, cols_)
                            .insert((ty as int, tx as int)));
                }
            } else {
                proof {
                    assert(inb_set(new_sources@.take(k as int + 1), rows_, cols_)
                        == inb_set(new_sources@.take(k as int), rows_, cols_));
                }
            }
            k = k + 1;
        }
        proof {
            assert(new_sources@.take(new_sources@.len() as int) =~= new_sources@);
            assert(inb_set(new_sources@.take(k as int), rows_, cols_) == tset);
        }
        while queue.len() > 0
            invariant
                self.rows == rows,
                self.cols == cols,
                1 <= rows_,
                1 <= cols_,
                rows_ * cols_ <= MAX_AREA as int,
                rows_ == rows as int,
                cols_ == cols as int,
                inv_state(self.cells@, queue@, rows_, cols_, all, f0, tset, Set::empty()),
            decreases queue@.len() + grid_pot(self.cells@, rows_, cap),
        {
            let ghost g_pre = self.cells@;
            let ghost q_pre = queue@;
            let e = queue.pop_front().unwrap();
            let py = e.0;
            let px = e.1;
            let d = e.2;
            let ghost pcell: (int, int) = (py as int, px as int);
            let ghost exc1 = Set::empty().insert(pcell);
            proof {
                assert(entry_ok(q_pre[0], g_pre, rows_, cols_, all));
                lemma_grid_visited_bounds(g_pre, rows_, cols_);
                assert(rows_ <= rows_ * cols_) by (nonlinear_arith)
                    requires 1 <= rows_ && 1 <= cols_;
                assert(cols_ <= rows_ * cols_) by (nonlinear_arith)
                    requires 1 <= rows_ && 1 <= cols_;
                assert(d as int <= dmax(rows_, cols_) + rows_ * cols_);
                assert(d as int + 1 < i32::MAX as int);
            }
            let nd = d + 1;
            proof {
                // After the pop, every remaining entry is still sound, and
                // every cell but `pcell` keeps its slack-or-covered status.
                let q1 = queue@;
                assert(q1 == q_pre.subrange(1, q_pre.len() as int));
                assert forall|i: int| 0 <= i < q1.len()
                    implies entry_ok(#[trigger] q1[i], g_pre, rows_, cols_, all) by {
                    assert(q1[i] == q_pre[i + 1]);
                }
                assert forall|c: (int, int), n: (int, int)|
                    inbp(rows_, cols_, c) && inbp(rows_, cols_, n) && man_dist(c, n) == 1
                        && !exc1.contains(c)
                    implies #[trigger] lip_at(g_pre, c, n) || covered(q1, g_pre, c) by {
                    assert(c != pcell);
                    assert(lip_at(g_pre, c, n) || covered(q_pre, g_pre, c));
                    if !lip_at(g_pre, c, n) {
                        let i = choose|i: int| 0 <= i < q_pre.len()
                            && ecell(#[trigger] q_pre[i]) == c
                            && edist(q_pre[i]) == gat(g_pre, c.0, c.1);
                        assert(ecell(q_pre[0]) == pcell);
                        assert(i >= 1);
                        assert(q1[i - 1] == q_pre[i]);
                        assert(covered(q1, g_pre, c));
                    }
                }
                assert(inv_state(self.cells@, queue@, rows_, cols_, all, f0, tset, exc1));
            }
            let ghost p_all_lip = forall|n: (int, int)|
                inbp(rows_, cols_, n) && man_dist(pcell, n) == 1
                    ==> #[trigger] lip_at(g_pre, pcell, n);
            let ghost p_cov_rest = covered(queue@, g_pre, pcell);
            let ghost p_active = d as int == gat(g_pre, pcell.0, pcell.1);
            proof {
                if !p_all_lip && !p_cov_rest {
                    let n = choose|n: (int, int)| inbp(rows_, cols_, n)
                        && man_dist(pcell, n) == 1 && !(#[trigger] lip_at(g_pre, pcell, n));
                    assert(lip_at(g_pre, pcell, n) || covered(q_pre, g_pre, pcell));
                    let i = choose|i: int| 0 <= i < q_pre.len()
                        && ecell(#[trigger] q_pre[i]) == pcell
                        && edist(q_pre[i]) == gat(g_pre, pcell.0, pcell.1);
                    if i >= 1 {
                        assert(queue@[i - 1] == q_pre[i]);
                        assert(covered(queue@, g_pre, pcell));
                    }
                    assert(p_active);
                }
                assert(p_all_lip || p_cov_rest || p_active);
            }
            let ghost q_base = queue@;
            // Direction: right.
            if px + 1 < cols {
                proof {
                    let s = choose|s: (int, int)| #[trigger] all.contains(s)
                        && man_dist(s, pcell) <= d as int;
                    assert(all.contains(s)
                        && man_dist(s, (py as int, px as int + 1)) <= nd as int);
                }
                relax(&mut self.cells, &mut queue, py, px + 1, nd, Ghost(rows_), Ghost(cols_),
                    Ghost(all), Ghost(f0), Ghost(tset), Ghost(exc1));
            }
            let ghost g_a = self.cells@;
            let ghost q_a = queue@;
            // Direction: left.
            if px > 0 {
                proof {
                    let s = choose|s: (int, int)| #[trigger] all.contains(s)
                        && man_dist(s, pcell) <= d as int;
                    assert(all.contains(s)
                        && man_dist(s, (py as int, px as int - 1)) <= nd as int);
                }
                relax(&mut self.cells, &mut queue, py, px - 1, nd, Ghost(rows_), Ghost(cols_),
                    Ghost(all), Ghost(f0), Ghost(tset), Ghost(exc1));
            }
            let ghost g_b = self.cells@;
            let ghost q_b = queue@;
            // Direction: down.
            if py + 1 < rows {
                proof {
                    let s = choose|s: (int, int)| #[trigger] all.contains(s)
                        && man_dist(s, pcell) <= d as int;
                    assert(all.contains(s)
                        && man_dist(s, (py as int + 1, px as int)) <= nd as int);
                }
                relax(&mut self.cells, &mut queue, py + 1, px, nd, Ghost(rows_), Ghost(cols_),
                    Ghost(all), Ghost(f0), Ghost(tset), Ghost(exc1));
            }
            let ghost g_c = self.cells@;
            let ghost q_c = queue@;
            // Direction: up.
            if py > 0 {
                proof {
                    let s = choose|s: (int, int)| #[trigger] all.contains(s)
                        && man_dist(s, pcell) <= d as int;
                    assert(all.contains(s)
                        && man_dist(s, (py as int - 1, px as int)) <= nd as int);
                }
                relax(&mut self.cells, &mut queue, py - 1, px, nd, Ghost(rows_), Ghost(cols_),
                    Ghost(all), Ghost(f0), Ghost(tset), Ghost(exc1));
            }
            proof {
                let g_end = self.cells@;
                let q_end = queue@;
                // The processed cell itself was never a write target.
                assert(gat(g_end, pcell.0, pcell.1) == gat(g_pre, pcell.0, pcell.1));
                // Every in-bounds neighbor of `pcell` now lies at or below
                // `nd`, and below its value before the pop.
                assert forall|n: (int, int)| inbp(rows_, cols_, n) && man_dist(pcell, n) == 1
                    implies gat(g_end, n.0, n.1) != UNVISITED as int
                        && gat(g_end, n.0, n.1) <= nd as int
                        && (gat(g_pre, n.0, n.1) != UNVISITED as int
                            ==> gat(g_end, n.0, n.1) <= gat(g_pre, n.0, n.1)) by {
                    if n == (py as int, px as int + 1) {
                        assert(gat(g_a, n.0, n.1) != UNVISITED as int
                            && gat(g_a, n.0, n.1) <= nd as int);
                        assert(gat(g_end, n.0, n.1) == gat(g_a, n.0, n.1));
                    } else if n == (py as int, px as int - 1) {
                        assert(gat(g_a, n.0, n.1) == gat(g_pre, n.0, n.1));
                        assert(gat(g_b, n.0, n.1) != UNVISITED as int
                            && gat(g_b, n.0, n.1) <= nd as int);
                        assert(gat(g_end, n.0, n.1) == gat(g_b, n.0, n.1));
                    } else if n == (py as int + 1, px as int) {
                        assert(gat(g_b, n.0, n.1) == gat(g_pre, n.0, n.1));
                        assert(gat(g_c, n.0, n.1) != UNVISITED as int
                            && gat(g_c, n.0, n.1) <= nd as int);
                        assert(gat(g_end, n.0, n.1) == gat(g_c, n.0, n.1));
                    } else {
                        assert(n == (py as int - 1, px as int));
                        assert(gat(g_c, n.0, n.1) == gat(g_pre, n.0, n.1));
                        assert(gat(g_end, n.0, n.1) != UNVISITED as int
                            && gat(g_end, n.0, n.1) <= nd as int);
                    }
                }
                // Slack is restored at the processed cell, so the unexcused
                // invariant holds again.
                assert forall|c: (int, int), n: (int, int)|
                    inbp(rows_, cols_, c) && inbp(rows_, cols_, n) && man_dist(c, n) == 1
                        && !Set::<(int, int)>::empty().contains(c)
                    implies #[trigger] lip_at(g_end, c, n) || covered(q_end, g_end, c) by {
                    if c == pcell {
                        if p_active {
                            assert(lip_at(g_end, c, n));
                        } else if p_all_lip {
                            assert(lip_at(g_pre, pcell, n));
                            assert(gat(g_pre, pcell.0, pcell.1) != UNVISITED as int);
                            assert(lip_at(g_end, c, n));
                        } else {
                            let i = choose|i: int| 0 <= i < q_base.len()
                                && ecell(#[trigger] q_base[i]) == pcell
                                && edist(q_base[i]) == gat(g_pre, pcell.0, pcell.1);
                            assert(q_a[i] == q_base[i]);
                            assert(q_b[i] == q_base[i]);
                            assert(q_c[i] == q_base[i]);
                            assert(q_end[i] == q_base[i]);
                            assert(covered(q_end, g_end, c));
                        }
                    } else {
                        assert(!exc1.contains(c));
                        assert(lip_at(g_end, c, n) || covered(q_end, g_end, c));
                    }
                }
                assert(inv_state(g_end, q_end, rows_, cols_, all, f0, tset, Set::empty()));
                // The termination measure strictly decreased.
                assert forall|y: int, x: int| 0 <= y < rows_ && 0 <= x < cols_
                    implies (#[trigger] gat(g_end, y, x)) >= UNVISITED as int by {}
                assert forall|i: int, j: int| 0 <= i < rows_
                        && 0 <= j < (#[trigger] g_end[i])@.len()
                    implies (#[trigger] g_end[i]@[j]) as int >= UNVISITED as int by {
                    assert(gat(g_end, i, j) >= UNVISITED as int);
                }
                assert(rows_ * cols_ >= 1) by (nonlinear_arith)
                    requires 1 <= rows_ && 1 <= cols_;
                assert(cap >= 0);
                lemma_grid_pot_nonneg(g_end, rows_, cap);
                assert(q_end.len() + grid_pot(g_end, rows_, cap)
                    < q_pre.len() + grid_pot(g_pre, rows_, cap));
            }
        }
        proof {
            let g_end = self.cells@;
            assert forall|c: (int, int), n: (int, int)|
                inbp(rows_, cols_, c) && inbp(rows_, cols_, n) && man_dist(c, n) == 1
                implies #[trigger] lip_at(g_end, c, n) by {
                assert(!covered(queue@, g_end, c));
                assert(!Set::<(int, int)>::empty().contains(c));
            }
            assert forall|s: (int, int)| #[trigger] srcs0.contains(s)
                implies inbp(rows_, cols_, s) && gat(f0, s.0, s.1) == 0 by {
                lemma_exact_source_zero(fstart, s);
            }
            lemma_extend_exact(self.cells@, rows_, cols_, all, f0, tset, srcs0);
        }
        self.sources = Ghost(all);
    }

    /// Full multi-source flood fill: build the distance field of a pixel
    /// list from scratch.
    ///
    /// Fails with [`EvaluationError::EmptySourceSet`] exactly when the list
    /// is empty; out-of-bounds pixels in a non-empty list are ignored.
    pub fn build(sources: &Vec<(usize, usize)>, rows: usize, cols: usize) -> (r: Result<
        DistanceField,
        EvaluationError,
    >)
        requires
            1 <= rows,
            1 <= cols,
            rows * cols <= MAX_AREA,
        ensures
            match r {
                Result::Ok(f) => {
                    &&& sources@.len() > 0
                    &&& f.wf()
                    &&& f.exact()
                    &&& f.rows == rows
                    &&& f.cols == cols
                    &&& f.srcs() == inb_set(sources@, rows as int, cols as int)
                },
                Result::Err(e) => {
                    &&& e == EvaluationError::EmptySourceSet
                    &&& sources@.len() == 0
                },
            },
    {
        if sources.len() == 0 {
            return Result::Err(EvaluationError::EmptySourceSet);
        }
        let mut f = DistanceField::unvisited(rows, cols);
        f.extend(sources);
        proof {
            assert(Set::empty().union(inb_set(sources@, rows as int, cols as int))
                =~= inb_set(sources@, rows as int, cols as int));
        }
        Result::Ok(f)
    }

    /// Stored distance of an in-bounds cell.
    pub fn distance_at(&self, y: usize, x: usize) -> (r: i32)
        requires
            self.wf(),
            self.inb(y as int, x as int),
        ensures
            r as int == self.at(y as int, x as int),
    {
        self.cells[y][x]
    }
}

/// A distance field is a function of its source set: two exact fields over
/// the same dimensions and the same sources hold identical distances in
/// every cell.
pub proof fn lemma_exact_unique(a: DistanceField, b: DistanceField)
    requires
        a.wf(),
        b.wf(),
        a.exact(),
        b.exact(),
        a.rows == b.rows,
        a.cols == b.cols,
        a.srcs() == b.srcs(),
    ensures
        forall|y: int, x: int| a.inb(y, x) ==> #[trigger] a.at(y, x) == b.at(y, x),
{
    assert forall|y: int, x: int| a.inb(y, x) implies #[trigger] a.at(y, x) == b.at(y, x) by {
        let va = a.at(y, x);
        let vb = b.at(y, x);
        assert(dist_ok(a.srcs(), (y, x), va));
        assert(dist_ok(b.srcs(), (y, x), vb));
        if va == UNVISITED as int {
            if vb != UNVISITED as int {
                let s = choose|s: (int, int)| #[trigger] b.srcs().contains(s)
                    && man_dist(s, (y, x)) == vb;
                assert(!a.srcs().contains(s));
            }
        } else if vb == UNVISITED as int {
            let s = choose|s: (int, int)| #[trigger] a.srcs().contains(s)
                && man_dist(s, (y, x)) == va;
            assert(!b.srcs().contains(s));
        } else {
            let sa = choose|s: (int, int)| #[trigger] a.srcs().contains(s)
                && man_dist(s, (y, x)) == va;
            let sb = choose|s: (int, int)| #[trigger] b.srcs().contains(s)
                && man_dist(s, (y, x)) == vb;
            assert(man_dist(sa, (y, x)) >= vb);
            assert(man_dist(sb, (y, x)) >= va);
        }
    }
}

/// Law: building the field of a pixel list from scratch yields exactly the
/// field obtained by extending an all-unvisited field with the same list.
pub proof fn lemma_build_equals_extend(
    built: DistanceField,
    extended: DistanceField,
    pixels: Seq<(usize, usize)>,
)
    requires
        built.wf(),
        built.exact(),
        extended.wf(),
        extended.exact(),
        built.rows == extended.rows,
        built.cols == extended.cols,
        built.srcs() == inb_set(pixels, built.rows as int, built.cols as int),
        extended.srcs() == Set::empty().union(
            inb_set(pixels, extended.rows as int, extended.cols as int),
        ),
    ensures
        forall|y: int, x: int| built.inb(y, x)
            ==> #[trigger] built.at(y, x) == extended.at(y, x),
{
    assert(extended.srcs() =~= built.srcs());
    lemma_exact_unique(built, extended);
}

/// The in-bounds pixels of a concatenation are the union of the in-bounds
/// pixels of its parts.
pub proof fn lemma_inb_set_concat(a: Seq<(usize, usize)>, b: Seq<(usize, usize)>, rows: int, cols: int)
    ensures
        inb_set(a + b, rows, cols) == inb_set(a, rows, cols).union(inb_set(b, rows, cols)),
{
    let u = inb_set(a, rows, cols).union(inb_set(b, rows, cols));
    assert forall|c: (int, int)| inb_set(a + b, rows, cols).contains(c)
        implies u.contains(c) by {
        let i = choose|i: int| 0 <= i < (a + b).len() && ((a + b)[i]).0 == c.0
            && (#[trigger] (a + b)[i]).1 == c.1;
        if i < a.len() {
            assert((a + b)[i] == a[i]);
            assert(inb_set(a, rows, cols).contains(c));
        } else {
            assert((a + b)[i] == b[i - a.len()]);
            assert(inb_set(b, rows, cols).contains(c));
        }
    }
    assert forall|c: (int, int)| u.contains(c)
        implies inb_set(a + b, rows, cols).contains(c) by {
        if inb_set(a, rows, cols).contains(c) {
            let i = choose|i: int| 0 <= i < a.len() && ((a)[i]).0 == c.0
                && (#[trigger] a[i]).1 == c.1;
            assert((a + b)[i] == a[i]);
        } else {
            let i = choose|i: int| 0 <= i < b.len() && ((b)[i]).0 == c.0
                && (#[trigger] b[i]).1 == c.1;
            assert((a + b)[a.len() + i] == b[i]);
        }
    }
    assert(inb_set(a + b, rows, cols) =~= u);
}

/// Law: feeding the sources in two batches converges to the same field as
/// feeding them all at once: extending first with `b1` and then with `b2`
/// ends in the same distances as one extension with `b1 + b2`.
pub proof fn lemma_batching_consistent(
    batched: DistanceField,
    whole: DistanceField,
    b1: Seq<(usize, usize)>,
    b2: Seq<(usize, usize)>,
)
    requires
        batched.wf(),
        batched.exact(),
        whole.wf(),
        whole.exact(),
        batched.rows == whole.rows,
        batched.cols == whole.cols,
        batched.srcs() == Set::empty().union(
            inb_set(b1, batched.rows as int, batched.cols as int),
        ).union(inb_set(b2, batched.rows as int, batched.cols as int)),
        whole.srcs() == Set::empty().union(
            inb_set(b1 + b2, whole.rows as int, whole.cols as int),
        ),
    ensures
        forall|y: int, x: int| batched.inb(y, x)
            ==> #[trigger] batched.at(y, x) == whole.at(y, x),
{
    lemma_inb_set_concat(b1, b2, batched.rows as int, batched.cols as int);
    assert(batched.srcs() =~= whole.srcs());
    lemma_exact_unique(batched, whole);
}

} // verus!

