//! Aggregation of cross-distances into block maxima and summary statistics.
//!
//! The canvas is partitioned into `gsize x gsize` blocks of `chunk x chunk`
//! cells.  Each block records the worst (largest) cross-distance among the
//! drawn pixels that fall into it, from either side of the comparison.  The
//! primary statistic is the sum of the `K` largest block maxima; the
//! secondary one is the sum and count of all cross-distances.

use vstd::prelude::*;

use vstd::relations::sorted_by;
use vstd::relations::total_ordering;
use vstd::seq_lib::group_to_multiset_ensures;

use crate::distance_field::gat;
use crate::distance_field::grid_shaped;
use crate::distance_field::inbp;
use crate::distance_field::DistanceField;

verus! {

/// Descending order on signed 64-bit values, as a specification relation.
pub open spec fn desc_order() -> spec_fn(i64, i64) -> bool {
    |a: i64, b: i64| a >= b
}

/// Sum of a sequence of signed 64-bit values, as a mathematical integer.
pub open spec fn sum_seq(s: Seq<i64>) -> int
    decreases s.len(),
{
    if s.len() == 0 {
        0
    } else {
        sum_seq(s.drop_last()) + s.last() as int
    }
}

/// Row-major flattening of a grid of rows, widened to 64 bits.
pub open spec fn grid_flat(g: Seq<Vec<i32>>) -> Seq<i64>
    decreases g.len(),
{
    if g.len() == 0 {
        Seq::empty()
    } else {
        grid_flat(g.drop_last()) + g.last()@.map_values(|v: i32| v as i64)
    }
}

/// The sum of the `k` largest values of `vals` (all of them if there are
/// fewer than `k`).
pub open spec fn top_k_total(vals: Seq<i64>, k: int) -> int {
    let sorted = vals.sort_by(desc_order());
    sum_seq(sorted.take(if k <= vals.len() { k } else { vals.len() as int }))
}

/// The descending order is a total ordering.
proof fn lemma_desc_total()
    ensures
        total_ordering(desc_order()),
{
}

/// Two sequences sorted by the same total ordering and holding the same
/// values (as a multiset) are identical.
proof fn lemma_sorted_unique(a: Seq<i64>, b: Seq<i64>, leq: spec_fn(i64, i64) -> bool)
    requires
        total_ordering(leq),
        sorted_by(a, leq),
        sorted_by(b, leq),
        a.to_multiset() == b.to_multiset(),
    ensures
        a == b,
    decreases a.len(),
{
    broadcast use group_to_multiset_ensures;

    a.to_multiset_ensures();
    b.to_multiset_ensures();
    assert(a.len() == b.len());
    if a.len() > 0 {
        assert(a.to_multiset().count(a[0]) > 0);
        assert(b.contains(a[0]));
        assert(b.to_multiset().count(b[0]) > 0);
        assert(a.contains(b[0]));
        let i = choose|i: int| 0 <= i < b.len() && b[i] == a[0];
        let j = choose|j: int| 0 <= j < a.len() && a[j] == b[0];
        if i > 0 {
            assert(leq(b[0], b[i]));
        }
        if j > 0 {
            assert(leq(a[0], a[j]));
        }
        assert(a[0] == b[0]);
        assert(a.drop_first() =~= a.remove(0));
        assert(b.drop_first() =~= b.remove(0));
        assert(a.remove(0).to_multiset() == a.to_multiset().remove(a[0]));
        assert(b.remove(0).to_multiset() == b.to_multiset().remove(b[0]));
        assert forall|p: int, q: int| 0 <= p < q < a.drop_first().len()
            implies #[trigger] leq(a.drop_first()[p], a.drop_first()[q]) by {
            assert(a.drop_first()[p] == a[p + 1] && a.drop_first()[q] == a[q + 1]);
        }
        assert forall|p: int, q: int| 0 <= p < q < b.drop_first().len()
            implies #[trigger] leq(b.drop_first()[p], b.drop_first()[q]) by {
            assert(b.drop_first()[p] == b[p + 1] && b.drop_first()[q] == b[q + 1]);
        }
        lemma_sorted_unique(a.drop_first(), b.drop_first(), leq);
        assert(a =~= seq![a[0]] + a.drop_first());
        assert(b =~= seq![b[0]] + b.drop_first());
    } else {
        assert(a =~= b);
    }
}

/// Sort a vector of values in descending order, in place.
#[verifier::loop_isolation(false)]
fn sort_desc(v: &mut Vec<i64>)
    ensures
        final(v)@.len() == old(v)@.len(),
        sorted_by(final(v)@, desc_order()),
        final(v)@.to_multiset() == old(v)@.to_multiset(),
{
    broadcast use group_to_multiset_ensures;
    broadcast use vstd::seq_lib::to_multiset_update;

    let ghost orig = v@;
    let n = v.len();
    if n == 0 {
        return ;
    }
    let mut i: usize = 1;
    while i < n
        invariant
            1 <= i <= n,
            v@.len() == n,
            v@.to_multiset() == orig.to_multiset(),
            sorted_by(v@.take(i as int), desc_order()),
        decreases n - i,
    {
        proof {
            assert forall|a: int, b: int| #![trigger v@[a], v@[b]] 0 <= a < b < i as int
                implies v@[a] >= v@[b] by {
                assert(desc_order()(v@.take(i as int)[a], v@.take(i as int)[b]));
            }
        }
        let mut j: usize = i;
        while j > 0 && v[j - 1] < v[j]
            invariant
                0 <= j <= i,
                v@.len() == n,
                v@.to_multiset() == orig.to_multiset(),
                // Sorted among the first i+1 values, ignoring position j.
                forall|a: int, b: int| #![trigger v@[a], v@[b]]
                    0 <= a < b <= i as int && a != j as int && b != j as int ==> v@[a] >= v@[b],
                // The value at j dominates everything it has passed.
                forall|b: int| j < b <= i as int ==> v@[j as int] >= #[trigger] v@[b],
            decreases j,
        {
            let ghost w = v@;
            let hi = v[j];
            let lo = v[j - 1];
            v[j - 1] = hi;
            v[j] = lo;
            proof {
                assert(v@ =~= w.update(j as int - 1, hi).update(j as int, lo));
                assert(v@.to_multiset() =~= w.to_multiset());
                assert forall|a: int, b: int| #![trigger v@[a], v@[b]]
                    0 <= a < b <= i as int && a != j as int - 1 && b != j as int - 1
                    implies v@[a] >= v@[b] by {
                    if a == j as int {
                        assert(w[j as int - 1] >= w[b]);
                    } else if b == j as int {
                        assert(w[a] >= w[j as int - 1]);
                    }
                }
            }
            j = j - 1;
        }
        proof {
            assert forall|a: int, b: int| #![trigger v@[a], v@[b]] 0 <= a < b <= i as int
                implies v@[a] >= v@[b] by {
                if b == j as int {
                    if a == j as int - 1 {
                    } else {
                        assert(v@[a] >= v@[j as int - 1]);
                    }
                }
            }
            assert forall|a: int, b: int| 0 <= a < b < (i + 1) as int
                implies #[trigger] desc_order()(v@.take(i as int + 1)[a], v@.take(i as int + 1)[b]) by {
                assert(v@.take(i as int + 1)[a] == v@[a] && v@.take(i as int + 1)[b] == v@[b]);
            }
        }
        i = i + 1;
    }
    proof {
        assert(v@.take(n as int) =~= v@);
    }
}

/// Flatten a grid of rows into one vector, widened to 64 bits.
#[verifier::loop_isolation(false)]
fn flatten_grid(grid: &Vec<Vec<i32>>) -> (flat: Vec<i64>)
    ensures
        flat@ == grid_flat(grid@),
{
    let mut flat: Vec<i64> = Vec::new();
    let mut y: usize = 0;
    while y < grid.len()
        invariant
            y <= grid.len(),
            flat@ == grid_flat(grid@.take(y as int)),
        decreases grid.len() - y,
    {
        let row = &grid[y];
        let ghost base = flat@;
        let mut x: usize = 0;
        while x < row.len()
            invariant
                x <= row.len(),
                row == grid[y as int],
                flat@ == base + row@.map_values(|v: i32| v as i64).take(x as int),
            decreases row.len() - x,
        {
            flat.push(row[x] as i64);
            proof {
                let m = row@.map_values(|v: i32| v as i64);
                assert(m.take(x as int + 1) =~= m.take(x as int).push(m[x as int]));
                assert(flat@ =~= base + m.take(x as int + 1));
            }
            x = x + 1;
        }
        proof {
            let m = row@.map_values(|v: i32| v as i64);
            assert(m.take(row@.len() as int) =~= m);
            assert(grid@.take(y as int + 1).drop_last() =~= grid@.take(y as int));
            assert(grid@.take(y as int + 1).last() == grid@[y as int]);
            assert(flat@ =~= grid_flat(grid@.take(y as int + 1)));
        }
        y = y + 1;
    }
    proof {
        assert(grid@.take(grid@.len() as int) =~= grid@);
    }
    flat
}

/// Sum of the `k` largest cells of a grid (all cells if there are fewer
/// than `k`).
#[verifier::loop_isolation(false)]
pub fn top_k_sum(grid: &Vec<Vec<i32>>, k: usize) -> (r: i64)
    requires
        k <= 0x1000000,
    ensures
        r as int == top_k_total(grid_flat(grid@), k as int),
{
    broadcast use group_to_multiset_ensures;

    let mut flat = flatten_grid(grid);
    let ghost unsorted = flat@;
    sort_desc(&mut flat);
    proof {
        lemma_desc_total();
        unsorted.lemma_sort_by_ensures(desc_order());
        lemma_sorted_unique(flat@, unsorted.sort_by(desc_order()), desc_order());
        // Every element came from an `i32` cell, so partial sums stay small.
        assert forall|t: int| 0 <= t < flat@.len()
            implies i32::MIN as i64 <= #[trigger] flat@[t] <= i32::MAX as i64 by {
            assert(flat@.to_multiset().count(flat@[t]) > 0);
            assert(unsorted.contains(flat@[t]));
            let u = choose|u: int| 0 <= u < unsorted.len() && unsorted[u] == flat@[t];
            lemma_grid_flat_range(grid@, u);
        }
    }
    let take = if k <= flat.len() {
        k
    } else {
        flat.len()
    };
    let mut sum: i64 = 0;
    let mut t: usize = 0;
    while t < take
        invariant
            t <= take,
            take <= flat@.len(),
            take <= k,
            sum as int == sum_seq(flat@.take(t as int)),
            -(t as int) * 0x80000000 <= sum as int <= (t as int) * 0x80000000,
        decreases take - t,
    {
        proof {
            assert(flat@.take(t as int + 1).drop_last() =~= flat@.take(t as int));
            assert(-(t as int + 1) * 0x80000000 == -(t as int) * 0x80000000 - 0x80000000)
                by (nonlinear_arith);
            assert((t as int + 1) * 0x80000000 == (t as int) * 0x80000000 + 0x80000000)
                by (nonlinear_arith);
            assert((t as int) * 0x80000000 <= 0x1000000 * 0x80000000int) by (nonlinear_arith)
                requires 0 <= t as int <= 0x1000000;
            assert(-(0x1000000 * 0x80000000int) <= -((t as int) * 0x80000000)) by (nonlinear_arith)
                requires 0 <= t as int <= 0x1000000;
        }
        sum = sum + flat[t];
        t = t + 1;
    }
    proof {
        assert(flat@ == unsorted.sort_by(desc_order()));
    }
    sum
}

/// One pixel of `pixset` lies in block `(i, j)` and reads value `v` in the
/// cross field.
pub open spec fn contributes(
    pixset: Set<(int, int)>,
    field: DistanceField,
    chunk: int,
    i: int,
    j: int,
    v: int,
) -> bool {
    exists|c: (int, int)| #[trigger] pixset.contains(c)
        && inbp(field.rows as int, field.cols as int, c)
        && c.0 / chunk == i && c.1 / chunk == j
        && field.at(c.0, c.1) == v
}

/// `grid` holds, block by block, the largest cross-distance contributed by
/// either side (never below zero): every contribution is dominated, and
/// every positive cell value is attained by some contributing pixel.
pub open spec fn agg_grid_ok(
    aset: Set<(int, int)>,
    afield: DistanceField,
    bset: Set<(int, int)>,
    bfield: DistanceField,
    chunk: int,
    gsize: int,
    grid: Seq<Vec<i32>>,
) -> bool {
    &&& grid_shaped(grid, gsize, gsize)
    &&& (forall|i: int, j: int| 0 <= i < gsize && 0 <= j < gsize ==> #[trigger] gat(grid, i, j) >= 0)
    &&& (forall|c: (int, int)| (#[trigger] aset.contains(c))
            && inbp(afield.rows as int, afield.cols as int, c)
            && 0 <= c.0 / chunk < gsize && 0 <= c.1 / chunk < gsize
        ==> afield.at(c.0, c.1) <= gat(grid, c.0 / chunk, c.1 / chunk))
    &&& (forall|c: (int, int)| (#[trigger] bset.contains(c))
            && inbp(bfield.rows as int, bfield.cols as int, c)
            && 0 <= c.0 / chunk < gsize && 0 <= c.1 / chunk < gsize
        ==> bfield.at(c.0, c.1) <= gat(grid, c.0 / chunk, c.1 / chunk))
    &&& (forall|i: int, j: int| 0 <= i < gsize && 0 <= j < gsize
        ==> #[trigger] gat(grid, i, j) == 0
            || contributes(aset, afield, chunk, i, j, gat(grid, i, j))
            || contributes(bset, bfield, chunk, i, j, gat(grid, i, j)))
}

/// An all-zero `gsize x gsize` grid.
fn zero_grid(gsize: usize) -> (grid: Vec<Vec<i32>>)
    requires
        1 <= gsize,
    ensures
        grid_shaped(grid@, gsize as int, gsize as int),
        forall|i: int, j: int| 0 <= i < gsize && 0 <= j < gsize
            ==> #[trigger] gat(grid@, i, j) == 0,
{
    let mut grid: Vec<Vec<i32>> = Vec::new();
    let mut y: usize = 0;
    while y < gsize
        invariant
            y <= gsize,
            grid@.len() == y,
            forall|i: int| 0 <= i < y ==> (#[trigger] grid@[i])@.len() == gsize,
            forall|i: int, j: int| 0 <= i < y && 0 <= j < gsize ==> #[trigger] gat(grid@, i, j) == 0,
        decreases gsize - y,
    {
        let mut row: Vec<i32> = Vec::new();
        let mut x: usize = 0;
        while x < gsize
            invariant
                x <= gsize,
                row@.len() == x,
                forall|j: int| 0 <= j < x ==> row@[j] == 0i32,
            decreases gsize - x,
        {
            row.push(0);
            x = x + 1;
        }
        let ghost prev = grid@;
        grid.push(row);
        proof {
            assert forall|i: int, j: int| 0 <= i < y + 1 && 0 <= j < gsize
                implies #[trigger] gat(grid@, i, j) == 0 by {
                if i < y {
                    assert(gat(prev, i, j) == 0);
                    assert(grid@[i] == prev[i]);
                } else {
                    assert(grid@[i] == row);
                }
            }
        }
        y = y + 1;
    }
    grid
}

/// Fold one side's pixels into the running block maxima.
#[verifier::loop_isolation(false)]
#[verifier::rlimit(60)]
fn accumulate_side(
    grid: &mut Vec<Vec<i32>>,
    pixels: &Vec<(usize, usize)>,
    field: &DistanceField,
    chunk: usize,
    gsize: usize,
    Ghost(oset): Ghost<Set<(int, int)>>,
    Ghost(ofield): Ghost<DistanceField>,
)
    requires
        field.wf(),
        1 <= chunk,
        1 <= gsize,
        agg_grid_ok(
            oset,
            ofield,
            Set::empty(),
            *field,
            chunk as int,
            gsize as int,
            old(grid)@,
        ),
    ensures
        agg_grid_ok(
            oset,
            ofield,
            crate::distance_field::inb_set(pixels@, field.rows as int, field.cols as int),
            *field,
            chunk as int,
            gsize as int,
            final(grid)@,
        ),
{
    let ghost rows_ = field.rows as int;
    let ghost cols_ = field.cols as int;
    let ghost chunk_ = chunk as int;
    let ghost gsize_ = gsize as int;
    let mut t: usize = 0;
    while t < pixels.len()
        invariant
            t <= pixels.len(),
            agg_grid_ok(
                oset,
                ofield,
                crate::distance_field::inb_set(pixels@.take(t as int), rows_, cols_),
                *field,
                chunk_,
                gsize_,
                grid@,
            ),
        decreases pixels.len() - t,
    {
        let p = pixels[t];
        let y = p.0;
        let x = p.1;
        let ghost set0 = crate::distance_field::inb_set(pixels@.take(t as int), rows_, cols_);
        let ghost set1 = crate::distance_field::inb_set(pixels@.take(t as int + 1), rows_, cols_);
        proof {
            crate::distance_field::lemma_inb_set_take_step(pixels@, t as int, rows_, cols_);
        }
        if y < field.rows && x < field.cols {
            let gy = y / chunk;
            let gx = x / chunk;
            proof {
                assert(set1 == set0.insert((y as int, x as int)));
            }
            if gy < gsize && gx < gsize {
                let e = field.distance_at(y, x);
                let cur = grid[gy][gx];
                if e > cur {
                    let ghost g0 = grid@;
                    grid[gy][gx] = e;
                    proof {
                        assert(grid@[gy as int]@ == g0[gy as int]@.update(gx as int, e));
                        assert forall|i: int, j: int| 0 <= i < gsize_ && 0 <= j < gsize_
                                && !(i == gy as int && j == gx as int)
                            implies #[trigger] gat(grid@, i, j) == gat(g0, i, j) by {
                            if i != gy as int {
                                assert(grid@[i] == g0[i]);
                            } else {
                                assert(grid@[i]@[j] == g0[i]@[j]);
                            }
                        }
                        assert(gat(grid@, gy as int, gx as int) == e as int);
                        lemma_agg_step_write(
                            set0, set1, oset, ofield, *field, chunk_, gsize_, g0, grid@,
                            (y as int, x as int), e as int,
                        );
                    }
                } else {
                    proof {
                        lemma_agg_step_nowrite(
                            set0, set1, oset, ofield, *field, chunk_, gsize_, grid@,
                            (y as int, x as int),
                        );
                    }
                }
            } else {
                proof {
                    lemma_agg_step_outside(
                        set0, set1, oset, ofield, *field, chunk_, gsize_, grid@,
                        (y as int, x as int),
                    );
                }
            }
        } else {
            proof {
                assert(set1 == set0);
            }
        }
        t = t + 1;
    }
    proof {
        assert(pixels@.take(pixels@.len() as int) =~= pixels@);
    }
}

/// Growing the pixel set by a pixel whose block got its value written.
proof fn lemma_agg_step_write(
    set0: Set<(int, int)>,
    set1: Set<(int, int)>,
    oset: Set<(int, int)>,
    ofield: DistanceField,
    field: DistanceField,
    chunk: int,
    gsize: int,
    g0: Seq<Vec<i32>>,
    g1: Seq<Vec<i32>>,
    c: (int, int),
    e: int,
)
    requires
        1 <= chunk,
        agg_grid_ok(oset, ofield, set0, field, chunk, gsize, g0),
        set1 == set0.insert(c),
        inbp(field.rows as int, field.cols as int, c),
        0 <= c.0 / chunk < gsize,
        0 <= c.1 / chunk < gsize,
        field.at(c.0, c.1) == e,
        e > gat(g0, c.0 / chunk, c.1 / chunk),
        g1.len() == g0.len(),
        forall|i: int, j: int| 0 <= i < gsize && 0 <= j < gsize
                && !(i == c.0 / chunk && j == c.1 / chunk)
            ==> #[trigger] gat(g1, i, j) == gat(g0, i, j),
        gat(g1, c.0 / chunk, c.1 / chunk) == e,
        grid_shaped(g1, gsize, gsize),
    ensures
        agg_grid_ok(oset, ofield, set1, field, chunk, gsize, g1),
{
    let bi = c.0 / chunk;
    let bj = c.1 / chunk;
    assert forall|i: int, j: int| 0 <= i < gsize && 0 <= j < gsize
        implies #[trigger] gat(g1, i, j) >= 0 by {
        if !(i == bi && j == bj) {
            assert(gat(g1, i, j) == gat(g0, i, j));
        }
    }
    assert forall|w: (int, int)| (#[trigger] oset.contains(w))
            && inbp(ofield.rows as int, ofield.cols as int, w)
            && 0 <= w.0 / chunk < gsize && 0 <= w.1 / chunk < gsize
        implies ofield.at(w.0, w.1) <= gat(g1, w.0 / chunk, w.1 / chunk) by {
        if !(w.0 / chunk == bi && w.1 / chunk == bj) {
            assert(gat(g1, w.0 / chunk, w.1 / chunk) == gat(g0, w.0 / chunk, w.1 / chunk));
        }
    }
    assert forall|w: (int, int)| (#[trigger] set1.contains(w))
            && inbp(field.rows as int, field.cols as int, w)
            && 0 <= w.0 / chunk < gsize && 0 <= w.1 / chunk < gsize
        implies field.at(w.0, w.1) <= gat(g1, w.0 / chunk, w.1 / chunk) by {
        if w == c {
        } else {
            assert(set0.contains(w));
            if !(w.0 / chunk == bi && w.1 / chunk == bj) {
                assert(gat(g1, w.0 / chunk, w.1 / chunk) == gat(g0, w.0 / chunk, w.1 / chunk));
            }
        }
    }
    assert forall|i: int, j: int| 0 <= i < gsize && 0 <= j < gsize
        implies #[trigger] gat(g1, i, j) == 0
            || contributes(set1, field, chunk, i, j, gat(g1, i, j))
            || contributes(oset, ofield, chunk, i, j, gat(g1, i, j)) by {
        if i == bi && j == bj {
            assert(set1.contains(c));
            assert(contributes(set1, field, chunk, i, j, gat(g1, i, j)));
        } else {
            assert(gat(g1, i, j) == gat(g0, i, j));
            if gat(g0, i, j) != 0 {
                if contributes(set0, field, chunk, i, j, gat(g0, i, j)) {
                    let w = choose|w: (int, int)| #[trigger] set0.contains(w)
                        && inbp(field.rows as int, field.cols as int, w)
                        && w.0 / chunk == i && w.1 / chunk == j
                        && field.at(w.0, w.1) == gat(g0, i, j);
                    assert(set1.contains(w));
                    assert(contributes(set1, field, chunk, i, j, gat(g1, i, j)));
                } else {
                    assert(contributes(oset, ofield, chunk, i, j, gat(g0, i, j)));
                }
            }
        }
    }
}

/// Growing the pixel set by a pixel whose block already dominates it.
proof fn lemma_agg_step_nowrite(
    set0: Set<(int, int)>,
    set1: Set<(int, int)>,
    oset: Set<(int, int)>,
    ofield: DistanceField,
    field: DistanceField,
    chunk: int,
    gsize: int,
    g: Seq<Vec<i32>>,
    c: (int, int),
)
    requires
        1 <= chunk,
        agg_grid_ok(oset, ofield, set0, field, chunk, gsize, g),
        set1 == set0.insert(c),
        inbp(field.rows as int, field.cols as int, c),
        0 <= c.0 / chunk < gsize,
        0 <= c.1 / chunk < gsize,
        field.at(c.0, c.1) <= gat(g, c.0 / chunk, c.1 / chunk),
    ensures
        agg_grid_ok(oset, ofield, set1, field, chunk, gsize, g),
{
    assert forall|w: (int, int)| (#[trigger] set1.contains(w))
            && inbp(field.rows as int, field.cols as int, w)
            && 0 <= w.0 / chunk < gsize && 0 <= w.1 / chunk < gsize
        implies field.at(w.0, w.1) <= gat(g, w.0 / chunk, w.1 / chunk) by {
        if w != c {
            assert(set0.contains(w));
        }
    }
    assert forall|i: int, j: int| 0 <= i < gsize && 0 <= j < gsize
        implies #[trigger] gat(g, i, j) == 0
            || contributes(set1, field, chunk, i, j, gat(g, i, j))
            || contributes(oset, ofield, chunk, i, j, gat(g, i, j)) by {
        if gat(g, i, j) != 0 && contributes(set0, field, chunk, i, j, gat(g, i, j)) {
            let w = choose|w: (int, int)| #[trigger] set0.contains(w)
                && inbp(field.rows as int, field.cols as int, w)
                && w.0 / chunk == i && w.1 / chunk == j && field.at(w.0, w.1) == gat(g, i, j);
            assert(set1.contains(w));
        }
    }
}

/// Growing the pixel set by a pixel whose block lies outside the grid.
proof fn lemma_agg_step_outside(
    set0: Set<(int, int)>,
    set1: Set<(int, int)>,
    oset: Set<(int, int)>,
    ofield: DistanceField,
    field: DistanceField,
    chunk: int,
    gsize: int,
    g: Seq<Vec<i32>>,
    c: (int, int),
)
    requires
        1 <= chunk,
        agg_grid_ok(oset, ofield, set0, field, chunk, gsize, g),
        set1 == set0.insert(c),
        inbp(field.rows as int, field.cols as int, c),
        !(0 <= c.0 / chunk < gsize && 0 <= c.1 / chunk < gsize),
    ensures
        agg_grid_ok(oset, ofield, set1, field, chunk, gsize, g),
{
    assert forall|w: (int, int)| (#[trigger] set1.contains(w))
            && inbp(field.rows as int, field.cols as int, w)
            && 0 <= w.0 / chunk < gsize && 0 <= w.1 / chunk < gsize
        implies field.at(w.0, w.1) <= gat(g, w.0 / chunk, w.1 / chunk) by {
        if w != c {
            assert(set0.contains(w));
        }
    }
    assert forall|i: int, j: int| 0 <= i < gsize && 0 <= j < gsize
        implies #[trigger] gat(g, i, j) == 0
            || contributes(set1, field, chunk, i, j, gat(g, i, j))
            || contributes(oset, ofield, chunk, i, j, gat(g, i, j)) by {
        if gat(g, i, j) != 0 && contributes(set0, field, chunk, i, j, gat(g, i, j)) {
            let w = choose|w: (int, int)| #[trigger] set0.contains(w)
                && inbp(field.rows as int, field.cols as int, w)
                && w.0 / chunk == i && w.1 / chunk == j && field.at(w.0, w.1) == gat(g, i, j);
            assert(set1.contains(w));
        }
    }
}

/// Build the block-maxima grid: each cell holds the worst cross-distance of
/// the pixels, from either side, that fall into its block.
pub fn aggregate_grid(
    apixels: &Vec<(usize, usize)>,
    afield: &DistanceField,
    bpixels: &Vec<(usize, usize)>,
    bfield: &DistanceField,
    chunk: usize,
    gsize: usize,
) -> (grid: Vec<Vec<i32>>)
    requires
        afield.wf(),
        bfield.wf(),
        1 <= chunk,
        1 <= gsize,
    ensures
        agg_grid_ok(
            crate::distance_field::inb_set(apixels@, afield.rows as int, afield.cols as int),
            *afield,
            crate::distance_field::inb_set(bpixels@, bfield.rows as int, bfield.cols as int),
            *bfield,
            chunk as int,
            gsize as int,
            grid@,
        ),
{
    let ghost aset = crate::distance_field::inb_set(
        apixels@,
        afield.rows as int,
        afield.cols as int,
    );
    let mut grid = zero_grid(gsize);
    proof {
        assert(agg_grid_ok(
            Set::empty(),
            *bfield,
            Set::empty(),
            *afield,
            chunk as int,
            gsize as int,
            grid@,
        ));
    }
    accumulate_side(&mut grid, apixels, afield, chunk, gsize, Ghost(Set::empty()), Ghost(*bfield));
    proof {
        lemma_agg_swap(Set::empty(), *bfield, aset, *afield, chunk as int, gsize as int, grid@);
        lemma_agg_empty_other(aset, *afield, *bfield, chunk as int, gsize as int, grid@);
    }
    accumulate_side(&mut grid, bpixels, bfield, chunk, gsize, Ghost(aset), Ghost(*afield));
    grid
}

/// The two sides of the block-maxima predicate are symmetric.
proof fn lemma_agg_swap(
    aset: Set<(int, int)>,
    afield: DistanceField,
    bset: Set<(int, int)>,
    bfield: DistanceField,
    chunk: int,
    gsize: int,
    g: Seq<Vec<i32>>,
)
    requires
        agg_grid_ok(aset, afield, bset, bfield, chunk, gsize, g),
    ensures
        agg_grid_ok(bset, bfield, aset, afield, chunk, gsize, g),
{
}

/// An empty side can be replaced by any field.
proof fn lemma_agg_empty_other(
    aset: Set<(int, int)>,
    afield: DistanceField,
    other: DistanceField,
    chunk: int,
    gsize: int,
    g: Seq<Vec<i32>>,
)
    requires
        agg_grid_ok(aset, afield, Set::empty(), afield, chunk, gsize, g),
    ensures
        agg_grid_ok(aset, afield, Set::empty(), other, chunk, gsize, g),
{
    assert forall|i: int, j: int| 0 <= i < gsize && 0 <= j < gsize
        implies #[trigger] gat(g, i, j) == 0
            || contributes(Set::empty(), other, chunk, i, j, gat(g, i, j))
            || contributes(aset, afield, chunk, i, j, gat(g, i, j)) by {
        assert(gat(g, i, j) == 0
            || contributes(Set::empty(), afield, chunk, i, j, gat(g, i, j))
            || contributes(aset, afield, chunk, i, j, gat(g, i, j)));
    }
}

/// Sum of the cross-distances read by the in-bounds pixels of a list.
pub open spec fn dist_sum(pixels: Seq<(usize, usize)>, field: DistanceField) -> int
    decreases pixels.len(),
{
    if pixels.len() == 0 {
        0
    } else {
        dist_sum(pixels.drop_last(), field) + {
            let p = pixels.last();
            if (p.0 as int) < field.rows as int && (p.1 as int) < field.cols as int {
                field.at(p.0 as int, p.1 as int)
            } else {
                0
            }
        }
    }
}

/// Number of in-bounds pixels of a list.
pub open spec fn dist_count(pixels: Seq<(usize, usize)>, field: DistanceField) -> int
    decreases pixels.len(),
{
    if pixels.len() == 0 {
        0
    } else {
        dist_count(pixels.drop_last(), field) + {
            let p = pixels.last();
            if (p.0 as int) < field.rows as int && (p.1 as int) < field.cols as int {
                1int
            } else {
                0int
            }
        }
    }
}

/// Accumulate the cross-distances of a pixel list against a field,
/// skipping out-of-bounds pixels.
#[verifier::loop_isolation(false)]
pub fn sum_distances(pixels: &Vec<(usize, usize)>, field: &DistanceField) -> (r: (i64, usize))
    requires
        field.wf(),
        pixels@.len() <= 0x7fffffff,
    ensures
        r.0 as int == dist_sum(pixels@, *field),
        r.1 as int == dist_count(pixels@, *field),
{
    let mut sum: i64 = 0;
    let mut count: usize = 0;
    let mut t: usize = 0;
    while t < pixels.len()
        invariant
            t <= pixels.len(),
            sum as int == dist_sum(pixels@.take(t as int), *field),
            count as int == dist_count(pixels@.take(t as int), *field),
            count <= t,
            -(t as int) * 0x80000000 <= sum as int <= (t as int) * 0x80000000,
        decreases pixels.len() - t,
    {
        let p = pixels[t];
        proof {
            assert(pixels@.take(t as int + 1).drop_last() =~= pixels@.take(t as int));
            assert(pixels@.take(t as int + 1).last() == p);
            assert(-(t as int + 1) * 0x80000000 == -(t as int) * 0x80000000 - 0x80000000)
                by (nonlinear_arith);
            assert((t as int + 1) * 0x80000000 == (t as int) * 0x80000000 + 0x80000000)
                by (nonlinear_arith);
            assert((t as int) * 0x80000000 <= 0x7fffffff * 0x80000000int) by (nonlinear_arith)
                requires 0 <= t as int <= 0x7fffffff;
            assert(-(0x7fffffff * 0x80000000int) <= -((t as int) * 0x80000000))
                by (nonlinear_arith)
                requires 0 <= t as int <= 0x7fffffff;
        }
        if p.0 < field.rows && p.1 < field.cols {
            let e = field.distance_at(p.0, p.1);
            sum = sum + e as i64;
            count = count + 1;
        }
        t = t + 1;
    }
    proof {
        assert(pixels@.take(pixels@.len() as int) =~= pixels@);
    }
    (sum, count)
}

/// Block maxima are a function of the pixel sets and field values: two
/// grids that both satisfy the predicate for the same inputs are equal cell
/// for cell.
pub proof fn lemma_agg_unique(
    aset: Set<(int, int)>,
    afield: DistanceField,
    bset: Set<(int, int)>,
    bfield: DistanceField,
    chunk: int,
    gsize: int,
    g1: Seq<Vec<i32>>,
    g2: Seq<Vec<i32>>,
)
    requires
        1 <= chunk,
        agg_grid_ok(aset, afield, bset, bfield, chunk, gsize, g1),
        agg_grid_ok(aset, afield, bset, bfield, chunk, gsize, g2),
    ensures
        forall|i: int, j: int| 0 <= i < gsize && 0 <= j < gsize
            ==> #[trigger] gat(g1, i, j) == gat(g2, i, j),
{
    assert forall|i: int, j: int| 0 <= i < gsize && 0 <= j < gsize
        implies #[trigger] gat(g1, i, j) == gat(g2, i, j) by {
        lemma_agg_cell_le(aset, afield, bset, bfield, chunk, gsize, g1, g2, i, j);
        lemma_agg_cell_le(aset, afield, bset, bfield, chunk, gsize, g2, g1, i, j);
    }
}

proof fn lemma_agg_cell_le(
    aset: Set<(int, int)>,
    afield: DistanceField,
    bset: Set<(int, int)>,
    bfield: DistanceField,
    chunk: int,
    gsize: int,
    g1: Seq<Vec<i32>>,
    g2: Seq<Vec<i32>>,
    i: int,
    j: int,
)
    requires
        1 <= chunk,
        0 <= i < gsize,
        0 <= j < gsize,
        agg_grid_ok(aset, afield, bset, bfield, chunk, gsize, g1),
        agg_grid_ok(aset, afield, bset, bfield, chunk, gsize, g2),
    ensures
        gat(g1, i, j) <= gat(g2, i, j),
{
    if gat(g1, i, j) != 0 {
        if contributes(aset, afield, chunk, i, j, gat(g1, i, j)) {
            let w = choose|w: (int, int)| #[trigger] aset.contains(w)
                && inbp(afield.rows as int, afield.cols as int, w)
                && w.0 / chunk == i && w.1 / chunk == j
                && afield.at(w.0, w.1) == gat(g1, i, j);
            assert(afield.at(w.0, w.1) <= gat(g2, i, j));
        } else {
            let w = choose|w: (int, int)| #[trigger] bset.contains(w)
                && inbp(bfield.rows as int, bfield.cols as int, w)
                && w.0 / chunk == i && w.1 / chunk == j
                && bfield.at(w.0, w.1) == gat(g1, i, j);
            assert(bfield.at(w.0, w.1) <= gat(g2, i, j));
        }
    }
}

/// Distance sums read only the field's dimensions and cell values, so they
/// transfer between fields that agree on both.
pub proof fn lemma_dist_sum_field_transfer(
    pixels: Seq<(usize, usize)>,
    f1: DistanceField,
    f2: DistanceField,
)
    requires
        f1.rows == f2.rows,
        f1.cols == f2.cols,
        forall|y: int, x: int| 0 <= y < f1.rows as int && 0 <= x < f1.cols as int
            ==> #[trigger] f1.at(y, x) == f2.at(y, x),
    ensures
        dist_sum(pixels, f1) == dist_sum(pixels, f2),
        dist_count(pixels, f1) == dist_count(pixels, f2),
    decreases pixels.len(),
{
    if pixels.len() > 0 {
        lemma_dist_sum_field_transfer(pixels.drop_last(), f1, f2);
    }
}

/// Flattening reads only the row views, so it transfers between grids whose
/// rows hold the same values.
pub proof fn lemma_grid_flat_pointwise(g1: Seq<Vec<i32>>, g2: Seq<Vec<i32>>)
    requires
        g1.len() == g2.len(),
        forall|y: int| 0 <= y < g1.len() ==> (#[trigger] g1[y])@ == g2[y]@,
    ensures
        grid_flat(g1) == grid_flat(g2),
    decreases g1.len(),
{
    if g1.len() > 0 {
        lemma_grid_flat_pointwise(g1.drop_last(), g2.drop_last());
        assert(g1.last()@ == g2.last()@);
    }
}

/// The block-maxima predicate reads only the fields' dimensions and cell
/// values, so it transfers between fields that agree on both.
pub proof fn lemma_agg_field_transfer(
    aset: Set<(int, int)>,
    af1: DistanceField,
    af2: DistanceField,
    bset: Set<(int, int)>,
    bf1: DistanceField,
    bf2: DistanceField,
    chunk: int,
    gsize: int,
    g: Seq<Vec<i32>>,
)
    requires
        agg_grid_ok(aset, af1, bset, bf1, chunk, gsize, g),
        af1.rows == af2.rows,
        af1.cols == af2.cols,
        bf1.rows == bf2.rows,
        bf1.cols == bf2.cols,
        forall|y: int, x: int| 0 <= y < af1.rows as int && 0 <= x < af1.cols as int
            ==> #[trigger] af1.at(y, x) == af2.at(y, x),
        forall|y: int, x: int| 0 <= y < bf1.rows as int && 0 <= x < bf1.cols as int
            ==> #[trigger] bf1.at(y, x) == bf2.at(y, x),
    ensures
        agg_grid_ok(aset, af2, bset, bf2, chunk, gsize, g),
{
    assert forall|c: (int, int)| (#[trigger] aset.contains(c))
            && inbp(af2.rows as int, af2.cols as int, c)
            && 0 <= c.0 / chunk < gsize && 0 <= c.1 / chunk < gsize
        implies af2.at(c.0, c.1) <= gat(g, c.0 / chunk, c.1 / chunk) by {
        assert(af1.at(c.0, c.1) == af2.at(c.0, c.1));
    }
    assert forall|c: (int, int)| (#[trigger] bset.contains(c))
            && inbp(bf2.rows as int, bf2.cols as int, c)
            && 0 <= c.0 / chunk < gsize && 0 <= c.1 / chunk < gsize
        implies bf2.at(c.0, c.1) <= gat(g, c.0 / chunk, c.1 / chunk) by {
        assert(bf1.at(c.0, c.1) == bf2.at(c.0, c.1));
    }
    assert forall|i: int, j: int| 0 <= i < gsize && 0 <= j < gsize
        implies #[trigger] gat(g, i, j) == 0
            || contributes(aset, af2, chunk, i, j, gat(g, i, j))
            || contributes(bset, bf2, chunk, i, j, gat(g, i, j)) by {
        if gat(g, i, j) != 0 {
            if contributes(aset, af1, chunk, i, j, gat(g, i, j)) {
                let w = choose|w: (int, int)| #[trigger] aset.contains(w)
                    && inbp(af1.rows as int, af1.cols as int, w)
                    && w.0 / chunk == i && w.1 / chunk == j
                    && af1.at(w.0, w.1) == gat(g, i, j);
                assert(af2.at(w.0, w.1) == af1.at(w.0, w.1));
                assert(contributes(aset, af2, chunk, i, j, gat(g, i, j)));
            } else {
                let w = choose|w: (int, int)| #[trigger] bset.contains(w)
                    && inbp(bf1.rows as int, bf1.cols as int, w)
                    && w.0 / chunk == i && w.1 / chunk == j
                    && bf1.at(w.0, w.1) == gat(g, i, j);
                assert(bf2.at(w.0, w.1) == bf1.at(w.0, w.1));
                assert(contributes(bset, bf2, chunk, i, j, gat(g, i, j)));
            }
        }
    }
}

/// Every value of a flattened grid fits in 32 bits.
proof fn lemma_grid_flat_range(g: Seq<Vec<i32>>, u: int)
    requires
        0 <= u < grid_flat(g).len(),
    ensures
        i32::MIN as i64 <= grid_flat(g)[u] <= i32::MAX as i64,
    decreases g.len(),
{
    if g.len() > 0 {
        let prefix = grid_flat(g.drop_last());
        let m = g.last()@.map_values(|v: i32| v as i64);
        if u < prefix.len() {
            lemma_grid_flat_range(g.drop_last(), u);
        } else {
            assert(grid_flat(g)[u] == m[u - prefix.len()]);
        }
    }
}

} // verus!
