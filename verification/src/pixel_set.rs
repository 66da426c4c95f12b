//! Deduplicating collection of drawn pixel coordinates.
//!
//! A [`PixelSet`] records which canvas cells have been drawn so far.  It
//! tolerates repeated insertions and silently drops out-of-bounds
//! coordinates; lookups are O(1) through a dense presence grid, while the
//! distinct in-bounds pixels are also kept as a list in insertion order.

use vstd::prelude::*;

use crate::distance_field::inb_set;
use crate::MAX_AREA;

verus! {

/// Presence flag of a boolean grid cell.
pub open spec fn gatb(g: Seq<Vec<bool>>, y: int, x: int) -> bool {
    g[y]@[x]
}

/// The coordinates of `coords` that are inside the grid and not yet in
/// `base`, in caller order, each kept only at its first occurrence.
pub open spec fn fresh_subseq(
    coords: Seq<(usize, usize)>,
    base: Set<(int, int)>,
    rows: int,
    cols: int,
) -> Seq<(usize, usize)>
    decreases coords.len(),
{
    if coords.len() == 0 {
        Seq::empty()
    } else {
        let c = coords[0];
        if 0 <= c.0 < rows && 0 <= c.1 < cols && !base.contains((c.0 as int, c.1 as int)) {
            seq![c] + fresh_subseq(
                coords.drop_first(),
                base.insert((c.0 as int, c.1 as int)),
                rows,
                cols,
            )
        } else {
            fresh_subseq(coords.drop_first(), base, rows, cols)
        }
    }
}

/// The fresh coordinates cover exactly what the batch adds: taking `base`
/// together with the fresh subsequence reaches the same set as taking
/// `base` together with the whole batch.
pub proof fn lemma_fresh_covers(
    coords: Seq<(usize, usize)>,
    base: Set<(int, int)>,
    rows: int,
    cols: int,
)
    ensures
        base.union(inb_set(fresh_subseq(coords, base, rows, cols), rows, cols))
            == base.union(inb_set(coords, rows, cols)),
    decreases coords.len(),
{
    if coords.len() == 0 {
        assert(base.union(inb_set(coords, rows, cols)) =~= base);
        assert(base.union(inb_set(fresh_subseq(coords, base, rows, cols), rows, cols)) =~= base);
    } else {
        let c = coords[0];
        let ci: (int, int) = (c.0 as int, c.1 as int);
        let rest = coords.drop_first();
        assert(coords == seq![c] + rest);
        lemma_inb_set_cons(c, rest, rows, cols);
        if 0 <= ci.0 < rows && 0 <= ci.1 < cols && !base.contains(ci) {
            lemma_fresh_covers(rest, base.insert(ci), rows, cols);
            let f = fresh_subseq(rest, base.insert(ci), rows, cols);
            lemma_inb_set_cons(c, f, rows, cols);
            assert(base.union(inb_set(seq![c] + f, rows, cols))
                =~= base.insert(ci).union(inb_set(f, rows, cols)));
            assert(base.union(inb_set(coords, rows, cols))
                =~= base.insert(ci).union(inb_set(rest, rows, cols)));
        } else {
            lemma_fresh_covers(rest, base, rows, cols);
            assert(base.union(inb_set(coords, rows, cols))
                =~= base.union(inb_set(rest, rows, cols)));
        }
    }
}

/// A batch yields no fresh coordinates exactly when its in-bounds pixels
/// are all in `base` already.
pub proof fn lemma_fresh_empty_iff(
    coords: Seq<(usize, usize)>,
    base: Set<(int, int)>,
    rows: int,
    cols: int,
)
    ensures
        fresh_subseq(coords, base, rows, cols).len() == 0
            <==> inb_set(coords, rows, cols).subset_of(base),
    decreases coords.len(),
{
    if coords.len() == 0 {
        assert forall|p: (int, int)| inb_set(coords, rows, cols).contains(p)
            implies base.contains(p) by {}
    } else {
        let c = coords[0];
        let ci: (int, int) = (c.0 as int, c.1 as int);
        let rest = coords.drop_first();
        assert(coords == seq![c] + rest);
        lemma_inb_set_cons(c, rest, rows, cols);
        if 0 <= ci.0 < rows && 0 <= ci.1 < cols && !base.contains(ci) {
            assert(inb_set(coords, rows, cols).contains(ci));
            assert(!inb_set(coords, rows, cols).subset_of(base));
        } else {
            lemma_fresh_empty_iff(rest, base, rows, cols);
            if 0 <= ci.0 < rows && 0 <= ci.1 < cols {
                assert(inb_set(rest, rows, cols).subset_of(base)
                    <==> inb_set(coords, rows, cols).subset_of(base));
            }
        }
    }
}

/// Prepending one coordinate to a list adds at most that pixel to its
/// in-bounds set.
proof fn lemma_inb_set_cons(c: (usize, usize), rest: Seq<(usize, usize)>, rows: int, cols: int)
    ensures
        0 <= c.0 < rows && 0 <= c.1 < cols
            ==> inb_set(seq![c] + rest, rows, cols)
                == inb_set(rest, rows, cols).insert((c.0 as int, c.1 as int)),
        !(0 <= c.0 < rows && 0 <= c.1 < cols)
            ==> inb_set(seq![c] + rest, rows, cols) == inb_set(rest, rows, cols),
{
    let s = seq![c] + rest;
    let ci: (int, int) = (c.0 as int, c.1 as int);
    assert(s[0] == c);
    assert forall|p: (int, int)| inb_set(s, rows, cols).contains(p)
        implies p == ci || inb_set(rest, rows, cols).contains(p) by {
        let i = choose|i: int| 0 <= i < s.len() && (#[trigger] s[i]).0 == p.0 && s[i].1 == p.1;
        if i >= 1 {
            assert(s[i] == rest[i - 1]);
            assert(inb_set(rest, rows, cols).contains(p));
        }
    }
    assert forall|p: (int, int)| inb_set(rest, rows, cols).contains(p)
        implies inb_set(s, rows, cols).contains(p) by {
        let i = choose|i: int| 0 <= i < rest.len() && (#[trigger] rest[i]).0 == p.0
            && rest[i].1 == p.1;
        assert(s[i + 1] == rest[i]);
    }
    if 0 <= ci.0 < rows && 0 <= ci.1 < cols {
        assert(inb_set(s, rows, cols).contains(ci));
        assert(inb_set(s, rows, cols) =~= inb_set(rest, rows, cols).insert(ci));
    } else {
        assert(inb_set(s, rows, cols) =~= inb_set(rest, rows, cols));
    }
}

/// Processing one more coordinate of a batch appends it to the fresh
/// subsequence exactly when it is in bounds and still new at that point.
proof fn lemma_fresh_push(
    s: Seq<(usize, usize)>,
    c: (usize, usize),
    base: Set<(int, int)>,
    rows: int,
    cols: int,
)
    ensures
        fresh_subseq(s.push(c), base, rows, cols) == if 0 <= c.0 < rows && 0 <= c.1 < cols
            && !base.union(inb_set(s, rows, cols)).contains((c.0 as int, c.1 as int)) {
            fresh_subseq(s, base, rows, cols).push(c)
        } else {
            fresh_subseq(s, base, rows, cols)
        },
    decreases s.len(),
{
    let ci: (int, int) = (c.0 as int, c.1 as int);
    if s.len() == 0 {
        assert(s.push(c)[0] == c);
        let e0 = s.push(c).drop_first();
        assert(e0 =~= Seq::<(usize, usize)>::empty());
        assert(base.union(inb_set(s, rows, cols)) =~= base);
        assert(fresh_subseq(s, base, rows, cols) =~= Seq::<(usize, usize)>::empty());
        if 0 <= ci.0 < rows && 0 <= ci.1 < cols && !base.contains(ci) {
            assert(fresh_subseq(e0, base.insert(ci), rows, cols)
                =~= Seq::<(usize, usize)>::empty());
            assert(fresh_subseq(s.push(c), base, rows, cols)
                =~= seq![c] + Seq::<(usize, usize)>::empty());
            assert(seq![c] + Seq::<(usize, usize)>::empty() =~= seq![c]);
            assert(fresh_subseq(s, base, rows, cols).push(c) =~= seq![c]);
        } else {
            assert(fresh_subseq(e0, base, rows, cols) =~= Seq::<(usize, usize)>::empty());
        }
    } else {
        let h = s[0];
        let hi: (int, int) = (h.0 as int, h.1 as int);
        let rest = s.drop_first();
        assert(s.push(c)[0] == h);
        assert(s.push(c).drop_first() =~= rest.push(c));
        assert(s == seq![h] + rest);
        lemma_inb_set_cons(h, rest, rows, cols);
        if 0 <= hi.0 < rows && 0 <= hi.1 < cols && !base.contains(hi) {
            lemma_fresh_push(rest, c, base.insert(hi), rows, cols);
            assert(base.insert(hi).union(inb_set(rest, rows, cols))
                =~= base.union(inb_set(s, rows, cols)));
            if 0 <= ci.0 < rows && 0 <= ci.1 < cols
                && !base.union(inb_set(s, rows, cols)).contains(ci) {
                assert(fresh_subseq(s.push(c), base, rows, cols)
                    =~= fresh_subseq(s, base, rows, cols).push(c));
            }
        } else {
            lemma_fresh_push(rest, c, base, rows, cols);
            assert(base.union(inb_set(rest, rows, cols))
                =~= base.union(inb_set(s, rows, cols)));
            if 0 <= ci.0 < rows && 0 <= ci.1 < cols
                && !base.union(inb_set(s, rows, cols)).contains(ci) {
                assert(fresh_subseq(s.push(c), base, rows, cols)
                    =~= fresh_subseq(s, base, rows, cols).push(c));
            }
        }
    }
}

/// Deduplicating, insertion-tolerant set of drawn pixels.
pub struct PixelSet {
    /// Canvas height.
    pub rows: usize,
    /// Canvas width.
    pub cols: usize,
    /// Dense presence grid.
    pub present: Vec<Vec<bool>>,
    /// The distinct in-bounds pixels, in insertion order.
    pub items: Vec<(usize, usize)>,
}

impl PixelSet {
    /// The set of drawn pixels.
    pub open spec fn pset(self) -> Set<(int, int)> {
        inb_set(self.items@, self.rows as int, self.cols as int)
    }

    /// Structural well-formedness: the presence grid is rectangular and
    /// agrees with the deduplicated in-bounds item list.
    pub open spec fn wf(self) -> bool {
        &&& 1 <= self.rows
        &&& 1 <= self.cols
        &&& (self.rows as int) * (self.cols as int) <= MAX_AREA as int
        &&& self.present@.len() == self.rows
        &&& forall|y: int| 0 <= y < self.rows ==> (#[trigger] self.present@[y])@.len() == self.cols
        &&& self.items@.no_duplicates()
        &&& forall|i: int| 0 <= i < self.items@.len()
                ==> (#[trigger] self.items@[i]).0 < self.rows && self.items@[i].1 < self.cols
        &&& forall|y: int, x: int| 0 <= y < self.rows && 0 <= x < self.cols
                ==> ((#[trigger] gatb(self.present@, y, x)) <==> self.pset().contains((y, x)))
    }

    /// An empty pixel set over an `rows x cols` canvas.
    pub fn new(rows: usize, cols: usize) -> (r: PixelSet)
        requires
            1 <= rows,
            1 <= cols,
            rows * cols <= MAX_AREA,
        ensures
            r.wf(),
            r.rows == rows,
            r.cols == cols,
            r.pset() === Set::empty(),
            r.items@ === Seq::empty(),
    {
        let mut present: Vec<Vec<bool>> = Vec::new();
        let mut y: usize = 0;
        while y < rows
            invariant
                y <= rows,
                present@.len() == y,
                forall|i: int| 0 <= i < y ==> (#[trigger] present@[i])@.len() == cols,
                forall|i: int, j: int| 0 <= i < y && 0 <= j < cols
                    ==> !(#[trigger] gatb(present@, i, j)),
            decreases rows - y,
        {
            let mut row: Vec<bool> = Vec::new();
            let mut x: usize = 0;
            while x < cols
                invariant
                    x <= cols,
                    row@.len() == x,
                    forall|j: int| 0 <= j < x ==> !(#[trigger] row@[j]),
                decreases cols - x,
            {
                row.push(false);
                x = x + 1;
            }
            let ghost prev = present@;
            present.push(row);
            proof {
                assert forall|i: int, j: int| 0 <= i < y + 1 && 0 <= j < cols
                    implies !(#[trigger] gatb(present@, i, j)) by {
                    if i < y {
                        assert(!gatb(prev, i, j));
                        assert(present@[i] == prev[i]);
                    } else {
                        assert(present@[i] == row);
                    }
                }
            }
            y = y + 1;
        }
        let r = PixelSet { rows, cols, present, items: Vec::new() };
        proof {
            assert forall|y0: int, x0: int| 0 <= y0 < rows && 0 <= x0 < cols
                implies !r.pset().contains((y0, x0)) by {}
            assert(r.pset() =~= Set::empty());
        }
        r
    }

    /// Whether the pixel `(y, x)` has been drawn; out-of-bounds coordinates
    /// are never members.
    pub fn contains(&self, y: usize, x: usize) -> (r: bool)
        requires
            self.wf(),
        ensures
            r <==> self.pset().contains((y as int, x as int)),
    {
        if y < self.rows && x < self.cols {
            let r = self.present[y][x];
            proof {
                assert(r == gatb(self.present@, y as int, x as int));
            }
            r
        } else {
            proof {
                if self.pset().contains((y as int, x as int)) {
                    assert((y as int) < self.rows as int && (x as int) < self.cols as int);
                    assert(false);
                }
            }
            false
        }
    }

    /// Number of distinct in-bounds pixels recorded so far.
    pub fn len(&self) -> (r: usize)
        ensures
            r == self.items@.len(),
    {
        self.items.len()
    }

    /// The recorded pixels in insertion order.
    pub fn pixels(&self) -> (r: &Vec<(usize, usize)>)
        ensures
            r@ == self.items@,
    {
        &self.items
    }

    /// Record a batch of coordinates and hand back only the truly new
    /// in-bounds ones, in caller order.  Out-of-bounds coordinates and
    /// repetitions, against prior state or within the batch, are dropped.
    pub fn insert_new(&mut self, coords: &Vec<(usize, usize)>) -> (fresh: Vec<(usize, usize)>)
        requires
            old(self).wf(),
        ensures
            final(self).wf(),
            final(self).rows == old(self).rows,
            final(self).cols == old(self).cols,
            fresh@ == fresh_subseq(
                coords@,
                old(self).pset(),
                old(self).rows as int,
                old(self).cols as int,
            ),
            final(self).items@ == old(self).items@ + fresh@,
            final(self).pset() == old(self).pset().union(
                inb_set(coords@, old(self).rows as int, old(self).cols as int),
            ),
            fresh@.len() == 0 ==> *final(self) == *old(self),
    {
        let ghost base = self.pset();
        let ghost rows_ = self.rows as int;
        let ghost cols_ = self.cols as int;
        let ghost items0 = self.items@;
        let mut fresh: Vec<(usize, usize)> = Vec::new();
        let mut i: usize = 0;
        while i < coords.len()
            invariant
                i <= coords.len(),
                old(self).wf(),
                self.wf(),
                self.rows == old(self).rows,
                self.cols == old(self).cols,
                base == old(self).pset(),
                rows_ == self.rows as int,
                cols_ == self.cols as int,
                items0 == old(self).items@,
                fresh@ == fresh_subseq(coords@.take(i as int), base, rows_, cols_),
                self.items@ == items0 + fresh@,
                self.pset() == base.union(inb_set(coords@.take(i as int), rows_, cols_)),
                fresh@.len() == 0 ==> *self == *old(self),
            decreases coords.len() - i,
        {
            let c = coords[i];
            let y = c.0;
            let x = c.1;
            proof {
                assert(coords@.take(i as int + 1) =~= coords@.take(i as int).push(c));
                lemma_fresh_push(coords@.take(i as int), c, base, rows_, cols_);
                crate::distance_field::lemma_inb_set_take_step(coords@, i as int, rows_, cols_);
            }
            if y < self.rows && x < self.cols {
                let already = self.present[y][x];
                if !already {
                    let ghost p0 = self.present@;
                    let ghost s0 = *self;
                    self.present[y][x] = true;
                    self.items.push(c);
                    fresh.push(c);
                    proof {
                        assert(self.present@[y as int]@ == p0[y as int]@.update(x as int, true));
                        assert forall|y0: int, x0: int| 0 <= y0 < rows_ && 0 <= x0 < cols_
                                && !(y0 == y as int && x0 == x as int)
                            implies #[trigger] gatb(self.present@, y0, x0) == gatb(p0, y0, x0) by {
                            if y0 != y as int {
                                assert(self.present@[y0] == p0[y0]);
                            } else {
                                assert(self.present@[y0]@[x0] == p0[y0]@[x0]);
                            }
                        }
                        assert(gatb(self.present@, y as int, x as int));
                        // The new pixel set is the old one plus `c`.
                        lemma_pset_push(s0, *self, c);
                        assert(self.items@ == items0 + fresh@);
                        // Uniqueness: `c` was not recorded before.
                        assert(!gatb(p0, y as int, x as int));
                        assert(s0.present@ == p0);
                        assert(!s0.pset().contains((y as int, x as int)));
                        assert forall|j: int| 0 <= j < s0.items@.len()
                            implies s0.items@[j] != c by {
                            if s0.items@[j] == c {
                                assert(s0.pset().contains((y as int, x as int)));
                            }
                        }
                        assert(self.items@.no_duplicates());
                        assert forall|y0: int, x0: int| 0 <= y0 < rows_ && 0 <= x0 < cols_
                            implies ((#[trigger] gatb(self.present@, y0, x0))
                                <==> self.pset().contains((y0, x0))) by {
                            if !(y0 == y as int && x0 == x as int) {
                                assert(gatb(p0, y0, x0) <==> s0.pset().contains((y0, x0)));
                            }
                        }
                        assert(self.wf());
                        assert(self.pset() =~= base.union(
                            inb_set(coords@.take(i as int + 1), rows_, cols_),
                        ));
                    }
                } else {
                    proof {
                        assert(gatb(self.present@, y as int, x as int));
                        assert(self.pset().contains((y as int, x as int)));
                        assert(self.pset() =~= base.union(
                            inb_set(coords@.take(i as int + 1), rows_, cols_),
                        ));
                    }
                }
            } else {
                proof {
                    assert(self.pset() =~= base.union(
                        inb_set(coords@.take(i as int + 1), rows_, cols_),
                    ));
                }
            }
            i = i + 1;
        }
        proof {
            assert(coords@.take(coords@.len() as int) =~= coords@);
        }
        fresh
    }

    /// Forget all recorded pixels; the canvas dimensions stay.
    pub fn clear(&mut self)
        requires
            old(self).wf(),
        ensures
            final(self).wf(),
            final(self).rows == old(self).rows,
            final(self).cols == old(self).cols,
            final(self).pset() === Set::empty(),
            final(self).items@ === Seq::empty(),
    {
        let fresh = PixelSet::new(self.rows, self.cols);
        *self = fresh;
    }
}

/// A well-formed pixel set cannot hold more items than the canvas has
/// cells: the items are distinct in-bounds coordinates, so their flat
/// row-major indices are distinct values below `rows * cols`.
pub proof fn lemma_items_bounded(s: PixelSet)
    requires
        s.wf(),
    ensures
        s.items@.len() <= (s.rows as int) * (s.cols as int),
{
    let rows = s.rows as int;
    let cols = s.cols as int;
    let m = s.items@.map_values(|p: (usize, usize)| (p.0 as int) * cols + (p.1 as int));
    assert forall|i: int, j: int| 0 <= i < m.len() && 0 <= j < m.len() && i != j
        implies m[i] != m[j] by {
        let a = s.items@[i];
        let b = s.items@[j];
        assert(a != b);
        if m[i] == m[j] {
            assert((a.0 as int) * cols + (a.1 as int) == (b.0 as int) * cols + (b.1 as int));
            assert(a.0 == b.0 && a.1 == b.1) by (nonlinear_arith)
                requires
                    (a.0 as int) * cols + (a.1 as int) == (b.0 as int) * cols + (b.1 as int),
                    0 <= (a.1 as int) && (a.1 as int) < cols,
                    0 <= (b.1 as int) && (b.1 as int) < cols,
                    0 <= (a.0 as int),
                    0 <= (b.0 as int);
        }
    }
    assert(m.no_duplicates());
    m.unique_seq_to_set();
    let rng = vstd::set_lib::set_int_range(0, rows * cols);
    vstd::set_lib::lemma_int_range(0, rows * cols);
    assert forall|v: int| m.to_set().contains(v) implies rng.contains(v) by {
        let i = choose|i: int| 0 <= i < m.len() && m[i] == v;
        let a = s.items@[i];
        assert(0 <= (a.0 as int) * cols + (a.1 as int) < rows * cols) by (nonlinear_arith)
            requires 0 <= (a.0 as int) && (a.0 as int) < rows && 0 <= (a.1 as int)
                && (a.1 as int) < cols;
    }
    assert(m.to_set().subset_of(rng));
    vstd::set_lib::lemma_len_subset(m.to_set(), rng);
}

/// Appending one in-bounds pixel to the item list grows the pixel set by
/// exactly that pixel.
proof fn lemma_pset_push(s0: PixelSet, s1: PixelSet, c: (usize, usize))
    requires
        s1.rows == s0.rows,
        s1.cols == s0.cols,
        s1.items@ == s0.items@.push(c),
        (c.0 as int) < s0.rows as int,
        (c.1 as int) < s0.cols as int,
    ensures
        s1.pset() == s0.pset().insert((c.0 as int, c.1 as int)),
{
    let ci: (int, int) = (c.0 as int, c.1 as int);
    assert forall|p: (int, int)| s1.pset().contains(p)
        implies p == ci || s0.pset().contains(p) by {
        let i = choose|i: int| 0 <= i < s1.items@.len() && (#[trigger] s1.items@[i]).0 == p.0
            && s1.items@[i].1 == p.1;
        if i < s0.items@.len() {
            assert(s1.items@[i] == s0.items@[i]);
            assert(s0.pset().contains(p));
        }
    }
    assert forall|p: (int, int)| s0.pset().contains(p) implies s1.pset().contains(p) by {
        let i = choose|i: int| 0 <= i < s0.items@.len() && (#[trigger] s0.items@[i]).0 == p.0
            && s0.items@[i].1 == p.1;
        assert(s1.items@[i] == s0.items@[i]);
    }
    assert(s1.items@[s0.items@.len() as int] == c);
    assert(s1.pset().contains(ci));
    assert(s1.pset() =~= s0.pset().insert(ci));
}

} // verus!
