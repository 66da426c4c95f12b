//! Image wrapper with a per-color pixel histogram.
//!
//! An [`Image`] keeps its pixels as rows of RGBA values together with a
//! histogram that maps each color (packed into a `u32` key) to the number of
//! cells holding it.  The histogram is kept consistent across pixel writes
//! and backs the drawing-speed statistics.

use vstd::prelude::*;

use std::collections::HashMap;

use crate::types::Image2DArray;
use crate::types::ImageDimensions;
use crate::types::RGBA;

verus! {

broadcast use vstd::std_specs::hash::group_hash_axioms;

/// The RGBA channels of a color packed into one integer key.
pub open spec fn pack_color(c: RGBA) -> int {
    c[0] * 0x1000000 + c[1] * 0x10000 + c[2] * 0x100 + c[3]
}

/// A packed color always fits in 32 bits.
proof fn lemma_pack_range(c: RGBA)
    ensures
        0 <= pack_color(c) <= 0xffffffff,
{
}

/// Packing is injective: colors with the same key agree channel by channel.
pub proof fn lemma_pack_color_injective(a: RGBA, b: RGBA)
    requires
        pack_color(a) == pack_color(b),
    ensures
        a[0] == b[0],
        a[1] == b[1],
        a[2] == b[2],
        a[3] == b[3],
{
}

/// Number of cells among the first `n` of a row whose packed color is `k`.
pub open spec fn row_color_count(row: Seq<RGBA>, k: int, n: int) -> int
    decreases n,
{
    if n <= 0 {
        0
    } else {
        row_color_count(row, k, n - 1) + if pack_color(row[n - 1]) == k {
            1int
        } else {
            0int
        }
    }
}

/// Number of cells in the first `n` rows whose packed color is `k`.
pub open spec fn color_count(pixels: Seq<Vec<RGBA>>, k: int, n: int) -> int
    decreases n,
{
    if n <= 0 {
        0
    } else {
        color_count(pixels, k, n - 1) + row_color_count(
            pixels[n - 1]@,
            k,
            pixels[n - 1]@.len() as int,
        )
    }
}

proof fn lemma_row_color_count_bound(row: Seq<RGBA>, k: int, n: int)
    requires
        0 <= n <= row.len(),
    ensures
        0 <= row_color_count(row, k, n) <= n,
    decreases n,
{
    if n > 0 {
        lemma_row_color_count_bound(row, k, n - 1);
    }
}

pub proof fn lemma_color_count_bound(pixels: Seq<Vec<RGBA>>, k: int, n: int, cols: int)
    requires
        0 <= n <= pixels.len(),
        0 <= cols,
        forall|i: int| 0 <= i < pixels.len() ==> (#[trigger] pixels[i])@.len() == cols,
    ensures
        0 <= color_count(pixels, k, n) <= n * cols,
    decreases n,
{
    if n > 0 {
        lemma_color_count_bound(pixels, k, n - 1, cols);
        lemma_row_color_count_bound(pixels[n - 1]@, k, cols);
        assert((n - 1) * cols + cols == n * cols) by (nonlinear_arith);
    }
}

proof fn lemma_row_color_count_update(r1: Seq<RGBA>, r2: Seq<RGBA>, k: int, n: int, x: int)
    requires
        0 <= x < n,
        n <= r1.len(),
        r2.len() == r1.len(),
        forall|j: int| 0 <= j < r1.len() && j != x ==> r1[j] == r2[j],
    ensures
        row_color_count(r2, k, n) == row_color_count(r1, k, n)
            + (if pack_color(r2[x]) == k { 1int } else { 0int })
            - (if pack_color(r1[x]) == k { 1int } else { 0int }),
    decreases n,
{
    if x == n - 1 {
        lemma_row_color_count_agree(r1, r2, k, n - 1);
    } else {
        lemma_row_color_count_update(r1, r2, k, n - 1, x);
    }
}

proof fn lemma_row_color_count_agree(r1: Seq<RGBA>, r2: Seq<RGBA>, k: int, n: int)
    requires
        n <= r1.len(),
        n <= r2.len(),
        forall|j: int| 0 <= j < n ==> r1[j] == r2[j],
    ensures
        row_color_count(r2, k, n) == row_color_count(r1, k, n),
    decreases n,
{
    if n > 0 {
        lemma_row_color_count_agree(r1, r2, k, n - 1);
    }
}

proof fn lemma_color_count_update(
    g1: Seq<Vec<RGBA>>,
    g2: Seq<Vec<RGBA>>,
    k: int,
    n: int,
    y: int,
    x: int,
)
    requires
        0 <= y < n,
        n <= g1.len(),
        g2.len() == g1.len(),
        forall|i: int| 0 <= i < g1.len() && i != y ==> g1[i] == g2[i],
        g2[y]@.len() == g1[y]@.len(),
        0 <= x < g1[y]@.len(),
        forall|j: int| 0 <= j < g1[y]@.len() && j != x ==> g1[y]@[j] == g2[y]@[j],
    ensures
        color_count(g2, k, n) == color_count(g1, k, n)
            + (if pack_color(g2[y]@[x]) == k { 1int } else { 0int })
            - (if pack_color(g1[y]@[x]) == k { 1int } else { 0int }),
    decreases n,
{
    if y == n - 1 {
        lemma_color_count_agree(g1, g2, k, n - 1);
        lemma_row_color_count_update(g1[y]@, g2[y]@, k, g1[y]@.len() as int, x);
    } else {
        lemma_color_count_update(g1, g2, k, n - 1, y, x);
    }
}

proof fn lemma_color_count_agree(g1: Seq<Vec<RGBA>>, g2: Seq<Vec<RGBA>>, k: int, n: int)
    requires
        n <= g1.len(),
        n <= g2.len(),
        forall|i: int| 0 <= i < n ==> g1[i] == g2[i],
    ensures
        color_count(g2, k, n) == color_count(g1, k, n),
    decreases n,
{
    if n > 0 {
        lemma_color_count_agree(g1, g2, k, n - 1);
    }
}

/// A cell holding color `k` pushes the count to at least one.
proof fn lemma_color_count_pos(pixels: Seq<Vec<RGBA>>, k: int, n: int, y: int, x: int)
    requires
        0 <= y < n <= pixels.len(),
        0 <= x < pixels[y]@.len(),
        pack_color(pixels[y]@[x]) == k,
    ensures
        color_count(pixels, k, n) >= 1,
    decreases n,
{
    if y == n - 1 {
        lemma_row_color_count_pos(pixels[y]@, k, pixels[y]@.len() as int, x);
        lemma_color_count_nonneg(pixels, k, n - 1);
    } else {
        lemma_color_count_pos(pixels, k, n - 1, y, x);
        lemma_row_color_count_nonneg(pixels[n - 1]@, k, pixels[n - 1]@.len() as int);
    }
}

proof fn lemma_row_color_count_pos(row: Seq<RGBA>, k: int, n: int, x: int)
    requires
        0 <= x < n <= row.len(),
        pack_color(row[x]) == k,
    ensures
        row_color_count(row, k, n) >= 1,
    decreases n,
{
    if x == n - 1 {
        lemma_row_color_count_nonneg(row, k, n - 1);
    } else {
        lemma_row_color_count_pos(row, k, n - 1, x);
    }
}

proof fn lemma_row_color_count_nonneg(row: Seq<RGBA>, k: int, n: int)
    ensures
        row_color_count(row, k, n) >= 0,
    decreases n,
{
    if n > 0 {
        lemma_row_color_count_nonneg(row, k, n - 1);
    }
}

proof fn lemma_color_count_nonneg(pixels: Seq<Vec<RGBA>>, k: int, n: int)
    ensures
        color_count(pixels, k, n) >= 0,
    decreases n,
{
    if n > 0 {
        lemma_color_count_nonneg(pixels, k, n - 1);
        lemma_row_color_count_nonneg(pixels[n - 1]@, k, pixels[n - 1]@.len() as int);
    }
}

/// A positive row count is witnessed by a matching cell.
proof fn lemma_row_color_count_witness(row: Seq<RGBA>, k: int, n: int)
    requires
        row_color_count(row, k, n) > 0,
        n <= row.len(),
    ensures
        exists|j: int| 0 <= j < n && pack_color(#[trigger] row[j]) == k,
    decreases n,
{
    if n > 0 {
        if pack_color(row[n - 1]) == k {
        } else {
            lemma_row_color_count_witness(row, k, n - 1);
        }
    }
}

/// A positive color count is witnessed by a matching cell.
proof fn lemma_color_count_witness(pixels: Seq<Vec<RGBA>>, k: int, n: int)
    requires
        color_count(pixels, k, n) > 0,
        n <= pixels.len(),
    ensures
        exists|i: int, j: int| #![trigger pack_color(pixels[i]@[j])] 0 <= i < n
            && 0 <= j < pixels[i]@.len() && pack_color(pixels[i]@[j]) == k,
    decreases n,
{
    if n > 0 {
        if row_color_count(pixels[n - 1]@, k, pixels[n - 1]@.len() as int) > 0 {
            lemma_row_color_count_witness(pixels[n - 1]@, k, pixels[n - 1]@.len() as int);
            let j = choose|j: int| 0 <= j < pixels[n - 1]@.len()
                && pack_color(#[trigger] pixels[n - 1]@[j]) == k;
            assert(0 <= n - 1 < n && 0 <= j < (pixels[n - 1])@.len()
                && pack_color(pixels[n - 1]@[j]) == k);
        } else {
            lemma_row_color_count_nonneg(pixels[n - 1]@, k, pixels[n - 1]@.len() as int);
            lemma_color_count_witness(pixels, k, n - 1);
        }
    }
}

/// Pack a color into its histogram key.
fn pack(c: RGBA) -> (r: u32)
    ensures
        r as int == pack_color(c),
{
    (c[0] as u32) * 0x1000000 + (c[1] as u32) * 0x10000 + (c[2] as u32) * 0x100 + (c[3] as u32)
}

/// Simple image wrapper with a color histogram.
pub struct Image {
    /// Rows of RGBA pixels; `pixels[x][y]` is the pixel at `(x, y)`.
    pub pixels: Image2DArray,
    /// `(x extent, y extent)` of the pixel grid.
    pub dimensions: ImageDimensions,
    /// For each packed color present in the image, how many cells hold it.
    pub number_of_pixel_per_color: HashMap<u32, u32>,
}

impl Image {
    /// The pixel at `(x, y)`.
    pub open spec fn pix(self, x: int, y: int) -> RGBA {
        self.pixels@[x]@[y]
    }

    /// Number of cells of the whole image.
    pub open spec fn total_cells(self) -> int {
        (self.dimensions.0 as int) * (self.dimensions.1 as int)
    }

    /// Number of cells holding the packed color `k`.
    pub open spec fn color_total(self, k: int) -> int {
        color_count(self.pixels@, k, self.pixels@.len() as int)
    }

    /// Structural well-formedness: a rectangular, non-empty pixel grid of
    /// bounded size whose histogram counts every color exactly.
    pub open spec fn wf(self) -> bool {
        &&& 1 <= self.dimensions.0
        &&& 1 <= self.dimensions.1
        &&& self.total_cells() < 0xffffffff
        &&& self.pixels@.len() == self.dimensions.0
        &&& (forall|i: int| 0 <= i < self.pixels@.len()
            ==> (#[trigger] self.pixels@[i])@.len() == self.dimensions.1)
        &&& (forall|k: u32| self.number_of_pixel_per_color@.contains_key(k)
            ==> (#[trigger] self.number_of_pixel_per_color@[k]) as int == self.color_total(
                k as int,
            ))
        &&& (forall|x: int, y: int| 0 <= x < self.dimensions.0 && 0 <= y < self.dimensions.1
            ==> self.number_of_pixel_per_color@.contains_key(
                (pack_color(#[trigger] self.pix(x, y)) as u32),
            ))
    }

    /// Count each color of a pixel grid.
    #[verifier::loop_isolation(false)]
    fn build_histogram(pixels: &Image2DArray) -> (m: HashMap<u32, u32>)
        requires
            forall|i: int| 0 <= i < pixels@.len()
                ==> (#[trigger] pixels@[i])@.len() == pixels@[0]@.len(),
            pixels@.len() * pixels@[0]@.len() < 0xffffffff,
            pixels@.len() >= 1,
        ensures
            forall|k: u32| m@.contains_key(k) ==> (#[trigger] m@[k]) as int == color_count(
                pixels@,
                k as int,
                pixels@.len() as int,
            ),
            forall|x: int, y: int| 0 <= x < pixels@.len() && 0 <= y < pixels@[0]@.len()
                ==> m@.contains_key((pack_color(#[trigger] pixels@[x]@[y]) as u32)),
    {
        let cols = pixels[0].len();
        let mut m: HashMap<u32, u32> = HashMap::new();
        let mut x: usize = 0;
        while x < pixels.len()
            invariant
                x <= pixels@.len(),
                forall|k: u32| m@.contains_key(k) ==> (#[trigger] m@[k]) as int == color_count(
                    pixels@,
                    k as int,
                    x as int,
                ),
                forall|i: int, y: int| 0 <= i < x && 0 <= y < cols
                    ==> m@.contains_key((pack_color(#[trigger] pixels@[i]@[y]) as u32)),
            decreases pixels@.len() - x,
        {
            let row = &pixels[x];
            let mut y: usize = 0;
            while y < row.len()
                invariant
                    y <= row@.len(),
                    row == pixels@[x as int],
                    forall|k: u32| m@.contains_key(k) ==> (#[trigger] m@[k]) as int == color_count(
                        pixels@,
                        k as int,
                        x as int,
                    ) + row_color_count(row@, k as int, y as int),
                    forall|i: int, y0: int| 0 <= i < x && 0 <= y0 < cols
                        ==> m@.contains_key((pack_color(#[trigger] pixels@[i]@[y0]) as u32)),
                    forall|y0: int| 0 <= y0 < y
                        ==> m@.contains_key((pack_color(#[trigger] row@[y0]) as u32)),
                decreases row@.len() - y,
            {
                let c = row[y];
                proof {
                    lemma_pack_range(c);
                }
                let k = pack(c);
                proof {
                    lemma_color_count_bound(pixels@, k as int, x as int, cols as int);
                    lemma_row_color_count_bound(row@, k as int, y as int);
                    assert((x as int) * (cols as int) + cols as int
                        <= (pixels@.len() as int) * (cols as int)) by (nonlinear_arith)
                        requires 0 <= x as int && x as int + 1 <= pixels@.len() as int
                            && 0 <= cols as int;
                    assert((x as int) * (cols as int) >= color_count(pixels@, k as int, x as int));
                }
                let prev: u32 = match m.get(&k) {
                    Some(v) => *v,
                    None => 0,
                };
                proof {
                    if !m@.contains_key(k) {
                        // A missing key means the color has not occurred yet.
                        lemma_color_count_nonneg(pixels@, k as int, x as int);
                        lemma_row_color_count_nonneg(row@, k as int, y as int);
                        if color_count(pixels@, k as int, x as int) > 0 {
                            lemma_color_count_witness(pixels@, k as int, x as int);
                            let (i, j) = choose|i: int, j: int|
                                #![trigger pack_color(pixels@[i]@[j])]
                                0 <= i < x as int && 0 <= j < pixels@[i]@.len()
                                && pack_color(pixels@[i]@[j]) == k as int;
                            lemma_pack_range(pixels@[i]@[j]);
                            assert(m@.contains_key((pack_color(pixels@[i]@[j]) as u32)));
                            assert(false);
                        }
                        if row_color_count(row@, k as int, y as int) > 0 {
                            lemma_row_color_count_witness(row@, k as int, y as int);
                            let j = choose|j: int| 0 <= j < y as int
                                && pack_color(#[trigger] row@[j]) == k as int;
                            lemma_pack_range(row@[j]);
                            assert(m@.contains_key((pack_color(row@[j]) as u32)));
                            assert(false);
                        }
                        assert(prev as int == color_count(pixels@, k as int, x as int)
                            + row_color_count(row@, k as int, y as int));
                    }
                }
                if prev as u64 == 0xffffffffu64 {
                    // Unreachable: the count is bounded by the cell total.
                    proof {
                        assert(false);
                    }
                }
                let next = prev + 1;
                m.insert(k, next);
                y = y + 1;
                proof {
                    assert forall|k0: u32| m@.contains_key(k0)
                        implies (#[trigger] m@[k0]) as int == color_count(
                            pixels@,
                            k0 as int,
                            x as int,
                        ) + row_color_count(row@, k0 as int, y as int) by {
                        if k0 != k {
                            assert(pack_color(row@[y as int - 1]) != k0 as int);
                        }
                    }
                }
            }
            proof {
                assert(row@.len() == cols);
                assert(color_count(pixels@, arbitrary(), 0) == 0);
                assert forall|k: u32| m@.contains_key(k)
                    implies (#[trigger] m@[k]) as int == color_count(
                        pixels@,
                        k as int,
                        x as int + 1,
                    ) by {
                    assert(color_count(pixels@, k as int, x as int + 1) == color_count(
                        pixels@,
                        k as int,
                        x as int,
                    ) + row_color_count(pixels@[x as int]@, k as int, pixels@[x as int]@.len() as int));
                }
            }
            x = x + 1;
        }
        m
    }

    /// Wrap existing pixel data, counting its colors.
    pub fn new(pixels: Image2DArray) -> (r: Image)
        requires
            pixels@.len() >= 1,
            forall|i: int| 0 <= i < pixels@.len()
                ==> (#[trigger] pixels@[i])@.len() == pixels@[0]@.len(),
            pixels@[0]@.len() >= 1,
            pixels@.len() * pixels@[0]@.len() < 0xffffffff,
        ensures
            r.wf(),
            r.pixels@ == pixels@,
            r.dimensions.0 == pixels@.len(),
            r.dimensions.1 == pixels@[0]@.len(),
    {
        let dimensions = (pixels.len(), pixels[0].len());
        let number_of_pixel_per_color = Image::build_histogram(&pixels);
        Image { dimensions, pixels, number_of_pixel_per_color }
    }

    /// A fully white image; the default size is `500 x 500`.
    pub fn standard_white(dimensions: Option<ImageDimensions>) -> (r: Image)
        requires
            match dimensions {
                Some(d) => 1 <= d.0 && 1 <= d.1 && d.0 * d.1 < 0xffffffff,
                None => true,
            },
        ensures
            r.wf(),
            r.dimensions == dimensions.unwrap_or((500usize, 500usize)),
            forall|x: int, y: int| 0 <= x < r.dimensions.0 && 0 <= y < r.dimensions.1
                ==> #[trigger] r.pix(x, y) == [255u8, 255u8, 255u8, 255u8],
    {
        let (x_size, y_size) = match dimensions {
            Some(d) => d,
            None => (500, 500),
        };
        let white_pixel: RGBA = [255, 255, 255, 255];
        let mut pixels: Image2DArray = Vec::new();
        let mut x: usize = 0;
        while x < x_size
            invariant
                x <= x_size,
                pixels@.len() == x,
                forall|i: int| 0 <= i < x ==> (#[trigger] pixels@[i])@.len() == y_size,
                forall|i: int, j: int| 0 <= i < x && 0 <= j < y_size
                    ==> #[trigger] pixels@[i]@[j] == white_pixel,
            decreases x_size - x,
        {
            let mut row: Vec<RGBA> = Vec::new();
            let mut y: usize = 0;
            while y < y_size
                invariant
                    y <= y_size,
                    row@.len() == y,
                    forall|j: int| 0 <= j < y ==> #[trigger] row@[j] == white_pixel,
                decreases y_size - y,
            {
                row.push(white_pixel);
                y = y + 1;
            }
            let ghost prev = pixels@;
            pixels.push(row);
            proof {
                assert forall|i: int, j: int| 0 <= i < x + 1 && 0 <= j < y_size
                    implies #[trigger] pixels@[i]@[j] == white_pixel by {
                    if i < x {
                        assert(pixels@[i] == prev[i]);
                        assert(prev[i]@[j] == white_pixel);
                    } else {
                        assert(pixels@[i] == row);
                    }
                }
            }
            x = x + 1;
        }
        Image::new(pixels)
    }

    /// Overwrite the pixel at `(x, y)` and keep the histogram in step.
    ///
    /// The coordinates must be inside the image; the `dimensions` field
    /// tells a caller what is valid.
    pub fn set_pixel(&mut self, x: usize, y: usize, pixel_color: RGBA)
        requires
            old(self).wf(),
            x < old(self).dimensions.0,
            y < old(self).dimensions.1,
        ensures
            final(self).wf(),
            final(self).dimensions == old(self).dimensions,
            final(self).pix(x as int, y as int) == pixel_color,
            forall|i: int, j: int| 0 <= i < old(self).dimensions.0
                    && 0 <= j < old(self).dimensions.1 && !(i == x as int && j == y as int)
                ==> #[trigger] final(self).pix(i, j) == old(self).pix(i, j),
    {
        let ghost g0 = self.pixels@;
        let old_pixel_color = self.pixels[x][y];
        self.pixels[x][y] = pixel_color;
        proof {
            lemma_pack_range(old_pixel_color);
            lemma_pack_range(pixel_color);
            assert(self.pixels@[x as int]@ == g0[x as int]@.update(y as int, pixel_color));
            assert forall|i: int, j: int| 0 <= i < self.dimensions.0 && 0 <= j < self.dimensions.1
                    && !(i == x as int && j == y as int)
                implies #[trigger] self.pixels@[i]@[j] == g0[i]@[j] by {
                if i != x as int {
                    assert(self.pixels@[i] == g0[i]);
                } else {
                    assert(self.pixels@[i]@[j] == g0[i]@[j]);
                }
            }
        }
        let old_key = pack(old_pixel_color);
        let new_key = pack(pixel_color);
        let ghost g1 = self.pixels@;
        let n = self.dimensions.0;
        proof {
            // Every color's count shifts by the single overwritten cell.
            assert forall|k: int| true
                implies color_count(g1, k, n as int) == color_count(g0, k, n as int)
                    + (if pack_color(pixel_color) == k { 1int } else { 0int })
                    - (if pack_color(old_pixel_color) == k { 1int } else { 0int }) by {
                lemma_color_count_update(g0, g1, k, n as int, x as int, y as int);
            }
            lemma_color_count_pos(g0, old_key as int, n as int, x as int, y as int);
            lemma_color_count_bound(g1, new_key as int, n as int, self.dimensions.1 as int);
        }
        let old_count: u32 = match self.number_of_pixel_per_color.get(&old_key) {
            Some(v) => *v,
            None => {
                proof {
                    assert(old(self).pix(x as int, y as int) == old_pixel_color);
                    assert(old(self).number_of_pixel_per_color@.contains_key(
                        (pack_color(old(self).pix(x as int, y as int)) as u32),
                    ));
                    assert(false);
                }
                0
            },
        };
        self.number_of_pixel_per_color.insert(old_key, old_count - 1);
        let new_count: u32 = match self.number_of_pixel_per_color.get(&new_key) {
            Some(v) => *v,
            None => 0,
        };
        proof {
            if !self.number_of_pixel_per_color@.contains_key(new_key) {
                // A missing key means the color does not occur in the image.
                lemma_color_count_nonneg(g0, new_key as int, n as int);
                if color_count(g0, new_key as int, n as int) > 0 {
                    lemma_color_count_witness(g0, new_key as int, n as int);
                    let (i, j) = choose|i: int, j: int| #![trigger pack_color(g0[i]@[j])]
                        0 <= i < n as int && 0 <= j < g0[i]@.len()
                        && pack_color(g0[i]@[j]) == new_key as int;
                    assert(old(self).pix(i, j) == g0[i]@[j]);
                    assert(old(self).number_of_pixel_per_color@.contains_key(
                        (pack_color(old(self).pix(i, j)) as u32),
                    ));
                    assert(false);
                }
            }
            assert((n as int) * (self.dimensions.1 as int) < 0xffffffff);
        }
        self.number_of_pixel_per_color.insert(new_key, new_count + 1);
        proof {
            assert forall|k: u32| self.number_of_pixel_per_color@.contains_key(k)
                implies (#[trigger] self.number_of_pixel_per_color@[k]) as int == color_count(
                    g1,
                    k as int,
                    n as int,
                ) by {
                if k != new_key && k != old_key {
                    assert(pack_color(pixel_color) != k as int && pack_color(old_pixel_color)
                        != k as int);
                }
            }
            assert forall|i: int, j: int| 0 <= i < self.dimensions.0 && 0 <= j < self.dimensions.1
                implies self.number_of_pixel_per_color@.contains_key(
                    (pack_color(#[trigger] self.pix(i, j)) as u32),
                ) by {
                if i == x as int && j == y as int {
                    assert(self.pix(i, j) == pixel_color);
                    assert(self.number_of_pixel_per_color@.contains_key(new_key));
                } else {
                    assert(self.pix(i, j) == g0[i]@[j]);
                    assert(old(self).pix(i, j) == g0[i]@[j]);
                    assert(old(self).number_of_pixel_per_color@.contains_key(
                        (pack_color(old(self).pix(i, j)) as u32),
                    ));
                }
            }
        }
    }
}

} // verus!
