//! Whole-image evaluation: reference versus observation in one call.
//!
//! The evaluator extracts the non-background pixels of both sides, builds
//! the two distance fields, and reduces them to an [`ErrorMetrics`] value.
//! The two percentage statistics are kept as exact integers here: the top-5
//! percentage is `top_5_sum` divided by `TOP_K * SCORE_UNIT`, and the mean
//! percentage is `error_sum * 100` divided by `error_count * SCORE_UNIT`.

use vstd::prelude::*;

use crate::aggregate::agg_grid_ok;
use crate::aggregate::aggregate_grid;
use crate::aggregate::dist_count;
use crate::aggregate::dist_sum;
use crate::aggregate::grid_flat;
use crate::aggregate::sum_distances;
use crate::aggregate::top_k_sum;
use crate::aggregate::top_k_total;
use crate::distance_field::inb_set;
use crate::distance_field::DistanceField;
use crate::EvaluationError;
use crate::AGG_CHUNK_SIZE;
use crate::AGG_GRID_SIZE;
use crate::CANVAS_SIZE;
use crate::TOP_K;

verus! {

/// The evaluation statistics of one reference/observation comparison.
///
/// `grid` holds the per-block worst cross-distances; `top_5_sum` is the sum
/// of its five largest cells; `error_sum` and `error_count` accumulate every
/// cross-distance read by a drawn pixel of either side; `pixel_count` is the
/// number of reference pixels.
#[derive(Debug, Clone)]
pub struct ErrorMetrics {
    /// Sum of the five largest block maxima.
    pub top_5_sum: i64,
    /// Sum of all cross-distances.
    pub error_sum: i64,
    /// Number of cross-distances summed.
    pub error_count: usize,
    /// Number of reference pixels.
    pub pixel_count: usize,
    /// The block-maxima grid.
    pub grid: Vec<Vec<i32>>,
}

/// The non-background cells of the first `n` cells of row `y`, in order.
pub open spec fn row_pixels(row: Seq<u8>, y: usize, bg: u8, n: int) -> Seq<(usize, usize)>
    decreases n,
{
    if n <= 0 {
        Seq::empty()
    } else {
        row_pixels(row, y, bg, n - 1) + if row[n - 1] != bg {
            seq![(y, (n - 1) as usize)]
        } else {
            Seq::empty()
        }
    }
}

/// The non-background cells of the first `n` rows, in row-major order.
pub open spec fn image_pixels(image: Seq<Vec<u8>>, bg: u8, n: int) -> Seq<(usize, usize)>
    decreases n,
{
    if n <= 0 {
        Seq::empty()
    } else {
        image_pixels(image, bg, n - 1) + row_pixels(
            image[n - 1]@,
            (n - 1) as usize,
            bg,
            image[n - 1]@.len() as int,
        )
    }
}

/// Total number of cells in the first `n` rows.
pub open spec fn cell_total(image: Seq<Vec<u8>>, n: int) -> int
    decreases n,
{
    if n <= 0 {
        0
    } else {
        cell_total(image, n - 1) + image[n - 1]@.len()
    }
}

proof fn lemma_row_pixels_len(row: Seq<u8>, y: usize, bg: u8, n: int)
    ensures
        row_pixels(row, y, bg, n).len() <= if n >= 0 { n } else { 0 },
    decreases n,
{
    if n > 0 {
        lemma_row_pixels_len(row, y, bg, n - 1);
    }
}

pub proof fn lemma_image_pixels_len(image: Seq<Vec<u8>>, bg: u8, n: int)
    ensures
        image_pixels(image, bg, n).len() <= cell_total(image, n),
        cell_total(image, n) >= 0,
    decreases n,
{
    if n > 0 {
        lemma_image_pixels_len(image, bg, n - 1);
        lemma_row_pixels_len(image[n - 1]@, (n - 1) as usize, bg, image[n - 1]@.len() as int);
    }
}

/// Bound on a distance sum: every stored distance fits in 32 bits.
pub proof fn lemma_dist_sum_range(pixels: Seq<(usize, usize)>, field: DistanceField)
    ensures
        -(pixels.len() as int) * 0x80000000 <= dist_sum(pixels, field),
        dist_sum(pixels, field) <= (pixels.len() as int) * 0x80000000,
        0 <= dist_count(pixels, field) <= pixels.len(),
    decreases pixels.len(),
{
    if pixels.len() > 0 {
        lemma_dist_sum_range(pixels.drop_last(), field);
        let n = pixels.len() as int;
        assert(-(n - 1) * 0x80000000 - 0x80000000 == -n * 0x80000000) by (nonlinear_arith);
        assert((n - 1) * 0x80000000 + 0x80000000 == n * 0x80000000) by (nonlinear_arith);
        let p = pixels.last();
        if (p.0 as int) < field.rows as int && (p.1 as int) < field.cols as int {
            assert(i32::MIN as int <= field.at(p.0 as int, p.1 as int) <= i32::MAX as int);
        }
    }
}

/// Compares a reference drawing against an observed drawing.
pub struct ImageEvaluator {
    /// Whether the drawings sit on a transparent background (alpha channel)
    /// rather than a white one.
    pub bg_transparent: bool,
}

impl ImageEvaluator {
    /// New evaluator with the given background interpretation.
    pub fn new(bg_transparent: bool) -> (r: Self)
        ensures
            r.bg_transparent == bg_transparent,
    {
        ImageEvaluator { bg_transparent }
    }

    /// The channel value that counts as background for this evaluator.
    pub fn background_value(&self) -> (r: u8)
        ensures
            r == if self.bg_transparent { 0u8 } else { 255u8 },
    {
        if self.bg_transparent {
            0
        } else {
            255
        }
    }

    /// All cells of `image` that differ from `background_value`, in
    /// row-major order.
    pub fn extract_non_background_pixels(
        &self,
        image: &Vec<Vec<u8>>,
        background_value: u8,
    ) -> (r: Vec<(usize, usize)>)
        ensures
            r@ == image_pixels(image@, background_value, image@.len() as int),
    {
        extract_pixels(image, background_value)
    }

    /// Flood the given field with the pixels as additional sources.  The
    /// field is taken over and handed back extended; the call itself cannot
    /// fail.
    pub fn fill_heatmap(
        &self,
        pixels: &Vec<(usize, usize)>,
        heatmap: DistanceField,
    ) -> (r: Result<DistanceField, EvaluationError>)
        requires
            heatmap.wf(),
            heatmap.exact(),
        ensures
            match r {
                Result::Ok(f) => {
                    &&& f.wf()
                    &&& f.exact()
                    &&& f.rows == heatmap.rows
                    &&& f.cols == heatmap.cols
                    &&& f.srcs() == heatmap.srcs().union(
                        inb_set(pixels@, heatmap.rows as int, heatmap.cols as int),
                    )
                },
                Result::Err(_) => false,
            },
    {
        let mut h = heatmap;
        h.extend(pixels);
        Result::Ok(h)
    }

    /// Reduce the two heatmaps and pixel lists to the error statistics.
    ///
    /// Fails with [`EvaluationError::EmptyReference`] when the reference has
    /// no pixels, then with [`EvaluationError::EmptyObservation`] when the
    /// observation has none; otherwise it succeeds.
    pub fn calculate_error_percentage(
        &self,
        reference_heatmap: &DistanceField,
        observation_heatmap: &DistanceField,
        reference_pixels: &Vec<(usize, usize)>,
        observation_pixels: &Vec<(usize, usize)>,
    ) -> (r: Result<ErrorMetrics, EvaluationError>)
        requires
            reference_heatmap.wf(),
            observation_heatmap.wf(),
            reference_pixels@.len() <= 0x3fffffff,
            observation_pixels@.len() <= 0x3fffffff,
        ensures
            match r {
                Result::Ok(m) => {
                    &&& reference_pixels@.len() > 0
                    &&& observation_pixels@.len() > 0
                    &&& agg_grid_ok(
                        inb_set(
                            observation_pixels@,
                            reference_heatmap.rows as int,
                            reference_heatmap.cols as int,
                        ),
                        *reference_heatmap,
                        inb_set(
                            reference_pixels@,
                            observation_heatmap.rows as int,
                            observation_heatmap.cols as int,
                        ),
                        *observation_heatmap,
                        AGG_CHUNK_SIZE as int,
                        AGG_GRID_SIZE as int,
                        m.grid@,
                    )
                    &&& m.top_5_sum as int == top_k_total(grid_flat(m.grid@), TOP_K as int)
                    &&& m.error_sum as int == dist_sum(observation_pixels@, *reference_heatmap)
                        + dist_sum(reference_pixels@, *observation_heatmap)
                    &&& m.error_count as int == dist_count(observation_pixels@, *reference_heatmap)
                        + dist_count(reference_pixels@, *observation_heatmap)
                    &&& m.pixel_count == reference_pixels@.len()
                },
                Result::Err(e) => {
                    &&& (e == EvaluationError::EmptyReference && reference_pixels@.len() == 0)
                        || (e == EvaluationError::EmptyObservation
                            && reference_pixels@.len() > 0 && observation_pixels@.len() == 0)
                },
            },
    {
        if reference_pixels.len() == 0 {
            return Result::Err(EvaluationError::EmptyReference);
        }
        if observation_pixels.len() == 0 {
            return Result::Err(EvaluationError::EmptyObservation);
        }
        let grid = aggregate_grid(
            observation_pixels,
            reference_heatmap,
            reference_pixels,
            observation_heatmap,
            AGG_CHUNK_SIZE,
            AGG_GRID_SIZE,
        );
        let top_5_sum = top_k_sum(&grid, TOP_K);
        let (obs_sum, obs_count) = sum_distances(observation_pixels, reference_heatmap);
        let (ref_sum, ref_count) = sum_distances(reference_pixels, observation_heatmap);
        proof {
            lemma_dist_sum_range(observation_pixels@, *reference_heatmap);
            lemma_dist_sum_range(reference_pixels@, *observation_heatmap);
            assert(0x3fffffff * 0x80000000int + 0x3fffffff * 0x80000000int < i64::MAX as int)
                by (nonlinear_arith);
            assert((observation_pixels@.len() as int) * 0x80000000
                <= 0x3fffffff * 0x80000000int) by (nonlinear_arith)
                requires observation_pixels@.len() as int <= 0x3fffffff;
            assert((reference_pixels@.len() as int) * 0x80000000 <= 0x3fffffff * 0x80000000int)
                by (nonlinear_arith)
                requires reference_pixels@.len() as int <= 0x3fffffff;
            assert(-(0x3fffffff * 0x80000000int) <= -((observation_pixels@.len() as int)
                * 0x80000000)) by (nonlinear_arith)
                requires observation_pixels@.len() as int <= 0x3fffffff;
            assert(-(0x3fffffff * 0x80000000int) <= -((reference_pixels@.len() as int)
                * 0x80000000)) by (nonlinear_arith)
                requires reference_pixels@.len() as int <= 0x3fffffff;
        }
        let error_sum = obs_sum + ref_sum;
        let error_count = obs_count + ref_count;
        Result::Ok(ErrorMetrics {
            top_5_sum,
            error_sum,
            error_count,
            pixel_count: reference_pixels.len(),
            grid,
        })
    }

    /// Evaluate a decoded reference grid against a decoded observation
    /// grid, both given as channel values over the canvas.
    ///
    /// The background channel value follows the evaluator's setting.  Fails
    /// exactly when one side has no drawn pixels, the reference reported
    /// first.
    pub fn evaluate_grids(
        &self,
        reference: &Vec<Vec<u8>>,
        observation: &Vec<Vec<u8>>,
    ) -> (r: Result<ErrorMetrics, EvaluationError>)
        requires
            cell_total(reference@, reference@.len() as int) <= 0x3fffffff,
            cell_total(observation@, observation@.len() as int) <= 0x3fffffff,
        ensures
            ({
                let bg = if self.bg_transparent { 0u8 } else { 255u8 };
                let refpix = image_pixels(reference@, bg, reference@.len() as int);
                let obspix = image_pixels(observation@, bg, observation@.len() as int);
                match r {
                    Result::Ok(m) => {
                        &&& refpix.len() > 0
                        &&& obspix.len() > 0
                        &&& exists|rf: DistanceField, of: DistanceField|
                            rf.wf() && rf.exact() && of.wf() && of.exact()
                            && rf.rows == CANVAS_SIZE && rf.cols == CANVAS_SIZE
                            && of.rows == CANVAS_SIZE && of.cols == CANVAS_SIZE
                            && (#[trigger] rf.srcs()) == inb_set(
                                refpix,
                                CANVAS_SIZE as int,
                                CANVAS_SIZE as int,
                            )
                            && (#[trigger] of.srcs()) == inb_set(
                                obspix,
                                CANVAS_SIZE as int,
                                CANVAS_SIZE as int,
                            )
                            && agg_grid_ok(
                                inb_set(obspix, CANVAS_SIZE as int, CANVAS_SIZE as int),
                                rf,
                                inb_set(refpix, CANVAS_SIZE as int, CANVAS_SIZE as int),
                                of,
                                AGG_CHUNK_SIZE as int,
                                AGG_GRID_SIZE as int,
                                m.grid@,
                            )
                            && m.top_5_sum as int == top_k_total(
                                grid_flat(m.grid@),
                                TOP_K as int,
                            )
                            && m.error_sum as int == dist_sum(obspix, rf) + dist_sum(refpix, of)
                            && m.error_count as int == dist_count(obspix, rf)
                                + dist_count(refpix, of)
                        &&& m.pixel_count == refpix.len()
                    },
                    Result::Err(e) => {
                        &&& (e == EvaluationError::EmptyReference && refpix.len() == 0)
                            || (e == EvaluationError::EmptyObservation && refpix.len() > 0
                                && obspix.len() == 0)
                    },
                }
            }),
    {
        let white_pixel = self.background_value();
        let reference_pixels = self.extract_non_background_pixels(reference, white_pixel);
        let observation_pixels = self.extract_non_background_pixels(observation, white_pixel);
        proof {
            lemma_image_pixels_len(reference@, white_pixel, reference@.len() as int);
            lemma_image_pixels_len(observation@, white_pixel, observation@.len() as int);
        }
        let reference_heatmap = match ImageEvaluator::fill_heatmap(
            self,
            &reference_pixels,
            DistanceField::unvisited(CANVAS_SIZE, CANVAS_SIZE),
        ) {
            Result::Ok(f) => f,
            Result::Err(e) => {
                return Result::Err(e);
            },
        };
        let observation_heatmap = match ImageEvaluator::fill_heatmap(
            self,
            &observation_pixels,
            DistanceField::unvisited(CANVAS_SIZE, CANVAS_SIZE),
        ) {
            Result::Ok(f) => f,
            Result::Err(e) => {
                return Result::Err(e);
            },
        };
        proof {
            assert(reference_heatmap.srcs() =~= inb_set(
                reference_pixels@,
                CANVAS_SIZE as int,
                CANVAS_SIZE as int,
            ));
            assert(observation_heatmap.srcs() =~= inb_set(
                observation_pixels@,
                CANVAS_SIZE as int,
                CANVAS_SIZE as int,
            ));
        }
        self.calculate_error_percentage(
            &reference_heatmap,
            &observation_heatmap,
            &reference_pixels,
            &observation_pixels,
        )
    }
}

/// All cells of `image` that differ from `background_value`, in row-major
/// order.
#[verifier::loop_isolation(false)]
pub fn extract_pixels(image: &Vec<Vec<u8>>, background_value: u8) -> (r: Vec<(usize, usize)>)
    ensures
        r@ == image_pixels(image@, background_value, image@.len() as int),
{
    let mut r: Vec<(usize, usize)> = Vec::new();
    let mut y: usize = 0;
    while y < image.len()
        invariant
            y <= image.len(),
            r@ == image_pixels(image@, background_value, y as int),
        decreases image.len() - y,
    {
        let row = &image[y];
        let ghost base = r@;
        let mut x: usize = 0;
        while x < row.len()
            invariant
                x <= row.len(),
                row == image[y as int],
                r@ == base + row_pixels(row@, y, background_value, x as int),
            decreases row.len() - x,
        {
            if row[x] != background_value {
                r.push((y, x));
            }
            x = x + 1;
        }
        y = y + 1;
    }
    r
}

/// Copy a rectangular window out of a channel grid.
#[verifier::loop_isolation(false)]
pub fn crop_region(
    image: &Vec<Vec<u8>>,
    top: usize,
    left: usize,
    height: usize,
    width: usize,
) -> (r: Vec<Vec<u8>>)
    requires
        top + height <= image@.len(),
        forall|y: int| 0 <= y < image@.len() ==> left + width <= (#[trigger] image@[y])@.len(),
    ensures
        r@.len() == height,
        forall|y: int| 0 <= y < height ==> (#[trigger] r@[y])@.len() == width,
        forall|y: int, x: int| 0 <= y < height && 0 <= x < width
            ==> (#[trigger] r@[y]@[x]) == image@[top + y]@[left + x],
{
    let total_rows = image.len();
    let mut r: Vec<Vec<u8>> = Vec::new();
    let mut y: usize = 0;
    while y < height
        invariant
            y <= height,
            total_rows == image@.len(),
            r@.len() == y,
            forall|i: int| 0 <= i < y ==> (#[trigger] r@[i])@.len() == width,
            forall|i: int, x: int| 0 <= i < y && 0 <= x < width
                ==> (#[trigger] r@[i]@[x]) == image@[top + i]@[left + x],
        decreases height - y,
    {
        let srow = &image[top + y];
        let srow_len = srow.len();
        let mut row: Vec<u8> = Vec::new();
        let mut x: usize = 0;
        while x < width
            invariant
                x <= width,
                srow == image@[top + y],
                srow_len == srow@.len(),
                row@.len() == x,
                forall|j: int| 0 <= j < x ==> (#[trigger] row@[j]) == image@[top + y]@[left + j],
            decreases width - x,
        {
            row.push(srow[left + x]);
            x = x + 1;
        }
        let ghost prev = r@;
        r.push(row);
        proof {
            assert forall|i: int, x: int| 0 <= i < y + 1 && 0 <= x < width
                implies (#[trigger] r@[i]@[x]) == image@[top + i]@[left + x] by {
                if i < y {
                    assert(r@[i] == prev[i]);
                    assert(prev[i]@[x] == image@[top + i]@[left + x]);
                } else {
                    assert(r@[i] == row);
                }
            }
        }
        y = y + 1;
    }
    r
}

} // verus!
