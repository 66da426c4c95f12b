//! Streaming evaluation: a fixed reference, observations fed incrementally.
//!
//! A [`StreamingEvaluator`] computes the reference distance field once and
//! then accepts observation pixels batch by batch, extending the observation
//! field incrementally and recomputing the block-maxima grid, so each update
//! costs work proportional to the newly drawn pixels rather than the canvas.
//! The precomputed reference side can be exported to and restored from a
//! flat serializable form.

use vstd::prelude::*;

use crate::aggregate::agg_grid_ok;
use crate::aggregate::aggregate_grid;
use crate::aggregate::dist_count;
use crate::aggregate::dist_sum;
use crate::aggregate::grid_flat;
use crate::aggregate::lemma_agg_unique;
use crate::aggregate::sum_distances;
use crate::aggregate::top_k_sum;
use crate::aggregate::top_k_total;
use crate::distance_field::gat;
use crate::distance_field::inb_set;
use crate::distance_field::lemma_exact_unique;
use crate::distance_field::DistanceField;
use crate::evaluator::extract_pixels;
use crate::evaluator::image_pixels;
use crate::evaluator::ErrorMetrics;
use crate::pixel_set::fresh_subseq;
use crate::pixel_set::lemma_fresh_covers;
use crate::pixel_set::PixelSet;
use crate::EvaluationError;
use crate::AGG_CHUNK_SIZE;
use crate::AGG_GRID_SIZE;
use crate::CANVAS_SIZE;
use crate::MAX_AREA;
use crate::TOP_K;
use crate::UNVISITED;

verus! {

/// Flat index of cell `(y, x)` in a row-major grid of width `cols`.
pub open spec fn fidx(y: int, x: int, cols: int) -> int {
    y * cols + x
}

/// `data` is the row-major flattening of the `rows x cols` grid `cells`.
pub open spec fn flat_matches(data: Seq<i32>, cells: Seq<Vec<i32>>, rows: int, cols: int) -> bool {
    &&& data.len() == rows * cols
    &&& forall|y: int, x: int| #![trigger fidx(y, x, cols)] 0 <= y < rows && 0 <= x < cols
        ==> data[fidx(y, x, cols)] == gat(cells, y, x)
}

/// A distance field in flat, serialization-friendly form.
pub struct SerializableHeatmap {
    /// Row-major cell values.
    pub data: Vec<i32>,
    /// `(rows, cols)` of the original grid.
    pub shape: (usize, usize),
}

/// `shape` is a plausible grid shape and `data` has exactly one value per
/// cell.
pub open spec fn serialized_ok(data: Seq<i32>, shape: (usize, usize)) -> bool {
    &&& 1 <= shape.0
    &&& 1 <= shape.1
    &&& (shape.0 as int) * (shape.1 as int) <= MAX_AREA as int
    &&& data.len() == (shape.0 as int) * (shape.1 as int)
}

impl SerializableHeatmap {
    /// Flatten a field into its serializable form.
    #[verifier::loop_isolation(false)]
    pub fn from_field(f: &DistanceField) -> (r: SerializableHeatmap)
        requires
            f.wf(),
        ensures
            r.shape.0 == f.rows,
            r.shape.1 == f.cols,
            flat_matches(r.data@, f.cells@, f.rows as int, f.cols as int),
            serialized_ok(r.data@, r.shape),
    {
        let rows = f.rows;
        let cols = f.cols;
        let mut data: Vec<i32> = Vec::new();
        let mut y: usize = 0;
        while y < rows
            invariant
                y <= rows,
                data@.len() == y as int * cols as int,
                forall|i: int, j: int| #![trigger fidx(i, j, cols as int)]
                    0 <= i < y && 0 <= j < cols
                    ==> data@[fidx(i, j, cols as int)] == gat(f.cells@, i, j),
            decreases rows - y,
        {
            let row = &f.cells[y];
            let mut x: usize = 0;
            proof {
                assert((y as int) * (cols as int) <= (rows as int) * (cols as int))
                    by (nonlinear_arith)
                    requires 0 <= y as int <= rows as int && 0 <= cols as int;
            }
            while x < cols
                invariant
                    x <= cols,
                    row == f.cells@[y as int],
                    data@.len() == y as int * cols as int + x as int,
                    forall|i: int, j: int| #![trigger fidx(i, j, cols as int)]
                        0 <= i < y && 0 <= j < cols
                        ==> data@[fidx(i, j, cols as int)] == gat(f.cells@, i, j),
                    forall|j: int| #![trigger fidx(y as int, j, cols as int)] 0 <= j < x
                        ==> data@[fidx(y as int, j, cols as int)] == gat(f.cells@, y as int, j),
                decreases cols - x,
            {
                let ghost before = data@;
                data.push(row[x]);
                proof {
                    assert(fidx(y as int, x as int, cols as int) == before.len());
                    assert forall|i: int, j: int| #![trigger fidx(i, j, cols as int)]
                        0 <= i < y && 0 <= j < cols
                        implies data@[fidx(i, j, cols as int)] == gat(f.cells@, i, j) by {
                        assert(0 <= i * (cols as int) + j < y as int * (cols as int))
                            by (nonlinear_arith)
                            requires 0 <= i && i < y as int && 0 <= j < cols as int;
                        assert(fidx(i, j, cols as int) == i * (cols as int) + j);
                        assert(data@[fidx(i, j, cols as int)] == before[fidx(i, j, cols as int)]);
                    }
                }
                x = x + 1;
            }
            proof {
                assert(y as int * cols as int + cols as int == (y as int + 1) * (cols as int))
                    by (nonlinear_arith);
            }
            y = y + 1;
        }
        SerializableHeatmap { data, shape: (rows, cols) }
    }

    /// Rebuild a field from its serializable form.
    ///
    /// Fails with [`EvaluationError::InvalidSerializedShape`] exactly when
    /// the flat data does not hold one value per cell of a positive,
    /// bounded shape.  The rebuilt field carries the stored values verbatim
    /// and makes no claim that they are exact distances.
    #[verifier::loop_isolation(false)]
    pub fn to_field(&self) -> (r: Result<DistanceField, EvaluationError>)
        ensures
            match r {
                Result::Ok(f) => {
                    &&& serialized_ok(self.data@, self.shape)
                    &&& f.wf()
                    &&& f.rows == self.shape.0
                    &&& f.cols == self.shape.1
                    &&& flat_matches(self.data@, f.cells@, f.rows as int, f.cols as int)
                },
                Result::Err(e) => {
                    &&& e == EvaluationError::InvalidSerializedShape
                    &&& !serialized_ok(self.data@, self.shape)
                },
            },
    {
        let rows = self.shape.0;
        let cols = self.shape.1;
        if rows == 0 || cols == 0 {
            return Result::Err(EvaluationError::InvalidSerializedShape);
        }
        if rows > MAX_AREA / cols {
            proof {
                let m = MAX_AREA as int;
                let cl = cols as int;
                let q = m / cl;
                vstd::arithmetic::div_mod::lemma_fundamental_div_mod(m, cl);
                vstd::arithmetic::div_mod::lemma_mod_bound(m, cl);
                vstd::arithmetic::mul::lemma_mul_inequality(q + 1, rows as int, cl);
                assert((q + 1) * cl == q * cl + cl) by (nonlinear_arith);
                assert(q * cl == cl * q) by (nonlinear_arith);
                assert((rows as int) * cl > m);
            }
            return Result::Err(EvaluationError::InvalidSerializedShape);
        }
        proof {
            let m = MAX_AREA as int;
            let cl = cols as int;
            let q = m / cl;
            vstd::arithmetic::div_mod::lemma_fundamental_div_mod(m, cl);
            vstd::arithmetic::div_mod::lemma_mod_bound(m, cl);
            vstd::arithmetic::mul::lemma_mul_inequality(rows as int, q, cl);
            assert(q * cl == cl * q) by (nonlinear_arith);
            assert((rows as int) * cl <= m);
        }
        let area = rows * cols;
        if self.data.len() != area {
            return Result::Err(EvaluationError::InvalidSerializedShape);
        }
        let mut cells: Vec<Vec<i32>> = Vec::new();
        let mut idx: usize = 0;
        let mut y: usize = 0;
        while y < rows
            invariant
                y <= rows,
                idx as int == y as int * cols as int,
                idx <= area,
                cells@.len() == y,
                forall|i: int| 0 <= i < y ==> (#[trigger] cells@[i])@.len() == cols,
                forall|i: int, j: int| #![trigger gat(cells@, i, j)] 0 <= i < y && 0 <= j < cols
                    ==> gat(cells@, i, j) == self.data@[fidx(i, j, cols as int)],
            decreases rows - y,
        {
            proof {
                assert((y as int + 1) * (cols as int) == y as int * cols as int + cols as int)
                    by (nonlinear_arith);
                assert((y as int + 1) * (cols as int) <= (rows as int) * (cols as int))
                    by (nonlinear_arith)
                    requires 0 <= y as int + 1 <= rows as int && 0 <= cols as int;
            }
            let mut row: Vec<i32> = Vec::new();
            let mut x: usize = 0;
            while x < cols
                invariant
                    x <= cols,
                    idx as int == y as int * cols as int + x as int,
                    idx < area || (x == cols && idx == y as int * cols as int + cols as int),
                    idx as int <= (y as int + 1) * (cols as int),
                    row@.len() == x,
                    forall|j: int| #![trigger row@[j]] 0 <= j < x
                        ==> row@[j] as int == self.data@[fidx(y as int, j, cols as int)] as int,
                decreases cols - x,
            {
                row.push(self.data[idx]);
                proof {
                    assert(fidx(y as int, x as int, cols as int) == idx as int);
                }
                idx = idx + 1;
                x = x + 1;
            }
            let ghost prev = cells@;
            cells.push(row);
            proof {
                assert forall|i: int, j: int| #![trigger gat(cells@, i, j)]
                    0 <= i < y + 1 && 0 <= j < cols
                    implies gat(cells@, i, j) == self.data@[fidx(i, j, cols as int)] by {
                    if i < y {
                        assert(cells@[i] == prev[i]);
                        assert(gat(prev, i, j) == self.data@[fidx(i, j, cols as int)]);
                    } else {
                        assert(cells@[i] == row);
                    }
                }
            }
            y = y + 1;
        }
        let f = DistanceField { rows, cols, cells, sources: Ghost(arbitrary()) };
        Result::Ok(f)
    }
}

/// Law: flattening a field and rebuilding from the flat form restores every
/// cell value.
pub proof fn lemma_serialization_roundtrip(f: DistanceField, s: SerializableHeatmap, g: DistanceField)
    requires
        f.wf(),
        g.wf(),
        s.shape.0 == f.rows,
        s.shape.1 == f.cols,
        flat_matches(s.data@, f.cells@, f.rows as int, f.cols as int),
        g.rows == s.shape.0,
        g.cols == s.shape.1,
        flat_matches(s.data@, g.cells@, g.rows as int, g.cols as int),
    ensures
        forall|y: int, x: int| f.inb(y, x) ==> #[trigger] f.at(y, x) == g.at(y, x),
{
    assert forall|y: int, x: int| f.inb(y, x) implies #[trigger] f.at(y, x) == g.at(y, x) by {
        assert(s.data@[fidx(y, x, f.cols as int)] == gat(f.cells@, y, x));
        assert(s.data@[fidx(y, x, g.cols as int)] == gat(g.cells@, y, x));
    }
}

/// The serializable reference-side state of a streaming evaluator.
pub struct StreamingEvaluatorState {
    /// The precomputed reference heatmap, flattened.
    pub reference_heatmap: SerializableHeatmap,
    /// The reference pixels, in extraction order.
    pub reference_pixels: Vec<(usize, usize)>,
    /// The background interpretation the reference was extracted with.
    pub bg_transparent: bool,
}

/// Copy a pixel list.
fn copy_pixels(v: &Vec<(usize, usize)>) -> (r: Vec<(usize, usize)>)
    ensures
        r@ == v@,
{
    let mut r: Vec<(usize, usize)> = Vec::new();
    let mut i: usize = 0;
    while i < v.len()
        invariant
            i <= v.len(),
            r@ == v@.take(i as int),
        decreases v.len() - i,
    {
        r.push(v[i]);
        proof {
            assert(v@.take(i as int + 1) =~= v@.take(i as int).push(v@[i as int]));
        }
        i = i + 1;
    }
    proof {
        assert(v@.take(v@.len() as int) =~= v@);
    }
    r
}

/// Copy a grid of rows, cell for cell.
fn copy_grid(g: &Vec<Vec<i32>>) -> (r: Vec<Vec<i32>>)
    ensures
        r@.len() == g@.len(),
        forall|y: int| 0 <= y < g@.len() ==> (#[trigger] r@[y])@ == g@[y]@,
{
    let mut r: Vec<Vec<i32>> = Vec::new();
    let mut y: usize = 0;
    while y < g.len()
        invariant
            y <= g.len(),
            r@.len() == y,
            forall|i: int| 0 <= i < y ==> (#[trigger] r@[i])@ == g@[i]@,
        decreases g.len() - y,
    {
        let src = &g[y];
        let mut row: Vec<i32> = Vec::new();
        let mut x: usize = 0;
        while x < src.len()
            invariant
                x <= src.len(),
                src == g@[y as int],
                row@ == src@.take(x as int),
            decreases src.len() - x,
        {
            row.push(src[x]);
            proof {
                assert(src@.take(x as int + 1) =~= src@.take(x as int).push(src@[x as int]));
            }
            x = x + 1;
        }
        proof {
            assert(src@.take(src@.len() as int) =~= src@);
        }
        let ghost prev = r@;
        r.push(row);
        proof {
            assert forall|i: int| 0 <= i < y + 1 implies (#[trigger] r@[i])@ == g@[i]@ by {
                if i < y {
                    assert(r@[i] == prev[i]);
                }
            }
        }
        y = y + 1;
    }
    r
}

/// Real-time evaluator: the reference side is computed once and reused, the
/// observation side grows pixel batch by pixel batch.
pub struct StreamingEvaluator {
    /// Precomputed reference heatmap; never changes after construction.
    pub reference_heatmap: DistanceField,
    /// The reference pixels, in extraction order.
    pub reference_pixels: Vec<(usize, usize)>,
    /// Live observation heatmap, extended incrementally.
    pub observation_heatmap: DistanceField,
    /// The distinct observation pixels recorded so far.
    pub observation_pixels: PixelSet,
    /// Cached block-maxima grid for fast top-5 retrieval.
    pub current_grid: Vec<Vec<i32>>,
    /// The background interpretation of the session.
    pub bg_transparent: bool,
    /// Side length of one aggregation block, in canvas cells.
    pub chunk_size: usize,
    /// Side length of the aggregation grid, in blocks.
    pub grid_size: usize,
}

impl StreamingEvaluator {
    /// Canvas height.
    pub open spec fn rows(self) -> int {
        self.reference_heatmap.rows as int
    }

    /// Canvas width.
    pub open spec fn cols(self) -> int {
        self.reference_heatmap.cols as int
    }

    /// The set of observation pixels recorded so far.
    pub open spec fn obs_set(self) -> Set<(int, int)> {
        self.observation_pixels.pset()
    }

    /// The set of in-bounds reference pixels.
    pub open spec fn ref_set(self) -> Set<(int, int)> {
        inb_set(self.reference_pixels@, self.rows(), self.cols())
    }

    /// Everything but the cached grid: consistent dimensions, a well-formed
    /// pixel set, and an observation heatmap that is exact for it.
    pub open spec fn wf_core(self) -> bool {
        &&& self.reference_heatmap.wf()
        &&& self.observation_heatmap.wf()
        &&& self.observation_heatmap.exact()
        &&& self.observation_pixels.wf()
        &&& self.observation_heatmap.rows == self.reference_heatmap.rows
        &&& self.observation_heatmap.cols == self.reference_heatmap.cols
        &&& self.observation_pixels.rows == self.reference_heatmap.rows
        &&& self.observation_pixels.cols == self.reference_heatmap.cols
        &&& self.observation_heatmap.srcs() == self.observation_pixels.pset()
        &&& 1 <= self.chunk_size
        &&& 1 <= self.grid_size
        &&& self.reference_pixels@.len() <= 0x3fffffff
    }

    /// Session invariant: the cached grid holds the block maxima of the
    /// current observation against the reference and vice versa.
    pub open spec fn wf(self) -> bool {
        &&& self.wf_core()
        &&& agg_grid_ok(
            self.obs_set(),
            self.reference_heatmap,
            self.ref_set(),
            self.observation_heatmap,
            self.chunk_size as int,
            self.grid_size as int,
            self.current_grid@,
        )
    }

    /// Build a session over an `rows x cols` canvas from a reference pixel
    /// list, with the given aggregation geometry.
    ///
    /// Fails with [`EvaluationError::EmptyReference`] exactly when the list
    /// is empty.
    pub fn with_config(
        reference_pixels: Vec<(usize, usize)>,
        rows: usize,
        cols: usize,
        chunk_size: usize,
        grid_size: usize,
        bg_transparent: bool,
    ) -> (r: Result<StreamingEvaluator, EvaluationError>)
        requires
            1 <= rows,
            1 <= cols,
            rows * cols <= MAX_AREA,
            1 <= chunk_size,
            1 <= grid_size,
            reference_pixels@.len() <= 0x3fffffff,
        ensures
            match r {
                Result::Ok(s) => {
                    &&& reference_pixels@.len() > 0
                    &&& s.wf()
                    &&& s.reference_heatmap.exact()
                    &&& s.reference_heatmap.srcs() == inb_set(
                        reference_pixels@,
                        rows as int,
                        cols as int,
                    )
                    &&& s.reference_heatmap.rows == rows
                    &&& s.reference_heatmap.cols == cols
                    &&& s.reference_pixels@ == reference_pixels@
                    &&& s.bg_transparent == bg_transparent
                    &&& s.chunk_size == chunk_size
                    &&& s.grid_size == grid_size
                    &&& s.obs_set() === Set::empty()
                    &&& s.observation_pixels.items@.len() == 0
                },
                Result::Err(e) => {
                    &&& e == EvaluationError::EmptyReference
                    &&& reference_pixels@.len() == 0
                },
            },
    {
        let reference_heatmap = match DistanceField::build(&reference_pixels, rows, cols) {
            Result::Ok(f) => f,
            Result::Err(_) => {
                return Result::Err(EvaluationError::EmptyReference);
            },
        };
        let observation_heatmap = DistanceField::unvisited(rows, cols);
        let observation_pixels = PixelSet::new(rows, cols);
        let current_grid = aggregate_grid(
            observation_pixels.pixels(),
            &reference_heatmap,
            &reference_pixels,
            &observation_heatmap,
            chunk_size,
            grid_size,
        );
        let s = StreamingEvaluator {
            reference_heatmap,
            reference_pixels,
            observation_heatmap,
            observation_pixels,
            current_grid,
            bg_transparent,
            chunk_size,
            grid_size,
        };
        proof {
            assert(s.obs_set() =~= Set::empty());
        }
        Result::Ok(s)
    }

    /// Build a session from a decoded reference grid over the default
    /// canvas, precomputing the reference heatmap once.
    ///
    /// Fails with [`EvaluationError::EmptyReference`] exactly when the grid
    /// has no non-background cell.
    pub fn from_reference_arrays(reference_array: Vec<Vec<u8>>, bg_transparent: bool) -> (r:
        Result<StreamingEvaluator, EvaluationError>)
        requires
            crate::evaluator::cell_total(reference_array@, reference_array@.len() as int)
                <= 0x3fffffff,
        ensures
            ({
                let bg = if bg_transparent { 0u8 } else { 255u8 };
                let refpix = image_pixels(reference_array@, bg, reference_array@.len() as int);
                match r {
                    Result::Ok(s) => {
                        &&& refpix.len() > 0
                        &&& s.wf()
                        &&& s.reference_heatmap.exact()
                        &&& s.reference_heatmap.srcs() == inb_set(
                            refpix,
                            CANVAS_SIZE as int,
                            CANVAS_SIZE as int,
                        )
                        &&& s.reference_heatmap.rows == CANVAS_SIZE
                        &&& s.reference_heatmap.cols == CANVAS_SIZE
                        &&& s.reference_pixels@ == refpix
                        &&& s.bg_transparent == bg_transparent
                        &&& s.chunk_size == AGG_CHUNK_SIZE
                        &&& s.grid_size == AGG_GRID_SIZE
                        &&& s.obs_set() === Set::empty()
                        &&& s.observation_pixels.items@.len() == 0
                    },
                    Result::Err(e) => {
                        &&& e == EvaluationError::EmptyReference
                        &&& refpix.len() == 0
                    },
                }
            }),
    {
        let white_pixel: u8 = if bg_transparent {
            0
        } else {
            255
        };
        let reference_pixels = extract_pixels(&reference_array, white_pixel);
        proof {
            crate::evaluator::lemma_image_pixels_len(
                reference_array@,
                white_pixel,
                reference_array@.len() as int,
            );
        }
        StreamingEvaluator::with_config(
            reference_pixels,
            CANVAS_SIZE,
            CANVAS_SIZE,
            AGG_CHUNK_SIZE,
            AGG_GRID_SIZE,
            bg_transparent,
        )
    }

    /// Rebuild a session from exported state, skipping the reference flood
    /// fill.  The restored heatmap carries the serialized values verbatim.
    ///
    /// Fails with [`EvaluationError::InvalidSerializedShape`] exactly when
    /// the flat data does not match its declared shape or the pixel list is
    /// too large to evaluate.
    pub fn from_serialized_state(state: StreamingEvaluatorState) -> (r: Result<
        StreamingEvaluator,
        EvaluationError,
    >)
        ensures
            match r {
                Result::Ok(s) => {
                    &&& serialized_ok(state.reference_heatmap.data@, state.reference_heatmap.shape)
                    &&& state.reference_pixels@.len() <= 0x3fffffff
                    &&& s.wf()
                    &&& s.reference_heatmap.rows == state.reference_heatmap.shape.0
                    &&& s.reference_heatmap.cols == state.reference_heatmap.shape.1
                    &&& flat_matches(
                        state.reference_heatmap.data@,
                        s.reference_heatmap.cells@,
                        s.rows(),
                        s.cols(),
                    )
                    &&& s.reference_pixels@ == state.reference_pixels@
                    &&& s.bg_transparent == state.bg_transparent
                    &&& s.chunk_size == AGG_CHUNK_SIZE
                    &&& s.grid_size == AGG_GRID_SIZE
                    &&& s.obs_set() === Set::empty()
                    &&& s.observation_pixels.items@.len() == 0
                },
                Result::Err(e) => {
                    &&& e == EvaluationError::InvalidSerializedShape
                    &&& !(serialized_ok(
                        state.reference_heatmap.data@,
                        state.reference_heatmap.shape,
                    ) && state.reference_pixels@.len() <= 0x3fffffff)
                },
            },
    {
        let reference_heatmap = match state.reference_heatmap.to_field() {
            Result::Ok(f) => f,
            Result::Err(e) => {
                return Result::Err(e);
            },
        };
        if state.reference_pixels.len() > 0x3fffffff {
            return Result::Err(EvaluationError::InvalidSerializedShape);
        }
        let rows = reference_heatmap.rows;
        let cols = reference_heatmap.cols;
        let observation_heatmap = DistanceField::unvisited(rows, cols);
        let observation_pixels = PixelSet::new(rows, cols);
        let current_grid = aggregate_grid(
            observation_pixels.pixels(),
            &reference_heatmap,
            &state.reference_pixels,
            &observation_heatmap,
            AGG_CHUNK_SIZE,
            AGG_GRID_SIZE,
        );
        let s = StreamingEvaluator {
            reference_heatmap,
            reference_pixels: state.reference_pixels,
            observation_heatmap,
            observation_pixels,
            current_grid,
            bg_transparent: state.bg_transparent,
            chunk_size: AGG_CHUNK_SIZE,
            grid_size: AGG_GRID_SIZE,
        };
        proof {
            assert(s.obs_set() =~= Set::empty());
        }
        Result::Ok(s)
    }

    /// Export the immutable reference side for caching across sessions.
    pub fn export_state(&self) -> (r: StreamingEvaluatorState)
        requires
            self.wf(),
        ensures
            r.reference_heatmap.shape.0 == self.reference_heatmap.rows,
            r.reference_heatmap.shape.1 == self.reference_heatmap.cols,
            serialized_ok(r.reference_heatmap.data@, r.reference_heatmap.shape),
            flat_matches(
                r.reference_heatmap.data@,
                self.reference_heatmap.cells@,
                self.rows(),
                self.cols(),
            ),
            r.reference_pixels@ == self.reference_pixels@,
            r.bg_transparent == self.bg_transparent,
    {
        StreamingEvaluatorState {
            reference_heatmap: SerializableHeatmap::from_field(&self.reference_heatmap),
            reference_pixels: copy_pixels(&self.reference_pixels),
            bg_transparent: self.bg_transparent,
        }
    }

    /// Recompute the cached block-maxima grid from the current pixel sets.
    fn update_current_grid(&mut self)
        requires
            old(self).wf_core(),
        ensures
            final(self).wf(),
            final(self).reference_heatmap == old(self).reference_heatmap,
            final(self).reference_pixels == old(self).reference_pixels,
            final(self).observation_heatmap == old(self).observation_heatmap,
            final(self).observation_pixels == old(self).observation_pixels,
            final(self).bg_transparent == old(self).bg_transparent,
            final(self).chunk_size == old(self).chunk_size,
            final(self).grid_size == old(self).grid_size,
    {
        let grid = aggregate_grid(
            self.observation_pixels.pixels(),
            &self.reference_heatmap,
            &self.reference_pixels,
            &self.observation_heatmap,
            self.chunk_size,
            self.grid_size,
        );
        self.current_grid = grid;
    }

    /// Record one stroke's pixels and hand back the updated top-5 sum.
    ///
    /// Only truly new in-bounds pixels extend the observation heatmap; a
    /// batch of already-known or out-of-bounds pixels changes nothing and
    /// returns the cached score.  The call never fails on a built session.
    pub fn add_observation_pixels(&mut self, new_pixels: &Vec<(usize, usize)>) -> (r: Result<
        i64,
        EvaluationError,
    >)
        requires
            old(self).wf(),
        ensures
            final(self).wf(),
            final(self).reference_heatmap == old(self).reference_heatmap,
            final(self).reference_pixels == old(self).reference_pixels,
            final(self).bg_transparent == old(self).bg_transparent,
            final(self).chunk_size == old(self).chunk_size,
            final(self).grid_size == old(self).grid_size,
            final(self).obs_set() == old(self).obs_set().union(
                inb_set(new_pixels@, old(self).rows(), old(self).cols()),
            ),
            final(self).observation_pixels.items@ == old(self).observation_pixels.items@
                + fresh_subseq(
                    new_pixels@,
                    old(self).obs_set(),
                    old(self).rows(),
                    old(self).cols(),
                ),
            match r {
                Result::Ok(score) => score as int == top_k_total(
                    grid_flat(final(self).current_grid@),
                    TOP_K as int,
                ),
                Result::Err(_) => false,
            },
            inb_set(new_pixels@, old(self).rows(), old(self).cols()).subset_of(old(self).obs_set())
                ==> *final(self) == *old(self),
    {
        let ghost base = self.obs_set();
        let ghost rows_ = self.rows();
        let ghost cols_ = self.cols();
        let fresh = self.observation_pixels.insert_new(new_pixels);
        proof {
            crate::pixel_set::lemma_fresh_empty_iff(new_pixels@, base, rows_, cols_);
        }
        if fresh.len() == 0 {
            proof {
                assert(self.obs_set() =~= base);
            }
            return Result::Ok(self.get_current_top5_error());
        }
        self.observation_heatmap.extend(&fresh);
        proof {
            lemma_fresh_covers(new_pixels@, base, rows_, cols_);
            assert(self.observation_heatmap.srcs() == base.union(inb_set(fresh@, rows_, cols_)));
            assert(self.observation_heatmap.srcs() == self.observation_pixels.pset());
        }
        self.update_current_grid();
        Result::Ok(self.get_current_top5_error())
    }

    /// Forget the observation side: pixel set, heatmap and cached grid all
    /// return to their initial empty state.  The reference side stays.
    pub fn reset_observation(&mut self)
        requires
            old(self).wf(),
        ensures
            final(self).wf(),
            final(self).reference_heatmap == old(self).reference_heatmap,
            final(self).reference_pixels == old(self).reference_pixels,
            final(self).bg_transparent == old(self).bg_transparent,
            final(self).chunk_size == old(self).chunk_size,
            final(self).grid_size == old(self).grid_size,
            final(self).obs_set() === Set::empty(),
            final(self).observation_pixels.items@.len() == 0,
            forall|y: int, x: int| final(self).observation_heatmap.inb(y, x)
                ==> #[trigger] final(self).observation_heatmap.at(y, x) == UNVISITED as int,
    {
        self.observation_pixels.clear();
        let rows = self.reference_heatmap.rows;
        let cols = self.reference_heatmap.cols;
        self.observation_heatmap = DistanceField::unvisited(rows, cols);
        self.update_current_grid();
    }

    /// The cached top-5 sum; the top-5 percentage is this value divided by
    /// `TOP_K * SCORE_UNIT`.
    pub fn get_current_top5_error(&self) -> (r: i64)
        ensures
            r as int == top_k_total(grid_flat(self.current_grid@), TOP_K as int),
    {
        top_k_sum(&self.current_grid, TOP_K)
    }

    /// The full metrics of the current observation against the reference.
    ///
    /// Fails with [`EvaluationError::EmptyObservation`] exactly when no
    /// observation pixel has been recorded.
    pub fn get_full_evaluation(&self) -> (r: Result<ErrorMetrics, EvaluationError>)
        requires
            self.wf(),
        ensures
            match r {
                Result::Ok(m) => {
                    &&& self.observation_pixels.items@.len() > 0
                    &&& m.top_5_sum as int == top_k_total(grid_flat(m.grid@), TOP_K as int)
                    &&& m.grid@.len() == self.current_grid@.len()
                    &&& (forall|y: int| 0 <= y < m.grid@.len()
                        ==> (#[trigger] m.grid@[y])@ == self.current_grid@[y]@)
                    &&& m.error_sum as int == dist_sum(
                        self.observation_pixels.items@,
                        self.reference_heatmap,
                    ) + dist_sum(self.reference_pixels@, self.observation_heatmap)
                    &&& m.error_count as int == dist_count(
                        self.observation_pixels.items@,
                        self.reference_heatmap,
                    ) + dist_count(self.reference_pixels@, self.observation_heatmap)
                    &&& m.pixel_count == self.reference_pixels@.len()
                },
                Result::Err(e) => {
                    &&& e == EvaluationError::EmptyObservation
                    &&& self.observation_pixels.items@.len() == 0
                },
            },
    {
        if self.observation_pixels.len() == 0 {
            return Result::Err(EvaluationError::EmptyObservation);
        }
        proof {
            crate::pixel_set::lemma_items_bounded(self.observation_pixels);
        }
        let (obs_sum, obs_count) = sum_distances(
            self.observation_pixels.pixels(),
            &self.reference_heatmap,
        );
        let (ref_sum, ref_count) = sum_distances(&self.reference_pixels, &self.observation_heatmap);
        proof {
            crate::evaluator::lemma_dist_sum_range(
                self.observation_pixels.items@,
                self.reference_heatmap,
            );
            crate::evaluator::lemma_dist_sum_range(self.reference_pixels@, self.observation_heatmap);
            assert(0x3fffffff * 0x80000000int + 0x3fffffff * 0x80000000int < i64::MAX as int)
                by (nonlinear_arith);
            assert((self.observation_pixels.items@.len() as int) * 0x80000000
                <= 0x3fffffff * 0x80000000int) by (nonlinear_arith)
                requires self.observation_pixels.items@.len() as int <= 0x3fffffff;
            assert((self.reference_pixels@.len() as int) * 0x80000000
                <= 0x3fffffff * 0x80000000int) by (nonlinear_arith)
                requires self.reference_pixels@.len() as int <= 0x3fffffff;
            assert(-(0x3fffffff * 0x80000000int)
                <= -((self.observation_pixels.items@.len() as int) * 0x80000000))
                by (nonlinear_arith)
                requires self.observation_pixels.items@.len() as int <= 0x3fffffff;
            assert(-(0x3fffffff * 0x80000000int)
                <= -((self.reference_pixels@.len() as int) * 0x80000000)) by (nonlinear_arith)
                requires self.reference_pixels@.len() as int <= 0x3fffffff;
        }
        let grid = copy_grid(&self.current_grid);
        let top_5_sum = top_k_sum(&grid, TOP_K);
        Result::Ok(ErrorMetrics {
            top_5_sum,
            error_sum: obs_sum + ref_sum,
            error_count: obs_count + ref_count,
            pixel_count: self.reference_pixels.len(),
            grid,
        })
    }

    /// Law: a session's observable results are a function of its reference
    /// data, its reference pixels, its observation pixels and its
    /// aggregation geometry.  Two sessions that agree on those — one fresh,
    /// one reset and refilled, or one restored from exported state — hold
    /// element-wise equal block grids, the same top-5 sum, and the same
    /// full-evaluation sums and counts.
    pub proof fn lemma_session_determined(s1: StreamingEvaluator, s2: StreamingEvaluator)
        requires
            s1.wf(),
            s2.wf(),
            s1.rows() == s2.rows(),
            s1.cols() == s2.cols(),
            forall|y: int, x: int| 0 <= y < s1.rows() && 0 <= x < s1.cols()
                ==> #[trigger] s1.reference_heatmap.at(y, x) == s2.reference_heatmap.at(y, x),
            s1.reference_pixels@ == s2.reference_pixels@,
            s1.observation_pixels.items@ == s2.observation_pixels.items@,
            s1.chunk_size == s2.chunk_size,
            s1.grid_size == s2.grid_size,
        ensures
            forall|i: int, j: int| 0 <= i < s1.grid_size as int && 0 <= j < s1.grid_size as int
                ==> #[trigger] gat(s1.current_grid@, i, j) == gat(s2.current_grid@, i, j),
            top_k_total(grid_flat(s1.current_grid@), TOP_K as int) == top_k_total(
                grid_flat(s2.current_grid@),
                TOP_K as int,
            ),
            dist_sum(s1.observation_pixels.items@, s1.reference_heatmap) == dist_sum(
                s2.observation_pixels.items@,
                s2.reference_heatmap,
            ),
            dist_sum(s1.reference_pixels@, s1.observation_heatmap) == dist_sum(
                s2.reference_pixels@,
                s2.observation_heatmap,
            ),
            dist_count(s1.observation_pixels.items@, s1.reference_heatmap) == dist_count(
                s2.observation_pixels.items@,
                s2.reference_heatmap,
            ),
            dist_count(s1.reference_pixels@, s1.observation_heatmap) == dist_count(
                s2.reference_pixels@,
                s2.observation_heatmap,
            ),
    {
        // The two observation heatmaps are exact for the same source set.
        assert(s1.obs_set() == s2.obs_set());
        lemma_exact_unique(s1.observation_heatmap, s2.observation_heatmap);
        crate::aggregate::lemma_dist_sum_field_transfer(
            s1.observation_pixels.items@,
            s1.reference_heatmap,
            s2.reference_heatmap,
        );
        crate::aggregate::lemma_dist_sum_field_transfer(
            s1.reference_pixels@,
            s1.observation_heatmap,
            s2.observation_heatmap,
        );
        // Restate s2's grid over s1's fields, then both grids satisfy one
        // predicate instance and must agree cell for cell.
        crate::aggregate::lemma_agg_field_transfer(
            s2.obs_set(),
            s2.reference_heatmap,
            s1.reference_heatmap,
            s2.ref_set(),
            s2.observation_heatmap,
            s1.observation_heatmap,
            s2.chunk_size as int,
            s2.grid_size as int,
            s2.current_grid@,
        );
        lemma_agg_unique(
            s1.obs_set(),
            s1.reference_heatmap,
            s1.ref_set(),
            s1.observation_heatmap,
            s1.chunk_size as int,
            s1.grid_size as int,
            s1.current_grid@,
            s2.current_grid@,
        );
        assert forall|y: int| 0 <= y < s1.current_grid@.len()
            implies (#[trigger] s1.current_grid@[y])@ == s2.current_grid@[y]@ by {
            assert forall|x: int| 0 <= x < s1.grid_size as int
                implies s1.current_grid@[y]@[x] == s2.current_grid@[y]@[x] by {
                assert(gat(s1.current_grid@, y, x) == gat(s2.current_grid@, y, x));
            }
            assert(s1.current_grid@[y]@ =~= s2.current_grid@[y]@);
        }
        crate::aggregate::lemma_grid_flat_pointwise(s1.current_grid@, s2.current_grid@);
    }

    /// Number of distinct observation pixels recorded so far.
    pub fn observation_pixel_count(&self) -> (r: usize)
        ensures
            r == self.observation_pixels.items@.len(),
    {
        self.observation_pixels.len()
    }

    /// Number of reference pixels.
    pub fn reference_pixel_count(&self) -> (r: usize)
        ensures
            r == self.reference_pixels@.len(),
    {
        self.reference_pixels.len()
    }
}

} // verus!
