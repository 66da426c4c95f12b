//! Drawing-accuracy evaluation engine.
//!
//! The engine compares a reference drawing to a user-drawn observation by
//! turning each pixel set into a distance field (a grid whose cells hold the
//! shortest 4-connected distance to the nearest drawn pixel) and aggregating
//! the cross-distances into per-block maxima, a top-5 statistic and a mean
//! statistic.  The distance fields support both a full multi-source flood
//! fill and an incremental extension that relaxes existing distances as new
//! pixels stream in, and both are proved to yield the exact shortest
//! 4-connected distances to the source set.

use vstd::prelude::*;

pub mod aggregate;
pub mod distance_field;
pub mod evaluator;
pub mod image;
pub mod observation;
pub mod pixel_set;
pub mod streaming_evaluator;
pub mod types;
pub mod utils;

verus! {

/// Sentinel distance for a cell no source has reached yet.
pub const UNVISITED: i32 = -1;

/// Side length of the default square canvas.
pub const CANVAS_SIZE: usize = 500;

/// Side length of the coarse aggregation grid laid over the canvas.
pub const AGG_GRID_SIZE: usize = 10;

/// Side length of one aggregation block, in canvas cells.
pub const AGG_CHUNK_SIZE: usize = 50;

/// Number of worst aggregation cells combined into the primary statistic.
pub const TOP_K: usize = 5;

/// Calibration divisor for both statistics: the top-K percentage is the sum
/// of the K largest block maxima divided by `TOP_K * SCORE_UNIT`, and the
/// mean percentage is the distance sum divided by `count * SCORE_UNIT` and
/// multiplied by 100.  The value is a fixed calibration constant, not derived
/// from the canvas or grid geometry.
pub const SCORE_UNIT: i64 = 5;

/// Upper bound on `rows * cols` of any field, so that every distance and
/// every termination potential fits comfortably in an `i32`.
pub const MAX_AREA: usize = 100000000;

/// Failures the engine can report.  All of them are deterministic validation
/// failures raised by the operation that detects them.
#[derive(Clone, Copy, Debug, PartialEq, Eq, Structural)]
pub enum EvaluationError {
    /// A distance field was requested for an empty source set.
    EmptySourceSet,
    /// A session was constructed from a reference with no drawn pixels.
    EmptyReference,
    /// A full result was requested before any observation pixels were added.
    EmptyObservation,
    /// A serialized heatmap's flat data does not match its declared shape.
    InvalidSerializedShape,
}

impl EvaluationError {
    /// Human-readable description of the failure.
    pub fn message(&self) -> (r: String)
        ensures
            *self == EvaluationError::EmptySourceSet ==> r@ == "Distance field source set is empty"@,
            *self == EvaluationError::EmptyReference ==> r@ == "Reference image contains no drawing content"@,
            *self == EvaluationError::EmptyObservation ==> r@ == "Observation drawing is empty - no content to evaluate"@,
            *self == EvaluationError::InvalidSerializedShape ==> r@ == "Invalid serialized heatmap data"@,
    {
        match self {
            EvaluationError::EmptySourceSet => "Distance field source set is empty".to_string(),
            EvaluationError::EmptyReference => "Reference image contains no drawing content".to_string(),
            EvaluationError::EmptyObservation => "Observation drawing is empty - no content to evaluate".to_string(),
            EvaluationError::InvalidSerializedShape => "Invalid serialized heatmap data".to_string(),
        }
    }
}

} // verus!
