//! Public interface for observation time tracking.
//!
//! This module provides a stable API over the internal implementation, which
//! can change without breaking external code.

use vstd::prelude::*;

pub mod internal;

pub use crate::image::Image;

use crate::observation::internal::white_key;
use crate::observation::internal::ObservationImpl;

verus! {

/// Tracks one drawing observation.
pub struct Observation {
    /// The internal stopwatch and reference-image bookkeeping.
    pub inner: ObservationImpl,
}

impl Observation {
    /// Creates a new observation starting now.
    pub fn new(reference_image: Image) -> (r: Observation)
        ensures
            r.inner.end_time is None,
            r.inner.reference_image == reference_image,
    {
        Observation { inner: ObservationImpl::new(reference_image) }
    }

    /// Returns the total observation duration in milliseconds.
    ///
    /// If the observation is still active, returns the duration so far; if
    /// finished, returns the final duration.
    pub fn get_duration(&self) -> (r: u64)
        ensures
            self.inner.end_time matches Some(e) ==> r as int == if e
                >= self.inner.start_time {
                e - self.inner.start_time
            } else {
                0
            },
    {
        self.inner.get_duration()
    }

    /// Finishes the observation and records the end time.
    ///
    /// Has no effect if the observation is already finished.
    pub fn finish_observation(&mut self)
        ensures
            final(self).inner.start_time == old(self).inner.start_time,
            final(self).inner.reference_image == old(self).inner.reference_image,
            old(self).inner.end_time is Some ==> final(self).inner.end_time == old(
                self,
            ).inner.end_time,
            final(self).inner.end_time is Some,
    {
        self.inner.finish_observation();
    }

    /// Returns the observation start time in milliseconds.
    pub fn get_start_time(&self) -> (r: u64)
        ensures
            r == self.inner.start_time,
    {
        self.inner.get_start_time()
    }

    /// Returns the observation end time in milliseconds.
    pub fn get_end_time(&self) -> (r: Option<u64>)
        ensures
            r == self.inner.end_time,
    {
        self.inner.get_end_time()
    }

    /// Returns the number of non-white pixels of the reference image.
    pub fn get_total_non_white_pixels(&self) -> (r: u32)
        requires
            self.inner.reference_image.wf(),
            self.inner.reference_image.number_of_pixel_per_color@.contains_key(0xffffffffu32),
        ensures
            r as int == self.inner.reference_image.total_cells()
                - self.inner.reference_image.color_total(white_key()),
    {
        self.inner.get_total_non_white_pixels()
    }
}

} // verus!
