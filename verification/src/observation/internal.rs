//! Internal observation state; may change without affecting the public API.

use vstd::prelude::*;

use crate::image::color_count;
use crate::image::Image;
use crate::utils::current_time_ms;

verus! {

/// The packed histogram key of an all-white RGBA pixel.
pub open spec fn white_key() -> int {
    0xffffffff
}

/// Tracks one drawing observation: a stopwatch plus the reference image
/// whose non-white pixel count feeds the drawing-speed statistics.
pub struct ObservationImpl {
    /// When the observation started, in Unix milliseconds.
    pub start_time: u64,
    /// When the observation finished, if it has.
    pub end_time: Option<u64>,
    /// The image being reproduced.
    pub reference_image: Image,
}

impl ObservationImpl {
    /// Start observing now.
    pub fn new(reference_image: Image) -> (r: ObservationImpl)
        ensures
            r.end_time is None,
            r.reference_image == reference_image,
    {
        ObservationImpl { start_time: current_time_ms(), end_time: None, reference_image }
    }

    /// Elapsed time in milliseconds: up to the recorded end, or up to now
    /// while the observation is still running.  A clock that moved backwards
    /// reads as zero.
    pub fn get_duration(&self) -> (r: u64)
        ensures
            self.end_time matches Some(e) ==> r as int == if e >= self.start_time {
                e - self.start_time
            } else {
                0
            },
    {
        let end_time = match self.end_time {
            Some(e) => e,
            None => current_time_ms(),
        };
        if end_time >= self.start_time {
            end_time - self.start_time
        } else {
            0
        }
    }

    /// Record the end time; a second call changes nothing.
    pub fn finish_observation(&mut self)
        ensures
            final(self).start_time == old(self).start_time,
            final(self).reference_image == old(self).reference_image,
            old(self).end_time is Some ==> final(self).end_time == old(self).end_time,
            final(self).end_time is Some,
    {
        if self.end_time.is_none() {
            self.end_time = Some(current_time_ms());
        }
    }

    /// When the observation started.
    pub fn get_start_time(&self) -> (r: u64)
        ensures
            r == self.start_time,
    {
        self.start_time
    }

    /// When the observation finished, if it has.
    pub fn get_end_time(&self) -> (r: Option<u64>)
        ensures
            r == self.end_time,
    {
        self.end_time
    }

    /// How many pixels of the reference image are not pure white.
    pub fn get_total_non_white_pixels(&self) -> (r: u32)
        requires
            self.reference_image.wf(),
            self.reference_image.number_of_pixel_per_color@.contains_key(0xffffffffu32),
        ensures
            r as int == self.reference_image.total_cells() - self.reference_image.color_total(
                white_key(),
            ),
    {
        let white_pixel: [u8; 4] = [255, 255, 255, 255];
        let total_white: u32 = match self.reference_image.number_of_pixel_per_color.get(
            &0xffffffffu32,
        ) {
            Some(v) => *v,
            None => {
                proof {
                    assert(false);
                }
                0
            },
        };
        let total_pixels = self.reference_image.dimensions.0 * self.reference_image.dimensions.1;
        proof {
            crate::image::lemma_color_count_bound(
                self.reference_image.pixels@,
                white_key(),
                self.reference_image.pixels@.len() as int,
                self.reference_image.dimensions.1 as int,
            );
        }
        total_pixels as u32 - total_white
    }
}

} // verus!
