//! Escape-time fractals (the Mandelbrot set and Julia sets) over a square of
//! the complex plane: the sampling of a canvas into escape times, their
//! colouring by a cumulative histogram, and the history of zoomed views.
use vstd::prelude::*;

pub mod escape;
pub mod palette;
pub mod render;
pub mod viewport;

verus! {

/// Cap on the number of recurrence steps taken for one pixel.
pub const MAX_ITERATIONS: u32 = 200;

} // verus!
