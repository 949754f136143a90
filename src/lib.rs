//! Verified core of an interactive Mandelbrot explorer: the gradient color mapper that turns
//! an escape-time iteration count into a packed RGB pixel, and the per-frame decisions of the
//! render loop (which navigation commands the held keys issue, and when the buffer must be
//! recomputed).
use vstd::prelude::*;

pub mod color;
pub mod frame;

verus! {

} // verus!
