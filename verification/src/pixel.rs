//! The two picture layouts a frame module is handed.
use vstd::prelude::*;

verus! {

/// The pixel format the host chose when the stream was opened, fixed for the
/// instance's life.
#[derive(Clone, Copy, Debug, PartialEq, Eq)]
pub enum PixFmt {
    /// Planar 4:2:0: a full luma plane, then two quarter-size chroma planes.
    Yuv420p,
    /// Interleaved red, green, blue and alpha, a byte each.
    Rgba,
}

} // verus!
