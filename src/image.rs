//! The inputs of a scan: a grayscale image and the scan's parameters.

use vstd::prelude::*;

verus! {

/// A row-major grayscale image; `ldim` is the row stride in pixels.
pub struct Image {
    pub ldim: i32,
    pub ncols: usize,
    pub nrows: usize,
    pub pixels: Vec<u8>,
}

impl Image {
    pub fn new(ldim: i32, ncols: usize, nrows: usize, pixels: Vec<u8>) -> (r: Image)
        ensures
            r.ldim == ldim,
            r.ncols == ncols,
            r.nrows == nrows,
            r.pixels@ == pixels@,
    {
        Image { ldim, ncols, nrows, pixels }
    }
}

/// Scan parameters, each in thousandths: window sizes in pixels, the factor by
/// which the window grows between scales, and the step between neighbouring
/// windows as a fraction of the window size.
pub struct RunParams {
    pub max_size: u32,
    pub min_size: u32,
    pub scale_factor: u32,
    pub shift_factor: u32,
}

impl RunParams {
    pub fn new(max_size: u32, min_size: u32, scale_factor: u32, shift_factor: u32) -> (r: RunParams)
        ensures
            r.max_size == max_size,
            r.min_size == min_size,
            r.scale_factor == scale_factor,
            r.shift_factor == shift_factor,
    {
        RunParams { max_size, min_size, scale_factor, shift_factor }
    }

    /// Windows of at least a thousandth of a pixel that grow at every scale.
    pub open spec fn valid(&self) -> bool {
        self.min_size >= 1 && self.scale_factor > 1000
    }
}

} // verus!
