//! Decoded images as plain RGBA bytes, and the index arithmetic of pixel
//! grids.

use vstd::prelude::*;

verus! {

/// An image as rows of RGBA pixels, four bytes per pixel, top row first.
#[derive(Debug)]
pub struct RgbaPixels {
    pub width: usize,
    pub height: usize,
    pub data: Vec<u8>,
}

impl RgbaPixels {
    /// The byte buffer holds exactly `width * height` pixels.
    pub open spec fn wf(&self) -> bool {
        self.data@.len() == self.width * self.height * 4
    }
}

/// A decoded image: its pixels, the name of its format, and its size as the
/// file states it.
#[derive(Debug)]
pub struct DecodedImage {
    pub pixels: RgbaPixels,
    pub format_name: String,
    pub original_width: u32,
    pub original_height: u32,
}

/// One frame of an animation and how long it shows.
#[derive(Debug)]
pub struct AnimatedFrame {
    pub pixels: RgbaPixels,
    pub delay_ms: u32,
}

/// The delay of an animation frame given as `numer / denom` milliseconds:
/// 100 ms where the denominator is 0 or the delay rounds down to 0.
pub open spec fn frame_delay(numer: u32, denom: u32) -> u32 {
    if denom == 0 {
        100
    } else if numer / denom == 0 {
        100
    } else {
        numer / denom
    }
}

/// The delay of an animation frame in milliseconds (see `frame_delay`).
pub fn frame_delay_ms(numer: u32, denom: u32) -> (r: u32)
    ensures
        r == frame_delay(numer, denom),
{
    let d = if denom == 0 { 100 } else { numer / denom };
    if d == 0 { 100 } else { d }
}

/// Position arithmetic of a grid of `w` columns with `n` bytes per cell.
pub proof fn lemma_cell_index(row: int, w: int, x: int, n: int, k: int)
    requires
        w > 0,
        n > 0,
        row >= 0,
        0 <= x < w,
        0 <= k < n,
    ensures
        ((row * w + x) * n + k) / n == row * w + x,
        ((row * w + x) * n + k) % n == k,
        (row * w + x) / w == row,
        (row * w + x) % w == x,
        (row * w + x) * n + k < (row + 1) * w * n,
        (row + 1) * w * n == row * w * n + w * n,
        (row * w + x) * n + n == (row * w + x + 1) * n,
{
    assert(((row * w + x) * n + k) / n == row * w + x) by (nonlinear_arith)
        requires n > 0, 0 <= k < n, row >= 0, x >= 0, w > 0;
    assert(((row * w + x) * n + k) % n == k) by (nonlinear_arith)
        requires n > 0, 0 <= k < n, row >= 0, x >= 0, w > 0;
    assert((row * w + x) / w == row) by (nonlinear_arith)
        requires w > 0, 0 <= x < w, row >= 0;
    assert((row * w + x) % w == x) by (nonlinear_arith)
        requires w > 0, 0 <= x < w, row >= 0;
    assert((row * w + x) * n + k < (row + 1) * w * n) by (nonlinear_arith)
        requires w > 0, n > 0, 0 <= x < w, 0 <= k < n, row >= 0;
    assert((row + 1) * w * n == row * w * n + w * n) by (nonlinear_arith);
    assert((row * w + x) * n + n == (row * w + x + 1) * n) by (nonlinear_arith);
}

} // verus!
