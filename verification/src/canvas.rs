//! Layout of the pixel buffer of a rendered fractal.

use vstd::prelude::*;

verus! {

/// A rendered image: `width * height` pixels of 4 bytes (RGBA), row by row.
pub struct ProceduralPixelData {
    pub width: u32,
    pub height: u32,
    pub pixels: Vec<u8>,
    pub render_time_micros: u128,
}

/// How the pixel buffer is split among the rendering workers.
pub struct CanvasLayout {
    /// Bytes in the whole buffer.
    pub total_bytes: usize,
    /// Bytes in one row.
    pub row_bytes: usize,
    /// Rows each worker renders (the last may get fewer).
    pub chunk_rows: usize,
    /// Bytes each worker writes (the last chunk may be shorter).
    pub chunk_bytes: usize,
}

/// The layout of a `width` x `height` image rendered by `threads` workers:
/// 4 bytes per pixel, and the rows split into `threads` chunks, rounded up.
pub fn canvas_layout(width: u32, height: u32, threads: usize) -> (l: CanvasLayout)
    requires
        width >= 1,
        height >= 1,
        threads >= 1,
        width * height <= u32::MAX,
        4 * width * height <= usize::MAX,
        height + threads <= usize::MAX,
    ensures
        l.total_bytes == 4 * width * height,
        l.row_bytes == 4 * width,
        l.chunk_rows == (height + threads - 1) / (threads as int),
        l.chunk_bytes == l.chunk_rows * l.row_bytes,
        l.chunk_bytes >= 1,
{
    proof {
        assert((width * height) * 4 == 4 * width * height && width * 4 <= 4 * width * height)
            by (nonlinear_arith)
            requires
                height >= 1,
                width >= 1,
        ;
    }
    let total_pixels = (width * height) as usize;
    let total_bytes = total_pixels * 4;
    let chunk_rows = ((height as usize) + threads - 1) / threads;
    let row_bytes = (width as usize) * 4;
    proof {
        assert(chunk_rows <= height && chunk_rows >= 1) by (nonlinear_arith)
            requires
                chunk_rows == (height + threads - 1) / (threads as int),
                threads >= 1,
                height >= 1,
        ;
        assert(chunk_rows * row_bytes <= 4 * width * height) by (nonlinear_arith)
            requires
                chunk_rows <= height,
                row_bytes == width * 4,
        ;
        assert(chunk_rows * row_bytes >= 1) by (nonlinear_arith)
            requires
                chunk_rows >= 1,
                row_bytes >= 4,
        ;
    }
    let chunk_bytes = chunk_rows * row_bytes;
    CanvasLayout { total_bytes, row_bytes, chunk_rows, chunk_bytes }
}

} // verus!
