//! Plain pixel grids, stored row by row.
use vstd::prelude::*;

verus! {

/// An RGBA image of 8-bit channels: `rows[y][x]` is the pixel at column `x`
/// of row `y`.
pub struct RgbaRaster {
    pub width: usize,
    pub rows: Vec<Vec<[u8; 4]>>,
}

/// A single-channel 8-bit image, row by row.
pub struct GrayRaster {
    pub width: usize,
    pub rows: Vec<Vec<u8>>,
}

impl RgbaRaster {
    /// Every row is `width` pixels long.
    pub open spec fn wf(&self) -> bool {
        forall|y: int| 0 <= y < self.rows@.len() ==> (#[trigger] self.rows@[y])@.len() == self.width
    }

    /// A raster of the given rows, or `None` when a row is not `width` long.
    pub fn new(width: usize, rows: Vec<Vec<[u8; 4]>>) -> (r: Option<RgbaRaster>)
        ensures
            r is Some <==> (forall|y: int| 0 <= y < rows@.len() ==> (#[trigger] rows@[y])@.len() == width),
            r matches Some(img) ==> img.width == width && img.rows@ == rows@ && img.wf(),
    {
        let mut y: usize = 0;
        while y < rows.len()
            invariant
                y <= rows@.len(),
                forall|k: int| 0 <= k < y ==> (#[trigger] rows@[k])@.len() == width,
            decreases rows@.len() - y,
        {
            if rows[y].len() != width {
                return None;
            }
            y += 1;
        }
        Some(RgbaRaster { width, rows })
    }

    pub fn height(&self) -> (r: usize)
        ensures
            r == self.rows@.len(),
    {
        self.rows.len()
    }
}

impl GrayRaster {
    /// Every row is `width` pixels long.
    pub open spec fn wf(&self) -> bool {
        forall|y: int| 0 <= y < self.rows@.len() ==> (#[trigger] self.rows@[y])@.len() == self.width
    }

    /// A raster of the given rows, or `None` when a row is not `width` long.
    pub fn new(width: usize, rows: Vec<Vec<u8>>) -> (r: Option<GrayRaster>)
        ensures
            r is Some <==> (forall|y: int| 0 <= y < rows@.len() ==> (#[trigger] rows@[y])@.len() == width),
            r matches Some(img) ==> img.width == width && img.rows@ == rows@ && img.wf(),
    {
        let mut y: usize = 0;
        while y < rows.len()
            invariant
                y <= rows@.len(),
                forall|k: int| 0 <= k < y ==> (#[trigger] rows@[k])@.len() == width,
            decreases rows@.len() - y,
        {
            if rows[y].len() != width {
                return None;
            }
            y += 1;
        }
        Some(GrayRaster { width, rows })
    }

    pub fn height(&self) -> (r: usize)
        ensures
            r == self.rows@.len(),
    {
        self.rows.len()
    }
}

} // verus!
