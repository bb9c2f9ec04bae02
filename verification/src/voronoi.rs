//! The result record of one Voronoi computation, and its renderer.

use vstd::prelude::*;

verus! {

/// RGB color triple.
pub type Rgb = [u8; 3];

/// Result of a Voronoi computation over a `width` x `height` raster.
#[derive(Debug)]
pub struct VoronoiResult {
    /// Cell index for each pixel (row-major order).
    pub cell_of: Vec<i32>,
    /// Average color for each cell.
    pub cell_colors: Vec<Rgb>,
    /// Area (pixel count) for each cell.
    pub cell_areas: Vec<u32>,
    /// Image width in pixels.
    pub width: u32,
    /// Image height in pixels.
    pub height: u32,
}

impl VoronoiResult {
    /// One pixel slot per raster position, one color and one area per cell,
    /// and every pixel assigned to a cell that exists.
    pub open spec fn wf(self) -> bool {
        &&& self.cell_of@.len() == self.width * self.height
        &&& self.cell_colors@.len() == self.cell_areas@.len()
        &&& self.width * self.height * 3 <= u32::MAX
        &&& forall|p: int|
            0 <= p < self.cell_of@.len() ==> 0 <= #[trigger] self.cell_of@[p] < self.cell_areas@.len()
    }

    /// Render the Voronoi diagram to an RGB byte buffer: each pixel takes
    /// the color of its cell, and a pixel whose cell index is out of range
    /// is left black.
    pub fn render(&self) -> (pixels: Vec<u8>)
        requires
            self.cell_of@.len() == self.width * self.height,
            self.width * self.height * 3 <= u32::MAX,
        ensures
            pixels@.len() == 3 * self.cell_of@.len(),
            forall|p: int| 0 <= p < self.cell_of@.len() ==> {
                if 0 <= #[trigger] self.cell_of@[p] < self.cell_colors@.len() {
                    &&& pixels@[3 * p] == self.cell_colors@[self.cell_of@[p] as int][0]
                    &&& pixels@[3 * p + 1] == self.cell_colors@[self.cell_of@[p] as int][1]
                    &&& pixels@[3 * p + 2] == self.cell_colors@[self.cell_of@[p] as int][2]
                } else {
                    &&& pixels@[3 * p] == 0
                    &&& pixels@[3 * p + 1] == 0
                    &&& pixels@[3 * p + 2] == 0
                }
            },
    {
        let len: usize = self.cell_of.len();
        let mut pixels: Vec<u8> = vec![0u8; 3 * len];
        let mut i: usize = 0;
        while i < len
            invariant
                0 <= i <= len,
                len == self.cell_of@.len(),
                3 * len <= u32::MAX,
                pixels@.len() == 3 * len,
                forall|p: int| 0 <= p < i ==> {
                    if 0 <= #[trigger] self.cell_of@[p] < self.cell_colors@.len() {
                        &&& pixels@[3 * p] == self.cell_colors@[self.cell_of@[p] as int][0]
                        &&& pixels@[3 * p + 1] == self.cell_colors@[self.cell_of@[p] as int][1]
                        &&& pixels@[3 * p + 2] == self.cell_colors@[self.cell_of@[p] as int][2]
                    } else {
                        &&& pixels@[3 * p] == 0
                        &&& pixels@[3 * p + 1] == 0
                        &&& pixels@[3 * p + 2] == 0
                    }
                },
                forall|q: int| 3 * i <= q < 3 * len ==> #[trigger] pixels@[q] == 0,
            decreases len - i,
        {
            let cell = self.cell_of[i];
            if cell >= 0 && (cell as usize) < self.cell_colors.len() {
                let color = self.cell_colors[cell as usize];
                pixels.set(3 * i, color[0]);
                pixels.set(3 * i + 1, color[1]);
                pixels.set(3 * i + 2, color[2]);
            }
            i = i + 1;
        }
        pixels
    }
}

} // verus!
