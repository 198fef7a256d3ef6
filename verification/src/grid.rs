//! The pixel grid the encoder reads and the decoder reconstructs.

use vstd::prelude::*;
use crate::color::Color;
use crate::color::black;

verus! {

/// A raster image: `width * height` colors in row-major order.
#[derive(Debug, PartialEq, Eq)]
pub struct PixelGrid {
    pub width: u32,
    pub height: u32,
    pub pixels: Vec<Color>,
}

/// Well-formedness: the pixel store covers the grid exactly.
pub open spec fn grid_wf(g: PixelGrid) -> bool {
    g.pixels@.len() == g.width * g.height
}

/// The colors of row `y`, left to right.
pub open spec fn row_of(g: PixelGrid, y: int) -> Seq<Color> {
    g.pixels@.subrange(y * g.width, (y + 1) * g.width)
}

/// A row of a well-formed grid sits inside the pixel store: its subrange
/// is in bounds, its length is the width, and its cells are the store's.
pub proof fn lemma_row_of_len(g: PixelGrid, y: int)
    requires
        grid_wf(g),
        0 <= y < g.height,
    ensures
        0 <= y * g.width,
        (y + 1) * g.width <= g.pixels@.len(),
        row_of(g, y).len() == g.width,
        forall|x: int| 0 <= x < g.width ==> row_of(g, y)[x] == g.pixels@[y * g.width + x],
{
    let w = g.width as int;
    let h = g.height as int;
    vstd::arithmetic::mul::lemma_mul_inequality(y + 1, h, w);
    vstd::arithmetic::mul::lemma_mul_is_distributive_add_other_way(w, y, 1);
    vstd::arithmetic::mul::lemma_mul_is_commutative(w, h);
    vstd::arithmetic::mul::lemma_mul_nonnegative(y, w);
    assert((y + 1) * w == y * w + 1 * w);
    assert((y + 1) * w <= h * w);
}

impl PixelGrid {
    /// The color at column `x` of row `y`.
    pub fn pixel_at(&self, x: u32, y: u32) -> (c: Color)
        requires
            grid_wf(*self),
            x < self.width,
            y < self.height,
        ensures
            c == row_of(*self, y as int)[x as int],
    {
        proof {
            let w = self.width as int;
            let h = self.height as int;
            let yy = y as int;
            vstd::std_specs::vec::axiom_spec_len(&self.pixels);
            assert(self.pixels@.len() <= usize::MAX);
            vstd::arithmetic::mul::lemma_mul_inequality(yy + 1, h, w);
            vstd::arithmetic::mul::lemma_mul_is_distributive_add_other_way(w, yy, 1);
            vstd::arithmetic::mul::lemma_mul_is_commutative(w, h);
            assert((yy + 1) * w == yy * w + 1 * w);
            assert(yy * w + x < (yy + 1) * w);
            assert((yy + 1) * w <= h * w);
            assert(yy * w + x < self.pixels@.len());
        }
        let idx: usize = (y as usize) * (self.width as usize) + (x as usize);
        self.pixels[idx]
    }
}

} // verus!
