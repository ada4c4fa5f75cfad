//! Reading text off a page image: the image type every stage shares, and
//! the stages that are arithmetic rather than a model.

pub mod pipeline;
pub mod preprocess;
pub mod script;
pub mod tiling;

use vstd::prelude::*;

verus! {

/// A single-channel image, row-major, one byte a pixel: 0 is ink, 255 paper.
#[derive(Debug, Clone, PartialEq, Eq)]
pub struct GreyImage {
    pub width: u32,
    pub height: u32,
    pub data: Vec<u8>,
}

impl GreyImage {
    /// Whether the buffer holds exactly one byte for every pixel.
    pub open spec fn well_formed(&self) -> bool {
        self.data@.len() == self.width * self.height
    }

    /// The pixel at `(x, y)`, or paper when outside the image.
    pub open spec fn pixel(&self, x: u32, y: u32) -> u8 {
        if x >= self.width || y >= self.height { 0xFF } else { self.data@[y * self.width + x] }
    }

    /// A white page. White rather than black because an out-of-bounds read
    /// should look like paper, not like ink.
    pub fn white(width: u32, height: u32) -> (r: Self)
        requires
            width * height <= usize::MAX,
        ensures
            r.width == width,
            r.height == height,
            r.well_formed(),
            forall|i: int| 0 <= i < r.data@.len() ==> r.data@[i] == 0xFF,
    {
        let n: usize = width as usize * height as usize;
        GreyImage { width, height, data: vec![0xFFu8; n] }
    }

    pub fn get(&self, x: u32, y: u32) -> (r: u8)
        requires
            self.well_formed(),
        ensures
            r == self.pixel(x, y),
    {
        if x >= self.width || y >= self.height {
            return 0xFF;
        }
        let len = self.data.len();
        proof { lemma_index_in_image(x as int, y as int, self.width as int, self.height as int); }
        self.data[y as usize * self.width as usize + x as usize]
    }

    pub fn set(&mut self, x: u32, y: u32, value: u8)
        requires
            old(self).well_formed(),
        ensures
            final(self).width == old(self).width,
            final(self).height == old(self).height,
            final(self).data@ == if x < old(self).width && y < old(self).height {
                old(self).data@.update(y * old(self).width + x, value)
            } else {
                old(self).data@
            },
    {
        let len = self.data.len();
        if x < self.width && y < self.height {
            proof { lemma_index_in_image(x as int, y as int, self.width as int, self.height as int); }
            let index = y as usize * self.width as usize + x as usize;
            self.data.set(index, value);
        }
    }

    pub fn is_empty(&self) -> (r: bool)
        ensures
            r == (self.width == 0 || self.height == 0),
    {
        self.width == 0 || self.height == 0
    }
}

/// A pixel inside the image has an index inside its buffer.
pub proof fn lemma_index_in_image(x: int, y: int, width: int, height: int)
    requires
        0 <= x < width,
        0 <= y < height,
    ensures
        0 <= y * width + x < width * height,
{
    assert(y * width + x < width * height) by (nonlinear_arith)
        requires 0 <= x < width, 0 <= y < height;
    assert(0 <= y * width) by (nonlinear_arith)
        requires 0 <= y, 0 <= width;
}

} // verus!
