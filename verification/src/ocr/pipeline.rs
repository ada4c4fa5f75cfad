//! The integer part of the reading pipeline: cutting a tile out of a page
//! image.

use vstd::prelude::*;
use crate::ocr::tiling::Tile;
use crate::ocr::GreyImage;

verus! {

/// Copy a tile out of an image. Pixels past the image's edge read as paper.
pub fn crop(image: &GreyImage, tile: &Tile) -> (r: GreyImage)
    requires
        image.well_formed(),
        tile.x + tile.width <= u32::MAX,
        tile.y + tile.height <= u32::MAX,
        tile.width * tile.height <= usize::MAX,
    ensures
        r.width == tile.width,
        r.height == tile.height,
        r.well_formed(),
        forall|x: u32, y: u32| x < tile.width && y < tile.height ==> #[trigger] r.pixel(x, y)
            == image.pixel((tile.x + x) as u32, (tile.y + y) as u32),
{
    let w = tile.width as usize;
    let n: usize = tile.width as usize * tile.height as usize;
    let mut data: Vec<u8> = Vec::new();
    let mut k: usize = 0;
    while k < n
        invariant
            w == tile.width,
            n == tile.width * tile.height,
            image.well_formed(),
            tile.x + tile.width <= u32::MAX,
            tile.y + tile.height <= u32::MAX,
            k <= n,
            data@.len() == k,
            forall|j: int| 0 <= j < k ==> #[trigger] data@[j]
                == image.pixel((tile.x + j % (w as int)) as u32, (tile.y + j / (w as int)) as u32),
        decreases n - k,
    {
        proof {
            assert(w > 0) by (nonlinear_arith)
                requires k < n, n == w * tile.height;
            assert(k / w < tile.height) by (nonlinear_arith)
                requires k < n, n == w * tile.height, w > 0;
        }
        let x = (k % w) as u32;
        let y = (k / w) as u32;
        data.push(image.get(tile.x + x, tile.y + y));
        k = k + 1;
    }
    let r = GreyImage { width: tile.width, height: tile.height, data };
    proof {
        assert forall|x: u32, y: u32| x < tile.width && y < tile.height implies #[trigger] r.pixel(x, y)
            == image.pixel((tile.x + x) as u32, (tile.y + y) as u32) by {
            let j: int = y * tile.width + x;
            assert(j < tile.width * tile.height) by (nonlinear_arith)
                requires x < tile.width, y < tile.height, j == y * tile.width + x;
            vstd::arithmetic::div_mod::lemma_fundamental_div_mod_converse(j, tile.width as int, y as int, x as int);
        }
    }
    r
}

} // verus!
