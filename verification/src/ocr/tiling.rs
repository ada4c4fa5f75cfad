//! Recognising a page that will not fit in memory.
//!
//! A large page is read in full-width strips. Strips overlap by at least a
//! line's height, so a line crossing a seam is seen whole by some strip.

use vstd::prelude::*;

verus! {

/// A rectangle of the page to recognise on its own.
#[derive(Debug, Clone, Copy, PartialEq, Eq, Structural)]
pub struct Tile {
    pub x: u32,
    pub y: u32,
    pub width: u32,
    pub height: u32,
}

pub open spec fn min(a: int, b: int) -> int {
    if a <= b { a } else { b }
}

/// The strips from row `y` down, each `rows` tall and `step` apart, the last
/// one pulled back to end at the bottom edge.
pub open spec fn strips_from(width: u32, height: int, rows: int, step: int, y: int) -> Seq<Tile>
    decreases height - y,
{
    if y >= height || step <= 0 || rows <= 0 {
        seq![]
    } else {
        let here = Tile { x: 0, y: y as u32, width, height: min(rows, height - y) as u32 };
        if y + min(rows, height - y) >= height {
            seq![here]
        } else if y + step + rows >= height {
            seq![here, Tile { x: 0, y: (height - rows) as u32, width, height: rows as u32 }]
        } else {
            seq![here] + strips_from(width, height, rows, step, y + step)
        }
    }
}

/// How many rows of the page fit in the budget at full width; at least one.
pub open spec fn rows_for(width: u32, budget: usize) -> int {
    if (budget as int) / (width as int) >= 1 { (budget as int) / (width as int) } else { 1 }
}

/// How far each strip starts below the one before: the rows less the
/// overlap, and at least one.
pub open spec fn step_for(rows: int, overlap: u32) -> int {
    if rows - overlap >= 1 { rows - overlap } else { 1 }
}

/// The tiles `tiles` cuts a page into.
pub open spec fn tiling(width: u32, height: u32, budget: usize, overlap: u32) -> Seq<Tile> {
    if width == 0 || height == 0 {
        seq![]
    } else if width * height <= budget {
        seq![Tile { x: 0, y: 0, width, height }]
    } else {
        strips_from(width, height as int, rows_for(width, budget), step_for(rows_for(width, budget), overlap), 0)
    }
}

/// Split an image into tiles no larger than `budget` pixels each, where one
/// row fits the budget; a budget smaller than one row still gives tiles one
/// row high, over budget, since a row is never cut.
///
/// Tiles run full width: text lines are horizontal, so cutting across costs
/// a seam through one line, where cutting down would cost one through every
/// line on the page.
pub fn tiles(width: u32, height: u32, budget: usize, overlap: u32) -> (out: Vec<Tile>)
    ensures
        out@ == tiling(width, height, budget, overlap),
{
    if width == 0 || height == 0 {
        return Vec::new();
    }
    assert((width as u64) * (height as u64) <= 0xFFFF_FFFF * 0xFFFF_FFFFu64) by (nonlinear_arith)
        requires width <= 0xFFFF_FFFFu32, height <= 0xFFFF_FFFFu32;
    let whole: u64 = (width as u64) * (height as u64);
    if whole <= budget as u64 {
        let mut one = Vec::new();
        one.push(Tile { x: 0, y: 0, width, height });
        return one;
    }

    // How many rows fit in the budget at full width: fewer than the page
    // has, or the page would have fitted whole.
    let per_row: usize = budget / (width as usize);
    proof {
        assert(per_row < height) by (nonlinear_arith)
            requires per_row == (budget as int) / (width as int), budget < width * height, width > 0;
    }
    let rows: u64 = if per_row >= 1 { per_row as u64 } else { 1 };
    let step: u64 = if rows > overlap as u64 && rows - overlap as u64 >= 1 { rows - overlap as u64 } else { 1 };
    let h: u64 = height as u64;
    assert(rows == rows_for(width, budget) && step == step_for(rows_for(width, budget), overlap));
    assert(tiling(width, height, budget, overlap) == strips_from(width, h as int, rows as int, step as int, 0));

    let mut out: Vec<Tile> = Vec::new();
    let mut y: u64 = 0;
    loop
        invariant
            1 <= rows <= h,
            1 <= step <= rows,
            h == height,
            tiling(width, height, budget, overlap) == strips_from(width, h as int, rows as int, step as int, 0),
            y < h,
            out@ + strips_from(width, h as int, rows as int, step as int, y as int)
                == strips_from(width, h as int, rows as int, step as int, 0),
        decreases h - y,
    {
        let tile_height: u64 = if rows < h - y { rows } else { h - y };
        let here = Tile { x: 0, y: y as u32, width, height: tile_height as u32 };
        let ghost rest = strips_from(width, h as int, rows as int, step as int, y as int);
        out.push(here);
        if y + tile_height >= h {
            proof { assert(rest == seq![here]); }
            assert(out@ =~= strips_from(width, h as int, rows as int, step as int, 0));
            return out;
        }
        if y + step + rows >= h {
            let last = Tile { x: 0, y: (h - rows) as u32, width, height: rows as u32 };
            out.push(last);
            proof { assert(rest == seq![here, last]); }
            assert(out@ =~= strips_from(width, h as int, rows as int, step as int, 0));
            return out;
        }
        proof {
            assert(rest == seq![here] + strips_from(width, h as int, rows as int, step as int, (y + step) as int));
            assert(out@ + strips_from(width, h as int, rows as int, step as int, (y + step) as int)
                =~= strips_from(width, h as int, rows as int, step as int, 0));
        }
        y = y + step;
    }
}

/// Every row of the page lies in some tile.
pub proof fn law_every_row_is_covered(width: u32, height: u32, budget: usize, overlap: u32, row: int)
    requires
        width > 0,
        0 <= row < height,
    ensures
        exists|i: int| 0 <= i < tiling(width, height, budget, overlap).len()
            && #[trigger] tiling(width, height, budget, overlap)[i].y <= row
            < tiling(width, height, budget, overlap)[i].y + tiling(width, height, budget, overlap)[i].height,
{
    let t = tiling(width, height, budget, overlap);
    if width * height <= budget {
        assert(t[0].y <= row < t[0].y + t[0].height);
    } else {
        let rows = rows_for(width, budget);
        let step = step_for(rows, overlap);
        let q = (budget as int) / (width as int);
        assert(q < height) by (nonlinear_arith)
            requires q == (budget as int) / (width as int), budget < width * height, width > 0;
        lemma_strips_cover(width, height as int, rows, step, 0, row);
    }
}

proof fn lemma_strips_cover(width: u32, height: int, rows: int, step: int, y: int, row: int)
    requires
        1 <= rows <= height <= u32::MAX,
        1 <= step <= rows,
        0 <= y <= row < height,
    ensures
        exists|i: int| 0 <= i < strips_from(width, height, rows, step, y).len()
            && #[trigger] strips_from(width, height, rows, step, y)[i].y <= row
            < strips_from(width, height, rows, step, y)[i].y + strips_from(width, height, rows, step, y)[i].height,
    decreases height - y,
{
    let s = strips_from(width, height, rows, step, y);
    let here_height = min(rows, height - y);
    if y + here_height >= height {
        assert(s[0].y <= row < s[0].y + s[0].height);
    } else if y + step + rows >= height {
        if row < y + here_height {
            assert(s[0].y <= row < s[0].y + s[0].height);
        } else {
            assert(s[1].y <= row < s[1].y + s[1].height);
        }
    } else {
        if row < y + step {
            assert(s[0].y <= row < s[0].y + s[0].height);
        } else {
            lemma_strips_cover(width, height, rows, step, y + step, row);
            let rest = strips_from(width, height, rows, step, y + step);
            let i = choose|i: int| 0 <= i < rest.len() && #[trigger] rest[i].y <= row < rest[i].y + rest[i].height;
            assert(s[i + 1] == rest[i]);
        }
    }
}

} // verus!
