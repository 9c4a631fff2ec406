//! Rendering of a coordinate-colored pixel map into an RGB frame.
//!
//! Each visited machine coordinate carries a color class; the frame shows
//! a 3-by-3 cell per coordinate inside a fixed 600-by-600 viewport with a
//! 4-cell border: a black ring around a colored center. Where coordinates
//! repeat, the latest entry wins. Writing the frame to disk is the
//! caller's business; the frame itself is a pure function of the map.

use vstd::prelude::*;

verus! {

/// One RGB pixel.
#[derive(Debug, Clone, Copy, PartialEq, Eq, Structural)]
pub struct Rgb {
    pub r: u8,
    pub g: u8,
    pub b: u8,
}

/// Cells per frame side inside the viewport.
pub const FRAME_CELLS: u32 = 600;

/// Pixels per cell.
pub const FRAME_SCALE: u32 = 3;

/// Border cells around the viewport.
pub const FRAME_BORDER: u32 = 4;

/// Pixels per frame side: `(FRAME_CELLS + 2 * FRAME_BORDER) * FRAME_SCALE`.
pub const FRAME_SIDE: u32 = 1824;

/// A square RGB frame in row-major order.
pub struct Frame {
    pub width: u32,
    pub height: u32,
    pub pixels: Vec<Rgb>,
}

impl Frame {
    pub open spec fn wf(self) -> bool {
        self.pixels@.len() == self.width * self.height
    }
}

/// The palette: one color per color class, a light grey for the rest.
pub open spec fn spec_entry_color(v: u32) -> Rgb {
    if v == 0 {
        Rgb { r: 0xCC, g: 0xCC, b: 0xEE }
    } else if v == 1 {
        Rgb { r: 0x12, g: 0x33, b: 0x12 }
    } else if v == 2 {
        Rgb { r: 0x44, g: 0x88, b: 0xAA }
    } else if v == 3 {
        Rgb { r: 0x12, g: 0x12, b: 0xCC }
    } else if v == 4 {
        Rgb { r: 0xCC, g: 0x12, b: 0x12 }
    } else {
        Rgb { r: 0xDD, g: 0xDD, b: 0xDD }
    }
}

pub open spec fn white() -> Rgb {
    Rgb { r: 0xFF, g: 0xFF, b: 0xFF }
}

pub open spec fn black() -> Rgb {
    Rgb { r: 0, g: 0, b: 0 }
}

/// The color class of the latest entry at plane coordinate `(x, y)`; the
/// third coordinate distinguishes entries but not cells.
pub open spec fn last_at(entries: Seq<((i64, i64, i64), u32)>, x: int, y: int) -> Option<u32>
    decreases entries.len(),
{
    if entries.len() == 0 {
        None
    } else if entries.last().0.0 == x && entries.last().0.1 == y {
        Some(entries.last().1)
    } else {
        last_at(entries.drop_last(), x, y)
    }
}

/// The color of the frame pixel at `(px, py)`: inside the 3-by-3 cell of a
/// visited in-viewport coordinate, the center carries the entry's color
/// and the ring is black; everywhere else the frame is white.
pub open spec fn frame_pixel(entries: Seq<((i64, i64, i64), u32)>, px: int, py: int) -> Rgb {
    let x = px / (FRAME_SCALE as int) - FRAME_BORDER as int;
    let y = py / (FRAME_SCALE as int) - FRAME_BORDER as int;
    if 0 <= x < FRAME_CELLS as int && 0 <= y < FRAME_CELLS as int {
        match last_at(entries, x, y) {
            Some(v) => if px % (FRAME_SCALE as int) == 1 && py % (FRAME_SCALE as int) == 1 {
                spec_entry_color(v)
            } else {
                black()
            },
            None => white(),
        }
    } else {
        white()
    }
}

/// The latest color class at `(x, y)`, scanned in order.
fn last_at_exec(entries: &Vec<((i64, i64, i64), u32)>, x: i64, y: i64) -> (r: Option<u32>)
    ensures
        r == last_at(entries@, x as int, y as int),
{
    let mut r: Option<u32> = None;
    let mut j: usize = 0;
    while j < entries.len()
        invariant
            j <= entries@.len(),
            r == last_at(entries@.take(j as int), x as int, y as int),
        decreases entries@.len() - j,
    {
        let e = &entries[j];
        proof {
            assert(entries@.take(j + 1).drop_last() =~= entries@.take(j as int));
            assert(entries@.take(j + 1).last() == entries@[j as int]);
        }
        if e.0.0 == x && e.0.1 == y {
            r = Some(e.1);
        }
        j += 1;
    }
    proof {
        assert(entries@.take(entries@.len() as int) =~= entries@);
    }
    r
}

/// One frame drawn from a coordinate-colored pixel map.
pub fn draw_frame(pixels: &Vec<((i64, i64, i64), u32)>) -> (f: Frame)
    ensures
        f.width == FRAME_SIDE,
        f.height == FRAME_SIDE,
        f.wf(),
        forall|px: int, py: int| 0 <= px < FRAME_SIDE && 0 <= py < FRAME_SIDE
            ==> f.pixels@[py * FRAME_SIDE + px] == frame_pixel(pixels@, px, py),
{
    let mut out: Vec<Rgb> = Vec::new();
    let mut py: u32 = 0;
    while py < FRAME_SIDE
        invariant
            py <= FRAME_SIDE,
            out@.len() == py * FRAME_SIDE,
            forall|qx: int, qy: int| 0 <= qx < FRAME_SIDE && 0 <= qy < py
                ==> out@[qy * FRAME_SIDE + qx] == frame_pixel(pixels@, qx, qy),
        decreases FRAME_SIDE - py,
    {
        let mut px: u32 = 0;
        while px < FRAME_SIDE
            invariant
                px <= FRAME_SIDE,
                py < FRAME_SIDE,
                out@.len() == py * FRAME_SIDE + px,
                forall|qx: int, qy: int| 0 <= qx < FRAME_SIDE && 0 <= qy < py
                    ==> out@[qy * FRAME_SIDE + qx] == frame_pixel(pixels@, qx, qy),
                forall|qx: int| 0 <= qx < px
                    ==> out@[py * FRAME_SIDE + qx] == frame_pixel(pixels@, qx, py as int),
            decreases FRAME_SIDE - px,
        {
            let x: i64 = (px / FRAME_SCALE) as i64 - FRAME_BORDER as i64;
            let y: i64 = (py / FRAME_SCALE) as i64 - FRAME_BORDER as i64;
            let color: Rgb = if 0 <= x && x < FRAME_CELLS as i64 && 0 <= y
                && y < FRAME_CELLS as i64 {
                match last_at_exec(pixels, x, y) {
                    Some(v) => {
                        if px % FRAME_SCALE == 1 && py % FRAME_SCALE == 1 {
                            if v == 0 {
                                Rgb { r: 0xCC, g: 0xCC, b: 0xEE }
                            } else if v == 1 {
                                Rgb { r: 0x12, g: 0x33, b: 0x12 }
                            } else if v == 2 {
                                Rgb { r: 0x44, g: 0x88, b: 0xAA }
                            } else if v == 3 {
                                Rgb { r: 0x12, g: 0x12, b: 0xCC }
                            } else if v == 4 {
                                Rgb { r: 0xCC, g: 0x12, b: 0x12 }
                            } else {
                                Rgb { r: 0xDD, g: 0xDD, b: 0xDD }
                            }
                        } else {
                            Rgb { r: 0, g: 0, b: 0 }
                        }
                    }
                    None => Rgb { r: 0xFF, g: 0xFF, b: 0xFF },
                }
            } else {
                Rgb { r: 0xFF, g: 0xFF, b: 0xFF }
            };
            proof {
                assert(color == frame_pixel(pixels@, px as int, py as int));
            }
            out.push(color);
            px += 1;
        }
        py += 1;
    }
    Frame { width: FRAME_SIDE, height: FRAME_SIDE, pixels: out }
}

} // verus!
