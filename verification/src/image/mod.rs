//! Drawing pictures in a terminal.

pub mod detect;
pub mod kitty;
pub mod laws;
pub mod sixel;

use vstd::prelude::*;
use crate::image::sixel::{Picture, Rgb};
use crate::ui::page::Cell;

verus! {

/// A channel value as it looks on white paper, `alpha` of 255 parts opaque.
pub open spec fn on_white(value: u8, alpha: u8) -> int {
    (value * alpha + 255 * (255 - alpha)) / 255
}

proof fn lemma_on_white(value: u8, alpha: u8)
    ensures
        0 <= value * alpha <= 255 * alpha,
        0 <= on_white(value, alpha) <= 255,
{
    let (v, a) = (value as int, alpha as int);
    assert(0 <= v * a <= 255 * a) by (nonlinear_arith)
        requires
            0 <= v <= 255,
            0 <= a,
    ;
}

fn blend(value: u8, alpha: u8) -> (r: u8)
    ensures
        r == on_white(value, alpha),
{
    proof {
        lemma_on_white(value, alpha);
    }
    let value = value as u32;
    let alpha = alpha as u32;
    ((value * alpha + 255 * (255 - alpha)) / 255) as u8
}

/// Puts a pixel on a white page, so transparent parts read as paper.
pub fn flatten(pixel: [u8; 4]) -> (r: Rgb)
    ensures
        r.0 == on_white(pixel[0], pixel[3]),
        r.1 == on_white(pixel[1], pixel[3]),
        r.2 == on_white(pixel[2], pixel[3]),
{
    (blend(pixel[0], pixel[3]), blend(pixel[1], pixel[3]), blend(pixel[2], pixel[3]))
}

/// An opaque pixel keeps its colour, a transparent one reads as white, and
/// nothing gets darker than it was.
pub proof fn paper_shows_through(value: u8, alpha: u8)
    ensures
        on_white(value, 255) == value,
        on_white(value, 0) == 255,
        value <= on_white(value, alpha) <= 255,
{
    lemma_on_white(value, alpha);
    let (v, a) = (value as int, alpha as int);
    assert(v * a + 255 * (255 - a) >= 255 * v) by (nonlinear_arith)
        requires
            0 <= v <= 255,
            0 <= a <= 255,
    ;
}

/// The pixel in a column and a row.
pub open spec fn pixel_at(pixels: Seq<Rgb>, width: int, x: int, y: int) -> Rgb {
    pixels[y * width + x]
}

/// The cell in a column and a row of cells. Below the last row of an odd number
/// the pixel repeats.
pub open spec fn cell_at(picture: Picture, x: int, row: int) -> Cell {
    let below = if 2 * row + 1 < picture.height {
        2 * row + 1
    } else {
        2 * row
    };
    Cell {
        upper: pixel_at(picture.pixels@, picture.width as int, x, 2 * row),
        lower: pixel_at(picture.pixels@, picture.width as int, x, below),
    }
}

/// One row of cells.
pub open spec fn cell_row(picture: Picture, row: int) -> Seq<Cell> {
    Seq::new(picture.width as nat, |x: int| cell_at(picture, x, row))
}

proof fn lemma_place(width: int, height: int, x: int, y: int)
    by (nonlinear_arith)
    requires
        0 <= x < width,
        0 <= y < height,
    ensures
        0 <= y * width <= y * width + x < width * height,
{
}

fn pixel(picture: &Picture, x: u32, y: u32) -> (r: Rgb)
    requires
        picture.wf(),
        x < picture.width,
        y < picture.height,
    ensures
        r == pixel_at(picture.pixels@, picture.width as int, x as int, y as int),
{
    proof {
        lemma_place(picture.width as int, picture.height as int, x as int, y as int);
    }
    let i: usize = (y * picture.width + x) as usize;
    picture.pixels[i]
}

/// Turns a picture into cells of two pixels each, one above the other.
pub fn cells(picture: &Picture) -> (r: Vec<Vec<Cell>>)
    requires
        picture.wf(),
    ensures
        r@.len() == (picture.height + 1) / 2,
        forall|row: int| 0 <= row < r@.len() ==> (#[trigger] r@[row])@ == cell_row(*picture, row),
{
    let mut out: Vec<Vec<Cell>> = Vec::new();
    let count: u32 = picture.height / 2 + picture.height % 2;
    let mut row: u32 = 0;
    while row < count
        invariant
            picture.wf(),
            count == (picture.height + 1) / 2,
            row <= count,
            out@.len() == row,
            forall|k: int| 0 <= k < row ==> (#[trigger] out@[k])@ == cell_row(*picture, k),
        decreases count - row,
    {
        let mut line: Vec<Cell> = Vec::new();
        let top: u32 = row * 2;
        let below: u32 = if top < picture.height - 1 {
            top + 1
        } else {
            top
        };
        let mut x: u32 = 0;
        while x < picture.width
            invariant
                picture.wf(),
                x <= picture.width,
                top == 2 * row,
                top < picture.height,
                below == (if 2 * row + 1 < picture.height {
                    2 * row + 1
                } else {
                    2 * row as int
                }),
                line@ == cell_row(*picture, row as int).take(x as int),
            decreases picture.width - x,
        {
            line.push(Cell { upper: pixel(picture, x, top), lower: pixel(picture, x, below) });
            x += 1;
            assert(line@ =~= cell_row(*picture, row as int).take(x as int));
        }
        assert(line@ =~= cell_row(*picture, row as int));
        out.push(line);
        row += 1;
    }
    out
}

} // verus!
