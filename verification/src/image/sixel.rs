//! Encoding pictures as Sixel, the format foot and xterm understand.
//!
//! Sixel writes an image in bands six pixel rows tall. Within a band, one
//! character carries six vertically stacked pixels of one colour: bit 0 is the
//! top row, bit 5 the bottom, and the value is offset by 63 into printable
//! ASCII. A band is written once per colour that appears in it, returning to the
//! band's start with `$` in between, and `-` moves on to the next band.
//!
//! Colours come from a fixed palette rather than a quantiser. A 6·6·6 colour
//! cube plus a grey ramp covers book illustrations well, keeps the encoder
//! simple, and costs no dependency. Sixel palettes hold 256 entries, so the cube
//! has to stay within that budget.

use vstd::prelude::*;
use crate::text::{decimal, decimal_of, push_chars, push_text, text_of};

verus! {

/// Entries of the palette: a colour cube with six levels per channel and a ramp
/// of 24 greys, which line drawings and screenshots rely on.
pub const COLORS: usize = 240;

/// Levels per channel of the colour cube.
pub const LEVELS: usize = 6;

/// Entries of the colour cube, which come first.
pub const CUBE: usize = 216;

pub type Rgb = (u8, u8, u8);

/// A level of the colour cube as a channel value.
pub open spec fn step_value(index: int) -> int {
    index * 51
}

/// A palette entry.
pub open spec fn palette_color(i: int) -> (int, int, int) {
    if i < CUBE {
        (step_value(i / 36), step_value(i / 6 % 6), step_value(i % 6))
    } else {
        let value = (i - CUBE) * 255 / 23;
        (value, value, value)
    }
}

pub open spec fn wide(c: Rgb) -> (int, int, int) {
    (c.0 as int, c.1 as int, c.2 as int)
}

pub open spec fn square(n: int) -> int {
    n * n
}

/// Squared distance between two colours.
pub open spec fn color_distance(a: (int, int, int), b: (int, int, int)) -> int {
    square(a.0 - b.0) + square(a.1 - b.1) + square(a.2 - b.2)
}

/// A palette of all the colours, in order.
pub open spec fn is_palette(colors: Seq<Rgb>) -> bool {
    &&& colors.len() == COLORS
    &&& forall|i: int| 0 <= i < COLORS ==> wide(#[trigger] colors[i]) == palette_color(i)
}

/// A Sixel palette holds at most 256 entries.
pub proof fn the_palette_fits_the_budget(colors: Seq<Rgb>)
    requires
        is_palette(colors),
    ensures
        colors.len() <= 256,
{
}

pub fn step(index: usize) -> (r: u8)
    requires
        index < 6,
    ensures
        r == step_value(index as int),
{
    (index * 255 / 5) as u8
}

/// Builds the palette: a colour cube followed by a grey ramp.
pub fn palette() -> (r: Vec<Rgb>)
    ensures
        is_palette(r@),
{
    let mut colors: Vec<Rgb> = Vec::new();
    let mut i: usize = 0;
    while i < COLORS
        invariant
            i <= COLORS,
            colors@.len() == i,
            forall|k: int| 0 <= k < i ==> wide(#[trigger] colors@[k]) == palette_color(k),
        decreases COLORS - i,
    {
        let color: Rgb = if i < CUBE {
            (step(i / 36), step(i / 6 % 6), step(i % 6))
        } else {
            let value = ((i - CUBE) * 255 / 23) as u8;
            (value, value, value)
        };
        colors.push(color);
        i += 1;
    }
    colors
}

fn gap(a: u8, b: u8) -> (r: u32)
    ensures
        r == square(a as int - b as int),
        r <= 65025,
{
    let d: u32 = if a >= b {
        (a - b) as u32
    } else {
        (b - a) as u32
    };
    assert(d * d == square(a as int - b as int) && d * d <= 65025) by (nonlinear_arith)
        requires
            d == a - b || d == b - a,
            d <= 255,
    ;
    d * d
}

/// Squared distance between two colours.
pub fn distance(a: Rgb, b: Rgb) -> (r: u32)
    ensures
        r == color_distance(wide(a), wide(b)),
        r <= 195075,
{
    gap(a.0, b.0) + gap(a.1, b.1) + gap(a.2, b.2)
}

/// The cube level closest to one channel value.
///
/// The levels sit at 0, 51, 102, 153, 204 and 255, so the nearest one is the
/// value divided by the spacing and rounded. No value lands exactly between two
/// levels, because the spacing is odd.
pub fn level_of(value: u8) -> (r: usize)
    ensures
        r == (value * 5 + 127) / 255,
        r < 6,
{
    ((value as u32 * 5 + 127) / 255) as usize
}

/// `i` is the palette entry nearest to a pixel. Ties go to the lower index.
pub open spec fn is_nearest(i: int, pixel: (int, int, int)) -> bool {
    &&& 0 <= i < COLORS
    &&& forall|j: int|
        0 <= j < COLORS ==> {
            let d = color_distance(palette_color(i), pixel);
            let e = color_distance(#[trigger] palette_color(j), pixel);
            d < e || (d == e && i <= j)
        }
}

/// The palette entry nearest to a pixel.
pub open spec fn nearest_to(pixel: Rgb) -> int {
    choose|i: int| is_nearest(i, wide(pixel))
}

/// Only one palette entry is the nearest.
pub proof fn the_nearest_entry_is_unique(i: int, j: int, pixel: (int, int, int))
    requires
        is_nearest(i, pixel),
        is_nearest(j, pixel),
    ensures
        i == j,
{
    assert(palette_color(i) == palette_color(i));
    assert(palette_color(j) == palette_color(j));
}

/// Rounding one channel gives the level at the smallest distance, and any other
/// level is strictly farther away.
proof fn lemma_level(value: u8, k: int)
    requires
        0 <= k < 6,
    ensures
        ({
            let level = (value * 5 + 127) / 255;
            &&& k == level ==> square(step_value(level) - value) == square(step_value(k) - value)
            &&& k != level ==> square(step_value(level) - value) < square(step_value(k) - value)
        }),
{
    let level = (value * 5 + 127) / 255;
    let d = step_value(level) - value;
    let e = step_value(k) - value;
    assert(-25 <= d <= 25);
    if k != level {
        assert(e >= 26 || e <= -26);
        assert(d * d <= 25 * 25 && e * e >= 26 * 26) by (nonlinear_arith)
            requires
                -25 <= d <= 25,
                e >= 26 || e <= -26,
        ;
    }
}

/// A place in the cube and its three levels say the same.
proof fn lemma_levels(a: int, b: int, c: int)
    requires
        0 <= a < 6,
        0 <= b < 6,
        0 <= c < 6,
    ensures
        0 <= a * 36 + b * 6 + c < CUBE,
        (a * 36 + b * 6 + c) / 36 == a,
        (a * 36 + b * 6 + c) / 6 % 6 == b,
        (a * 36 + b * 6 + c) % 6 == c,
{
}

/// The entry that rounding gives is nearest among the cube.
proof fn lemma_cube(pixel: Rgb, a: int, b: int, c: int, j: int)
    requires
        a == (pixel.0 * 5 + 127) / 255,
        b == (pixel.1 * 5 + 127) / 255,
        c == (pixel.2 * 5 + 127) / 255,
        0 <= j < CUBE,
    ensures
        0 <= a * 36 + b * 6 + c < CUBE,
        j != a * 36 + b * 6 + c ==> color_distance(
            palette_color(a * 36 + b * 6 + c),
            wide(pixel),
        ) < color_distance(palette_color(j), wide(pixel)),
{
    lemma_levels(a, b, c);
    let d = j / 36;
    let e = j / 6 % 6;
    let f = j % 6;
    assert(0 <= d < 6 && 0 <= e < 6 && 0 <= f < 6 && j == d * 36 + e * 6 + f);
    lemma_level(pixel.0, d);
    lemma_level(pixel.1, e);
    lemma_level(pixel.2, f);
    assert(palette_color(a * 36 + b * 6 + c) == (step_value(a), step_value(b), step_value(c)));
    assert(palette_color(j) == (step_value(d), step_value(e), step_value(f)));
}

/// Nearest palette entry for a pixel, by squared distance.
///
/// The cube is a regular grid, so its nearest point follows from rounding each
/// channel on its own: on a rectangular grid that minimises the euclidean
/// distance, and no search is needed. Only the grey ramp is scanned, and it
/// holds a tenth of the palette.
///
/// Ties go to the lower index, as a scan over the whole palette would give.
pub fn nearest(palette: &Vec<Rgb>, pixel: Rgb) -> (r: usize)
    requires
        is_palette(palette@),
    ensures
        is_nearest(r as int, wide(pixel)),
        r == nearest_to(pixel),
{
    let a = level_of(pixel.0);
    let b = level_of(pixel.1);
    let c = level_of(pixel.2);
    let cube = a * 36 + b * 6 + c;
    let ghost p = wide(pixel);
    proof {
        lemma_cube(pixel, a as int, b as int, c as int, 0);
    }
    let mut best = cube;
    let mut best_distance = distance(palette[cube], pixel);
    assert forall|j: int| 0 <= j < CUBE implies {
        let d = color_distance(palette_color(cube as int), p);
        let e = color_distance(#[trigger] palette_color(j), p);
        d < e || (d == e && cube <= j)
    } by {
        lemma_cube(pixel, a as int, b as int, c as int, j);
    }
    let mut index: usize = CUBE;
    while index < COLORS
        invariant
            CUBE <= index <= COLORS,
            is_palette(palette@),
            p == wide(pixel),
            best < index,
            best_distance == color_distance(palette_color(best as int), p),
            forall|j: int|
                0 <= j < index ==> {
                    let d = color_distance(palette_color(best as int), p);
                    let e = color_distance(#[trigger] palette_color(j), p);
                    d < e || (d == e && best <= j)
                },
        decreases COLORS - index,
    {
        let candidate = distance(palette[index], pixel);
        if candidate < best_distance {
            best_distance = candidate;
            best = index;
        }
        index += 1;
    }
    assert(is_nearest(best as int, p));
    proof {
        the_nearest_entry_is_unique(best as int, nearest_to(pixel), p);
    }
    best
}

/// A picture at its final pixel size, row by row.
#[derive(Debug)]
pub struct Picture {
    pub width: u32,
    pub height: u32,
    pub pixels: Vec<Rgb>,
}

impl Picture {
    /// There is one pixel for each place, and no more places than can be
    /// counted.
    pub open spec fn wf(&self) -> bool {
        &&& self.width * self.height == self.pixels@.len()
        &&& self.width * self.height <= u32::MAX
    }
}

/// The palette entry of the pixel in a column and a row.
pub open spec fn index_at(pixels: Seq<Rgb>, width: int, x: int, y: int) -> int {
    nearest_to(pixels[y * width + x])
}

/// Some pixel has this palette entry.
pub open spec fn is_used(pixels: Seq<Rgb>, color: int) -> bool {
    exists|i: int| 0 <= i < pixels.len() && nearest_to(#[trigger] pixels[i]) == color
}

/// A channel value in percent.
pub open spec fn percent_of(value: int) -> int {
    value * 100 / 255
}

/// The definition of one colour.
pub open spec fn color_definition(color: int) -> Seq<char> {
    let (r, g, b) = palette_color(color);
    "#"@ + decimal(color as nat) + ";2;"@ + decimal(percent_of(r) as nat) + ";"@ + decimal(
        percent_of(g) as nat,
    ) + ";"@ + decimal(percent_of(b) as nat)
}

/// The definitions of the first `n` colours, as far as they are used.
pub open spec fn definitions(pixels: Seq<Rgb>, n: int) -> Seq<char>
    decreases n,
{
    if n <= 0 {
        Seq::empty()
    } else if is_used(pixels, n - 1) {
        definitions(pixels, n - 1) + color_definition(n - 1)
    } else {
        definitions(pixels, n - 1)
    }
}

/// Two to the power of a row.
pub open spec fn row_weight(row: int) -> int
    decreases row,
{
    if row <= 0 {
        1
    } else {
        2 * row_weight(row - 1)
    }
}

/// The first `rows` rows of a band in one column, as bits: those of one colour
/// are set.
pub open spec fn column_bits(
    pixels: Seq<Rgb>,
    width: int,
    height: int,
    band: int,
    x: int,
    color: int,
    rows: int,
) -> int
    decreases rows,
{
    if rows <= 0 {
        0
    } else {
        let y = band * 6 + rows - 1;
        column_bits(pixels, width, height, band, x, color, rows - 1) + (if y < height && index_at(
            pixels,
            width,
            x,
            y,
        ) == color {
            row_weight(rows - 1)
        } else {
            0
        })
    }
}

/// One colour's band: a value for each column.
pub open spec fn band_run(pixels: Seq<Rgb>, width: int, height: int, band: int, color: int) -> Seq<u8> {
    Seq::new(
        width as nat,
        |x: int| column_bits(pixels, width, height, band, x, color, 6) as u8,
    )
}

/// Some pixel of the run is set.
pub open spec fn any_set(run: Seq<u8>) -> bool {
    exists|x: int| 0 <= x < run.len() && #[trigger] run[x] != 0
}

/// How far the value at `i` repeats, up to `end`.
pub open spec fn repeats(run: Seq<u8>, i: int, end: int) -> int
    decreases run.len() - end,
{
    if i < 0 || end < 0 || end >= run.len() || run[end] != run[i] {
        end
    } else {
        repeats(run, i, end + 1)
    }
}

/// The printable character for a value.
pub open spec fn glyph(bits: u8) -> char {
    (bits + 63) as char
}

/// A repeated character. The run operator only pays off from four repeats.
pub open spec fn repeated(c: char, n: int) -> Seq<char> {
    if n >= 4 {
        "!"@ + decimal(n as nat) + seq![c]
    } else {
        Seq::new(n as nat, |i: int| c)
    }
}

/// One colour's band from column `i` on, with repeats compressed.
pub open spec fn run_text(run: Seq<u8>, i: int) -> Seq<char>
    decreases run.len() - i,
{
    if i < 0 || i >= run.len() {
        Seq::empty()
    } else {
        let e = repeats(run, i, i + 1);
        if e <= i || e > run.len() {
            Seq::empty()
        } else {
            repeated(glyph(run[i]), e - i) + run_text(run, e)
        }
    }
}

/// What the first `n` colours write into a band.
pub open spec fn band_text(pixels: Seq<Rgb>, width: int, height: int, band: int, n: int) -> Seq<char>
    decreases n,
{
    if n <= 0 {
        Seq::empty()
    } else {
        let before = band_text(pixels, width, height, band, n - 1);
        let run = band_run(pixels, width, height, band, n - 1);
        if is_used(pixels, n - 1) && any_set(run) {
            // Return to the start of the band for every colour but the first.
            let back = if before.len() == 0 {
                Seq::empty()
            } else {
                "$"@
            };
            before + back + "#"@ + decimal((n - 1) as nat) + run_text(run, 0)
        } else {
            before
        }
    }
}

/// How many bands a height takes.
pub open spec fn band_count(height: int) -> int {
    (height + 5) / 6
}

/// The first `n` bands.
pub open spec fn bands_text(pixels: Seq<Rgb>, width: int, height: int, n: int) -> Seq<char>
    decreases n,
{
    if n <= 0 {
        Seq::empty()
    } else {
        bands_text(pixels, width, height, n - 1) + band_text(
            pixels,
            width,
            height,
            n - 1,
            COLORS as int,
        ) + (if n < band_count(height) {
            "-"@
        } else {
            Seq::empty()
        })
    }
}

/// A picture as a Sixel escape sequence. The raster attributes give the aspect
/// ratio and the pixel size, which lets a terminal reserve the right area.
pub open spec fn sixel_text(pixels: Seq<Rgb>, width: int, height: int) -> Seq<char> {
    if width == 0 || height == 0 {
        Seq::empty()
    } else {
        "\x1bP0;1;0q\"1;1;"@ + decimal(width as nat) + ";"@ + decimal(height as nat) + definitions(
            pixels,
            COLORS as int,
        ) + bands_text(pixels, width, height, band_count(height)) + "\x1b\\"@
    }
}

proof fn lemma_repeats(run: Seq<u8>, i: int, end: int)
    requires
        0 <= i < end <= run.len(),
        forall|k: int| i <= k < end ==> run[k] == run[i],
    ensures
        end <= repeats(run, i, end) <= run.len(),
        forall|k: int| i <= k < repeats(run, i, end) ==> #[trigger] run[k] == run[i],
        repeats(run, i, end) < run.len() ==> run[repeats(run, i, end)] != run[i],
    decreases run.len() - end,
{
    if end < run.len() && run[end] == run[i] {
        lemma_repeats(run, i, end + 1);
    }
}

fn push_number(out: &mut Vec<char>, n: u64)
    ensures
        final(out)@ == old(out)@ + decimal(n as nat),
{
    let digits = decimal_of(n);
    push_chars(out, &digits);
}

pub fn percent(value: u8) -> (r: u8)
    ensures
        r == percent_of(value as int),
{
    ((value as u16 * 100) / 255) as u8
}

/// Writes one colour's band, compressing repeats with the `!` run operator.
pub fn write_run(out: &mut Vec<char>, run: &Vec<u8>)
    requires
        forall|i: int| 0 <= i < run@.len() ==> #[trigger] run@[i] < 64,
    ensures
        final(out)@ == old(out)@ + run_text(run@, 0),
{
    let ghost start = out@;
    let mut i: usize = 0;
    while i < run.len()
        invariant
            i <= run@.len(),
            forall|k: int| 0 <= k < run@.len() ==> #[trigger] run@[k] < 64,
            out@ + run_text(run@, i as int) == start + run_text(run@, 0),
        decreases run@.len() - i,
    {
        let bits = run[i];
        let ghost before = out@;
        let mut e: usize = i + 1;
        proof {
            lemma_repeats(run@, i as int, i + 1);
        }
        while e < run.len() && run[e] == bits
            invariant
                i < e <= run@.len(),
                bits == run@[i as int],
                repeats(run@, i as int, i + 1) == repeats(run@, i as int, e as int),
            decreases run@.len() - e,
        {
            e += 1;
        }
        assert(e == repeats(run@, i as int, i + 1));
        let c = (bits + 63) as char;
        assert(c == glyph(bits));
        let n = e - i;
        if n >= 4 {
            push_text(out, "!");
            push_number(out, n as u64);
            out.push(c);
            assert(out@ =~= before + repeated(c, n as int));
        } else {
            let mut k: usize = 0;
            while k < n
                invariant
                    k <= n,
                    n < 4,
                    out@ == before + Seq::new(k as nat, |i: int| c),
                decreases n - k,
            {
                out.push(c);
                k += 1;
                assert(out@ =~= before + Seq::new(k as nat, |i: int| c));
            }
            assert(out@ =~= before + repeated(c, n as int));
        }
        assert(before + run_text(run@, i as int) =~= out@ + run_text(run@, e as int));
        i = e;
    }
    assert(out@ + Seq::<char>::empty() =~= out@);
}

/// The palette entry of every pixel.
fn index_pixels(pixels: &Vec<Rgb>, colors: &Vec<Rgb>) -> (r: (Vec<usize>, Vec<bool>))
    requires
        is_palette(colors@),
    ensures
        r.0@.len() == pixels@.len(),
        forall|i: int| 0 <= i < pixels@.len() ==> #[trigger] r.0@[i] == nearest_to(pixels@[i]),
        r.1@.len() == COLORS,
        forall|c: int| 0 <= c < COLORS ==> #[trigger] r.1@[c] == is_used(pixels@, c),
{
    let mut indexed: Vec<usize> = Vec::new();
    let mut used: Vec<bool> = Vec::new();
    let mut c: usize = 0;
    while c < COLORS
        invariant
            c <= COLORS,
            used@.len() == c,
            forall|k: int| 0 <= k < c ==> !#[trigger] used@[k],
        decreases COLORS - c,
    {
        used.push(false);
        c += 1;
    }
    let mut i: usize = 0;
    while i < pixels.len()
        invariant
            i <= pixels@.len(),
            is_palette(colors@),
            indexed@.len() == i,
            forall|k: int| 0 <= k < i ==> #[trigger] indexed@[k] == nearest_to(pixels@[k]),
            used@.len() == COLORS,
            forall|c: int|
                0 <= c < COLORS ==> (#[trigger] used@[c] <==> exists|k: int|
                    0 <= k < i && nearest_to(#[trigger] pixels@[k]) == c),
        decreases pixels@.len() - i,
    {
        let index = nearest(colors, pixels[i]);
        let ghost before = used@;
        indexed.push(index);
        used.set(index, true);
        i += 1;
        assert forall|c: int| 0 <= c < COLORS implies (#[trigger] used@[c] <==> exists|k: int|
            0 <= k < i && nearest_to(#[trigger] pixels@[k]) == c) by {
            if c == index {
                assert(nearest_to(pixels@[i - 1]) == c);
            } else if before[c] {
                let k = choose|k: int| 0 <= k < i - 1 && nearest_to(#[trigger] pixels@[k]) == c;
                assert(nearest_to(pixels@[k]) == c);
            } else {
                if exists|k: int| 0 <= k < i && nearest_to(#[trigger] pixels@[k]) == c {
                    let k = choose|k: int| 0 <= k < i && nearest_to(#[trigger] pixels@[k]) == c;
                    assert(k < i - 1);
                    assert(before[c]);
                }
            }
        }
    }
    (indexed, used)
}

proof fn lemma_place(width: int, height: int, x: int, y: int)
    requires
        0 <= x < width,
        0 <= y < height,
    ensures
        0 <= y * width + x < width * height,
        0 <= y * width <= width * height,
{
    assert(0 <= y * width + x < width * height && 0 <= y * width <= width * height)
        by (nonlinear_arith)
        requires
            0 <= x < width,
            0 <= y < height,
    ;
}

proof fn lemma_column_bits(
    pixels: Seq<Rgb>,
    width: int,
    height: int,
    band: int,
    x: int,
    color: int,
    rows: int,
)
    requires
        0 <= rows <= 6,
    ensures
        0 <= column_bits(pixels, width, height, band, x, color, rows) < row_weight(rows),
        row_weight(rows) <= 64,
    decreases rows,
{
    reveal_with_fuel(row_weight, 7);
    if rows > 0 {
        lemma_column_bits(pixels, width, height, band, x, color, rows - 1);
    }
}

/// One column of a band, as bits.
fn column(
    picture: &Picture,
    indexed: &Vec<usize>,
    band: u32,
    x: u32,
    color: usize,
) -> (r: u8)
    requires
        picture.wf(),
        indexed@.len() == picture.pixels@.len(),
        forall|i: int|
            0 <= i < indexed@.len() ==> #[trigger] indexed@[i] == nearest_to(picture.pixels@[i]),
        x < picture.width,
        band < band_count(picture.height as int),
    ensures
        r == column_bits(
            picture.pixels@,
            picture.width as int,
            picture.height as int,
            band as int,
            x as int,
            color as int,
            6,
        ),
        r < 64,
{
    let mut bits: u8 = 0;
    let mut weight: u8 = 1;
    let mut row: u32 = 0;
    let width = picture.width as usize;
    while row < 6
        invariant
            row <= 6,
            picture.wf(),
            width == picture.width,
            indexed@.len() == picture.pixels@.len(),
            forall|i: int|
                0 <= i < indexed@.len() ==> #[trigger] indexed@[i] == nearest_to(
                    picture.pixels@[i],
                ),
            x < picture.width,
            band < band_count(picture.height as int),
            weight == row_weight(row as int),
            bits == column_bits(
                picture.pixels@,
                picture.width as int,
                picture.height as int,
                band as int,
                x as int,
                color as int,
                row as int,
            ),
            bits < weight,
        decreases 6 - row,
    {
        let y: u64 = band as u64 * 6 + row as u64;
        proof {
            lemma_column_bits(
                picture.pixels@,
                picture.width as int,
                picture.height as int,
                band as int,
                x as int,
                color as int,
                row as int,
            );
            reveal_with_fuel(row_weight, 7);
        }
        assert(y == band * 6 + (row + 1) - 1);
        if y < picture.height as u64 {
            proof {
                lemma_place(picture.width as int, picture.height as int, x as int, y as int);
            }
            assert(y as usize * width + x as usize <= u32::MAX);
            let place = y as usize * width + x as usize;
            if indexed[place] == color {
                bits = bits + weight;
            }
        }
        row += 1;
        weight = weight * 2;
    }
    proof {
        reveal_with_fuel(row_weight, 7);
    }
    bits
}

/// Writes what every colour adds to one band.
fn write_band(
    picture: &Picture,
    indexed: &Vec<usize>,
    used: &Vec<bool>,
    band: u32,
    out: &mut Vec<char>,
)
    requires
        picture.wf(),
        indexed@.len() == picture.pixels@.len(),
        forall|i: int|
            0 <= i < indexed@.len() ==> #[trigger] indexed@[i] == nearest_to(picture.pixels@[i]),
        used@.len() == COLORS,
        forall|c: int| 0 <= c < COLORS ==> #[trigger] used@[c] == is_used(picture.pixels@, c),
        band < band_count(picture.height as int),
    ensures
        final(out)@ == old(out)@ + band_text(
            picture.pixels@,
            picture.width as int,
            picture.height as int,
            band as int,
            COLORS as int,
        ),
{
    let ghost start = out@;
    let ghost w = picture.width as int;
    let ghost h = picture.height as int;
    let ghost b = band as int;
    let mut first = true;
    let mut color: usize = 0;
    assert(start + band_text(picture.pixels@, w, h, b, 0) =~= start);
    while color < COLORS
        invariant
            color <= COLORS,
            picture.wf(),
            w == picture.width,
            h == picture.height,
            b == band,
            indexed@.len() == picture.pixels@.len(),
            forall|i: int|
                0 <= i < indexed@.len() ==> #[trigger] indexed@[i] == nearest_to(
                    picture.pixels@[i],
                ),
            used@.len() == COLORS,
            forall|c: int| 0 <= c < COLORS ==> #[trigger] used@[c] == is_used(picture.pixels@, c),
            band < band_count(picture.height as int),
            out@ == start + band_text(picture.pixels@, w, h, b, color as int),
            first == (band_text(picture.pixels@, w, h, b, color as int).len() == 0),
        decreases COLORS - color,
    {
        let ghost before = band_text(picture.pixels@, w, h, b, color as int);
        let ghost run_view = band_run(picture.pixels@, w, h, b, color as int);
        if used[color] {
            let mut run: Vec<u8> = Vec::new();
            let mut any = false;
            let mut x: u32 = 0;
            while x < picture.width
                invariant
                    x <= picture.width,
                    picture.wf(),
                    w == picture.width,
                    h == picture.height,
                    b == band,
                    indexed@.len() == picture.pixels@.len(),
                    forall|i: int|
                        0 <= i < indexed@.len() ==> #[trigger] indexed@[i] == nearest_to(
                            picture.pixels@[i],
                        ),
                    band < band_count(picture.height as int),
                    run_view == band_run(picture.pixels@, w, h, b, color as int),
                    run@.len() == x,
                    forall|k: int| 0 <= k < x ==> #[trigger] run@[k] == run_view[k] && run@[k] < 64,
                    any == exists|k: int| 0 <= k < x && #[trigger] run@[k] != 0,
                decreases picture.width - x,
            {
                let bits = column(picture, indexed, band, x, color);
                let ghost was = run@;
                if bits != 0 {
                    any = true;
                }
                run.push(bits);
                x += 1;
                proof {
                    assert(run@[x - 1] == bits);
                    if exists|k: int| 0 <= k < x - 1 && #[trigger] was[k] != 0 {
                        let k = choose|k: int| 0 <= k < x - 1 && #[trigger] was[k] != 0;
                        assert(run@[k] != 0);
                    }
                    if exists|k: int| 0 <= k < x && #[trigger] run@[k] != 0 {
                        let k = choose|k: int| 0 <= k < x && #[trigger] run@[k] != 0;
                        if k < x - 1 {
                            assert(was[k] != 0);
                        }
                    }
                }
            }
            assert(run@ =~= run_view);
            if any {
                if !first {
                    push_text(out, "$");
                }
                first = false;
                push_text(out, "#");
                push_number(out, color as u64);
                write_run(out, &run);
                proof {
                    reveal_strlit("#");
                }
                assert(out@ =~= start + band_text(picture.pixels@, w, h, b, color + 1));
            }
        }
        color += 1;
    }
}

/// Encodes an image as a Sixel escape sequence.
///
/// The image must already be scaled to its final pixel size, because Sixel
/// carries no scaling of its own.
pub fn encode(picture: &Picture) -> (r: String)
    requires
        picture.wf(),
    ensures
        r@ == sixel_text(picture.pixels@, picture.width as int, picture.height as int),
{
    let width = picture.width;
    let height = picture.height;
    if width == 0 || height == 0 {
        return String::new();
    }
    let colors = palette();
    let (indexed, used) = index_pixels(&picture.pixels, &colors);
    let mut out: Vec<char> = Vec::new();
    push_text(&mut out, "\x1bP0;1;0q\"1;1;");
    push_number(&mut out, width as u64);
    push_text(&mut out, ";");
    push_number(&mut out, height as u64);
    let ghost head = out@;
    let mut i: usize = 0;
    assert(head + definitions(picture.pixels@, 0) =~= head);
    while i < COLORS
        invariant
            i <= COLORS,
            is_palette(colors@),
            used@.len() == COLORS,
            forall|c: int| 0 <= c < COLORS ==> #[trigger] used@[c] == is_used(picture.pixels@, c),
            out@ == head + definitions(picture.pixels@, i as int),
        decreases COLORS - i,
    {
        if used[i] {
            let color = colors[i];
            assert(wide(color) == palette_color(i as int));
            let ghost before = out@;
            push_text(&mut out, "#");
            push_number(&mut out, i as u64);
            push_text(&mut out, ";2;");
            push_number(&mut out, percent(color.0) as u64);
            push_text(&mut out, ";");
            push_number(&mut out, percent(color.1) as u64);
            push_text(&mut out, ";");
            push_number(&mut out, percent(color.2) as u64);
            assert(out@ =~= before + color_definition(i as int));
        }
        i += 1;
        assert(out@ =~= head + definitions(picture.pixels@, i as int));
    }
    let ghost lead = out@;
    let bands: u32 = (height - 1) / 6 + 1;
    assert(bands == band_count(height as int));
    let ghost w = width as int;
    let ghost h = height as int;
    let mut band: u32 = 0;
    assert(lead + bands_text(picture.pixels@, w, h, 0) =~= lead);
    while band < bands
        invariant
            band <= bands,
            bands == band_count(picture.height as int),
            picture.wf(),
            w == picture.width,
            h == picture.height,
            indexed@.len() == picture.pixels@.len(),
            forall|i: int|
                0 <= i < indexed@.len() ==> #[trigger] indexed@[i] == nearest_to(
                    picture.pixels@[i],
                ),
            used@.len() == COLORS,
            forall|c: int| 0 <= c < COLORS ==> #[trigger] used@[c] == is_used(picture.pixels@, c),
            out@ == lead + bands_text(picture.pixels@, w, h, band as int),
        decreases bands - band,
    {
        write_band(picture, &indexed, &used, band, &mut out);
        if band + 1 < bands {
            push_text(&mut out, "-");
        }
        band += 1;
        assert(out@ =~= lead + bands_text(picture.pixels@, w, h, band as int));
    }
    push_text(&mut out, "\x1b\\");
    text_of(&out)
}

// ---------------------------------------------------------------------------
// What holds of the encoding
// ---------------------------------------------------------------------------
/// A run as stretches of one value each.
pub open spec fn stretches(run: Seq<u8>, i: int) -> Seq<(u8, int)>
    decreases run.len() - i,
{
    if i < 0 || i >= run.len() {
        Seq::empty()
    } else {
        let e = repeats(run, i, i + 1);
        if e <= i || e > run.len() {
            Seq::empty()
        } else {
            seq![(run[i], e - i)] + stretches(run, e)
        }
    }
}

/// Stretches written out again.
pub open spec fn unfolded(s: Seq<(u8, int)>) -> Seq<u8>
    decreases s.len(),
{
    if s.len() == 0 {
        Seq::empty()
    } else {
        Seq::new(s[0].1 as nat, |i: int| s[0].0) + unfolded(s.drop_first())
    }
}

/// Stretches as text.
pub open spec fn stretches_text(s: Seq<(u8, int)>) -> Seq<char>
    decreases s.len(),
{
    if s.len() == 0 {
        Seq::empty()
    } else {
        repeated(glyph(s[0].0), s[0].1) + stretches_text(s.drop_first())
    }
}

/// Compressing repeats loses nothing: the text spells out stretches that unfold
/// to the very same run, and no two neighbouring stretches carry the same value.
pub proof fn compression_loses_nothing(run: Seq<u8>, i: int)
    requires
        0 <= i <= run.len(),
    ensures
        unfolded(stretches(run, i)) == run.skip(i),
        stretches_text(stretches(run, i)) == run_text(run, i),
        forall|k: int|
            0 <= k < stretches(run, i).len() ==> (#[trigger] stretches(run, i)[k]).1 >= 1,
    decreases run.len() - i,
{
    let all = stretches(run, i);
    if i < run.len() {
        lemma_repeats(run, i, i + 1);
        let e = repeats(run, i, i + 1);
        compression_loses_nothing(run, e);
        let rest = stretches(run, e);
        assert(all.drop_first() =~= rest);
        assert(run.skip(i) =~= Seq::new((e - i) as nat, |k: int| run[i]) + run.skip(e));
        assert(Seq::new(all[0].1 as nat, |k: int| all[0].0) =~= Seq::new(
            (e - i) as nat,
            |k: int| run[i],
        ));
        assert forall|k: int| 0 <= k < all.len() implies (#[trigger] all[k]).1 >= 1 by {
            if k > 0 {
                assert(all[k] == rest[k - 1]);
            }
        }
    } else {
        assert(run.skip(i) =~= Seq::<u8>::empty());
    }
}

/// Every pixel inside the picture sets the bit of its row in the band of its own
/// colour, and no other colour's.
pub proof fn a_pixel_shows_in_its_own_colour(
    pixels: Seq<Rgb>,
    width: int,
    height: int,
    x: int,
    y: int,
    color: int,
)
    requires
        0 <= x < width,
        0 <= y < height,
    ensures
        ({
            let band = y / 6;
            let row = y % 6;
            column_bits(pixels, width, height, band, x, color, row + 1) - column_bits(
                pixels,
                width,
                height,
                band,
                x,
                color,
                row,
            ) == (if index_at(pixels, width, x, y) == color {
                row_weight(row)
            } else {
                0
            })
        }),
{
    assert(y / 6 * 6 + (y % 6 + 1) - 1 == y);
}

} // verus!
