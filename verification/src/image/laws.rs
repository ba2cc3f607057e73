//! What holds of every picture that is drawn.

use vstd::prelude::*;
use crate::gather::{lemma_says, lemma_says_add, says};
use crate::image::cell_row;
use crate::image::kitty::{chunk_end, chunk_head, sequences_from};
use crate::image::sixel::{
    any_set, band_count, band_run, band_text, bands_text, color_definition, definitions, is_used,
    palette_color, percent_of, run_text, sixel_text, Picture, Rgb, COLORS,
};
use crate::text::decimal;

verus! {

/// Every pixel is shown by the cell of its column and its pair of rows: the upper one
/// by the upper half, the lower one by the lower half. A last row without a partner
/// fills both halves.
pub proof fn every_pixel_is_in_a_cell(picture: Picture, x: int, y: int)
    requires
        picture.wf(),
        0 <= x < picture.width,
        0 <= y < picture.height,
    ensures
        ({
            let row = cell_row(picture, y / 2);
            let own = picture.pixels@[y * picture.width + x];
            &&& row.len() == picture.width
            &&& 0 <= y / 2 < (picture.height + 1) / 2
            &&& y % 2 == 0 ==> row[x].upper == own
            &&& y % 2 == 1 ==> row[x].lower == own
            &&& y % 2 == 0 && y + 1 == picture.height ==> row[x].lower == own
        }),
{
    if y % 2 == 0 {
        assert(2 * (y / 2) == y);
    } else {
        assert(2 * (y / 2) + 1 == y);
    }
}

/// The first 216 colours are all mixtures of six levels of each channel, and those
/// behind them a ramp of greys from black to white.
pub proof fn the_palette_covers_the_cube(r: int, g: int, b: int, grey: int)
    requires
        0 <= r < 6,
        0 <= g < 6,
        0 <= b < 6,
        0 <= grey < 24,
    ensures
        palette_color(36 * r + 6 * g + b) == (51 * r, 51 * g, 51 * b),
        palette_color(216 + grey).0 == palette_color(216 + grey).1,
        palette_color(216 + grey).1 == palette_color(216 + grey).2,
        grey == 0 ==> palette_color(216 + grey).0 == 0,
        grey == 23 ==> palette_color(216 + grey).0 == 255,
        grey < 23 ==> palette_color(216 + grey).0 < palette_color(216 + grey + 1).0,
{
    let i = 36 * r + 6 * g + b;
    assert(i / 36 == r);
    assert(i / 6 == 6 * r + g);
    assert(i / 6 % 6 == g);
    assert(i % 6 == b);
}

/// A channel is given in percent: none of it as 0, all of it as 100, and more of it
/// never as less.
pub proof fn channels_are_given_in_percent(a: int, b: int)
    requires
        0 <= a <= b <= 255,
    ensures
        0 <= percent_of(a) <= percent_of(b) <= 100,
        percent_of(0) == 0,
        percent_of(255) == 100,
        255 * percent_of(a) <= 100 * a < 255 * (percent_of(a) + 1),
{
}

proof fn lemma_defined(pixels: Seq<Rgb>, n: int, color: int)
    requires
        0 <= color < n,
        is_used(pixels, color),
    ensures
        says(definitions(pixels, n), color_definition(color)),
    decreases n,
{
    let before = definitions(pixels, n - 1);
    if color == n - 1 {
        lemma_says(before, color_definition(color), Seq::empty());
        assert(before + color_definition(color) + Seq::<char>::empty() =~= definitions(pixels, n));
    } else {
        lemma_defined(pixels, n - 1, color);
        lemma_says_add(before, color_definition(n - 1), color_definition(color));
    }
}

/// What a colour writes into a band: its number and its run.
pub open spec fn painted_in(pixels: Seq<Rgb>, width: int, height: int, band: int, color: int) -> Seq<
    char,
> {
    "#"@ + decimal(color as nat) + run_text(band_run(pixels, width, height, band, color), 0)
}

proof fn lemma_painted(pixels: Seq<Rgb>, width: int, height: int, band: int, n: int, color: int)
    requires
        0 <= color < n,
        is_used(pixels, color),
        any_set(band_run(pixels, width, height, band, color)),
    ensures
        says(
            band_text(pixels, width, height, band, n),
            painted_in(pixels, width, height, band, color),
        ),
    decreases n,
{
    let before = band_text(pixels, width, height, band, n - 1);
    let all = band_text(pixels, width, height, band, n);
    let part = painted_in(pixels, width, height, band, color);
    let back = if before.len() == 0 {
        Seq::empty()
    } else {
        "$"@
    };
    if color == n - 1 {
        lemma_says(before + back, part, Seq::empty());
        assert(all =~= before + back + part + Seq::<char>::empty());
    } else {
        lemma_painted(pixels, width, height, band, n - 1, color);
        let last = painted_in(pixels, width, height, band, n - 1);
        if is_used(pixels, n - 1) && any_set(band_run(pixels, width, height, band, n - 1)) {
            lemma_says_add(before, back + last, part);
            assert(all =~= before + (back + last));
        }
    }
}

proof fn lemma_band(pixels: Seq<Rgb>, width: int, height: int, n: int, band: int)
    requires
        0 <= band < n,
    ensures
        says(
            bands_text(pixels, width, height, n),
            band_text(pixels, width, height, band, COLORS as int),
        ),
    decreases n,
{
    let before = bands_text(pixels, width, height, n - 1);
    let own = band_text(pixels, width, height, n - 1, COLORS as int);
    let part = band_text(pixels, width, height, band, COLORS as int);
    let end = if n < band_count(height) {
        "-"@
    } else {
        Seq::empty()
    };
    if band == n - 1 {
        lemma_says(before, own, end);
    } else {
        lemma_band(pixels, width, height, n - 1, band);
        lemma_says_add(before, own + end, part);
        assert(bands_text(pixels, width, height, n) =~= before + (own + end));
    }
}

proof fn lemma_said_within(t: Seq<char>, middle: Seq<char>, part: Seq<char>)
    requires
        says(t, middle),
        says(middle, part),
    ensures
        says(t, part),
{
    let p = choose|p: int| #[trigger] crate::text::occurs_at(t, middle, p);
    let before = t.take(p);
    let after = t.skip(p + middle.len());
    assert(t =~= before + middle + after);
    lemma_says_add(middle, after, part);
    lemma_says_add(before, middle + after, part);
    assert(before + (middle + after) =~= t);
}

/// A picture is written with its size, with every colour that it uses, and with every
/// band of six rows, in which each colour of the band has its run.
pub proof fn every_colour_and_every_band_is_written(
    pixels: Seq<Rgb>,
    width: int,
    height: int,
    band: int,
    color: int,
)
    requires
        width > 0,
        0 <= band,
        6 * band < height,
        0 <= color < COLORS,
        is_used(pixels, color),
    ensures
        ({
            let t = sixel_text(pixels, width, height);
            &&& says(t, decimal(width as nat) + ";"@ + decimal(height as nat))
            &&& says(t, color_definition(color))
            &&& any_set(band_run(pixels, width, height, band, color)) ==> says(
                t,
                painted_in(pixels, width, height, band, color),
            )
        }),
        band < band_count(height),
        6 * (band_count(height) - 1) < height <= 6 * band_count(height),
{
    let t = sixel_text(pixels, width, height);
    let head = "\x1bP0;1;0q\"1;1;"@;
    let size = decimal(width as nat) + ";"@ + decimal(height as nat);
    let defined = definitions(pixels, COLORS as int);
    let bands = bands_text(pixels, width, height, band_count(height));
    let end = "\x1b\\"@;
    lemma_says(head, size, defined + bands + end);
    assert(t =~= head + size + (defined + bands + end));
    lemma_says(head + size, defined, bands + end);
    assert(t =~= head + size + defined + (bands + end));
    lemma_defined(pixels, COLORS as int, color);
    lemma_said_within(t, defined, color_definition(color));
    if any_set(band_run(pixels, width, height, band, color)) {
        lemma_says(head + size + defined, bands, end);
        assert(t =~= head + size + defined + bands + end);
        let own = band_text(pixels, width, height, band, COLORS as int);
        lemma_band(pixels, width, height, band_count(height), band);
        lemma_said_within(t, bands, own);
        lemma_painted(pixels, width, height, band, COLORS as int, color);
        lemma_said_within(t, own, painted_in(pixels, width, height, band, color));
    }
}

/// The first sequence of a picture names its id and the room it takes, and every
/// sequence says whether another follows.
pub proof fn a_picture_names_its_room(payload: Seq<char>, cols: u16, rows: u16, id: u32, at: int)
    requires
        0 <= at < payload.len(),
    ensures
        says(chunk_head(true, true, cols, rows, id), "i="@ + decimal(id as nat)),
        says(chunk_head(true, true, cols, rows, id), "c="@ + decimal(cols as nat)),
        says(chunk_head(true, true, cols, rows, id), "r="@ + decimal(rows as nat)),
        ({
            let t = sequences_from(payload, at, cols, rows, id);
            let end = chunk_end(payload, at);
            let own = chunk_head(at == 0, end < payload.len(), cols, rows, id);
            &&& says(t, own + ";"@ + payload.subrange(at, end))
            &&& own.len() > 0
            &&& own.last() == (if end < payload.len() {
                '1'
            } else {
                '0'
            })
        }),
{
    let head = chunk_head(true, true, cols, rows, id);
    let i = "i="@ + decimal(id as nat);
    reveal_strlit(",f=100,a=T,c=");
    reveal_strlit(",f=100,a=T,");
    reveal_strlit("c=");
    assert(",f=100,a=T,c="@ =~= ",f=100,a=T,"@ + "c="@);
    reveal_strlit(",r=");
    reveal_strlit(",");
    reveal_strlit("r=");
    assert(",r="@ =~= ","@ + "r="@);
    reveal_strlit("m=1");
    reveal_strlit("m=0");
    let c = "c="@ + decimal(cols as nat);
    let r = "r="@ + decimal(rows as nat);
    let tail = ",C=1,q=2,"@ + "m=1"@;
    let whole = i + ",f=100,a=T,"@ + c + ","@ + r + tail;
    assert(head =~= whole);
    lemma_says(Seq::empty(), i, ",f=100,a=T,"@ + c + ","@ + r + tail);
    assert(whole =~= Seq::<char>::empty() + i + (",f=100,a=T,"@ + c + ","@ + r + tail));
    lemma_says(i + ",f=100,a=T,"@, c, ","@ + r + tail);
    assert(whole =~= i + ",f=100,a=T,"@ + c + (","@ + r + tail));
    lemma_says(i + ",f=100,a=T,"@ + c + ","@, r, tail);
    let t = sequences_from(payload, at, cols, rows, id);
    let end = chunk_end(payload, at);
    let own = chunk_head(at == 0, end < payload.len(), cols, rows, id);
    let part = own + ";"@ + payload.subrange(at, end);
    let rest = "\x1b\\"@ + sequences_from(payload, end, cols, rows, id);
    lemma_says("\x1b_G"@, part, rest);
    assert(t =~= "\x1b_G"@ + part + rest);
    let m = if end < payload.len() {
        "m=1"@
    } else {
        "m=0"@
    };
    assert(m.len() == 3);
    assert(own.last() == m.last());
}

} // verus!
