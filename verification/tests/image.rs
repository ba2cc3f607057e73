//! Pictures turned into what a terminal can show.

use omalibre::image::sixel::Picture;
use omalibre::image::{cells, flatten};

#[test]
fn paper_shows_through() {
    assert_eq!(flatten([10, 20, 30, 255]), (10, 20, 30));
    assert_eq!(flatten([10, 20, 30, 0]), (255, 255, 255));
    assert_eq!(flatten([0, 100, 255, 128]), (127, 177, 255));
    assert_eq!(flatten([255, 255, 255, 7]), (255, 255, 255));
}

#[test]
fn a_cell_holds_two_pixels() {
    let shade = |n: u8| (n, n, n);
    let picture = Picture { width: 2, height: 3, pixels: (0..6).map(shade).collect() };
    let rows: Vec<Vec<((u8, u8, u8), (u8, u8, u8))>> = cells(&picture)
        .into_iter()
        .map(|row| row.into_iter().map(|cell| (cell.upper, cell.lower)).collect())
        .collect();
    assert_eq!(
        rows,
        vec![
            vec![(shade(0), shade(2)), (shade(1), shade(3))],
            // The last row stands alone, so its pixels repeat.
            vec![(shade(4), shade(4)), (shade(5), shade(5))],
        ]
    );
}

#[test]
fn an_empty_picture_has_no_cells() {
    assert_eq!(cells(&Picture { width: 0, height: 0, pixels: Vec::new() }).len(), 0);
    assert_eq!(cells(&Picture { width: 0, height: 2, pixels: Vec::new() })[0].len(), 0);
}
