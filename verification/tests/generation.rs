use allrgb::generate;
use allrgb::Image;
use allrgb::Rgb;

fn pixels_of(img: &Image<Rgb>) -> Vec<Rgb> {
    let mut out: Vec<Rgb> = Vec::new();
    for y in 0..img.height() {
        for x in 0..img.width() {
            out.push(img.get(x, y));
        }
    }
    out
}

fn distinct_palette(n: usize) -> Vec<Rgb> {
    // distinct by construction: the red channel encodes the index
    let mut out: Vec<Rgb> = Vec::new();
    for i in 0..n {
        out.push((i as u8, (i * 3 % 251) as u8, (255 - i) as u8));
    }
    out
}

#[test]
fn single_cell_gets_the_single_color() {
    let img = generate(vec![(9, 8, 7)], 1, 1, vec![(0, 0)]);
    assert_eq!(img.get(0, 0), (9, 8, 7));
}

#[test]
fn every_color_used_exactly_once() {
    let palette = distinct_palette(16);
    let img = generate(palette.clone(), 4, 4, vec![(1, 1)]);
    let mut got = pixels_of(&img);
    let mut want = palette;
    got.sort();
    want.sort();
    assert_eq!(got, want);
}

#[test]
fn seed_keeps_its_color() {
    let palette = distinct_palette(9);
    let img = generate(palette.clone(), 3, 3, vec![(1, 1)]);
    assert_eq!(img.get(1, 1), palette[8]);
}

#[test]
fn seeds_take_colors_from_the_end_in_order() {
    let palette = distinct_palette(12);
    let img = generate(palette.clone(), 4, 3, vec![(0, 0), (3, 2)]);
    assert_eq!(img.get(0, 0), palette[11]);
    assert_eq!(img.get(3, 2), palette[10]);
}

#[test]
fn identical_inputs_give_identical_canvases() {
    let palette = distinct_palette(16);
    let a = generate(palette.clone(), 4, 4, vec![(2, 1)]);
    let b = generate(palette.clone(), 4, 4, vec![(2, 1)]);
    assert_eq!(pixels_of(&a), pixels_of(&b));
}

#[test]
fn dark_gray_lands_next_to_black() {
    // 14 bright colors, then near-black gray, then black, which seeds the
    // center. The gray is placed right after the seed, so it must land on
    // one of the seed's neighbors, the only frontier cells there are.
    let mut palette: Vec<Rgb> = Vec::new();
    for i in 0..14 {
        palette.push((200 + i as u8, 200, 200));
    }
    palette.push((1, 1, 1));
    palette.push((0, 0, 0));
    let img = generate(palette, 4, 4, vec![(1, 1)]);
    assert_eq!(img.get(1, 1), (0, 0, 0));
    let mut gray_adjacent = false;
    for &(x, y) in img.neighbors(1, 1).iter() {
        if img.get(x, y) == (1, 1, 1) {
            gray_adjacent = true;
        }
    }
    assert!(gray_adjacent);
}

#[test]
fn two_far_seeds_fill_without_overlap() {
    let palette = distinct_palette(64);
    let img = generate(palette.clone(), 8, 8, vec![(0, 0), (7, 7)]);
    assert_eq!(img.get(0, 0), palette[63]);
    assert_eq!(img.get(7, 7), palette[62]);
    let mut got = pixels_of(&img);
    let mut want = palette;
    got.sort();
    want.sort();
    assert_eq!(got, want);
}

#[test]
fn degenerate_single_column_and_row() {
    let palette = distinct_palette(8);
    let tall = generate(palette.clone(), 1, 8, vec![(0, 3)]);
    let mut got = pixels_of(&tall);
    let mut want = palette.clone();
    got.sort();
    want.sort();
    assert_eq!(got, want);
    assert_eq!(tall.get(0, 3), palette[7]);

    let wide = generate(palette.clone(), 8, 1, vec![(4, 0)]);
    let mut got = pixels_of(&wide);
    got.sort();
    assert_eq!(got, want);
    assert_eq!(wide.get(4, 0), palette[7]);
}
