use hcscrgen::charset::{
    convert_charset, generate_charset, generate_charset_from, initialize_tiles, monochrome_block,
    random_bits, CharsetGeneratorContext, ScreenProfile,
};
use hcscrgen::kmeans::{Assignment, Cluster, KmeansContext};
use hcscrgen::profiles::{c64_profile, z1013_profile};
use hcscrgen::raster::PixelBlock;

fn screen(lines: u32, columns: u32, chars: usize) -> ScreenProfile {
    ScreenProfile { lines, columns, character_width: 8, character_height: 8, chars }
}

fn pattern(seed: u32) -> PixelBlock {
    let mut block = PixelBlock::new(8, 8);
    for y in 0..8 {
        for x in 0..8 {
            let v = ((seed * 31 + x * 7 + y * 13) % 256) as u8;
            block.put_pixel(x, y, (v, v.wrapping_mul(3), v.wrapping_add(100)));
        }
    }
    block
}

fn image_of(tiles: &[PixelBlock], columns: u32) -> PixelBlock {
    let lines = tiles.len() as u32 / columns;
    let mut img = PixelBlock::new(columns * 8, lines * 8);
    for (i, tile) in tiles.iter().enumerate() {
        img.copy_from(tile, (i as u32 % columns) * 8, (i as u32 / columns) * 8);
    }
    img
}

#[test]
fn screen_profile_of_a_machine() {
    let screen = ScreenProfile::from_machine_profile(&c64_profile());
    assert_eq!(
        (screen.lines, screen.columns, screen.character_width, screen.character_height),
        (25, 40, 8, 8)
    );
    assert_eq!(screen.chars, 256);
    let screen = ScreenProfile::from_machine_profile(&z1013_profile());
    assert_eq!((screen.lines, screen.columns, screen.chars), (32, 32, 256));
}

#[test]
fn initialize_tiles_cuts_line_by_line() {
    let tiles: Vec<PixelBlock> = (0..6).map(pattern).collect();
    let img = image_of(&tiles, 3);
    let cut = initialize_tiles(&screen(2, 3, 256), &img);
    assert_eq!(cut.len(), 6);
    for i in 0..6 {
        assert_eq!(cut[i].as_raw(), tiles[i].as_raw());
    }
}

#[test]
fn initialize_tiles_takes_the_top_left_of_a_larger_image() {
    let tiles: Vec<PixelBlock> = (0..12).map(pattern).collect();
    let img = image_of(&tiles, 4);
    let cut = initialize_tiles(&screen(2, 3, 256), &img);
    assert_eq!(cut.len(), 6);
    assert_eq!(cut[0].as_raw(), tiles[0].as_raw());
    assert_eq!(cut[2].as_raw(), tiles[2].as_raw());
    assert_eq!(cut[3].as_raw(), tiles[4].as_raw());
    assert_eq!(cut[5].as_raw(), tiles[6].as_raw());
}

#[test]
fn convert_charset_sets_bit_7_for_the_leftmost_pixel() {
    let mut glyphs: Vec<PixelBlock> = (0..256).map(|_| PixelBlock::new(8, 8)).collect();
    glyphs[0].put_pixel(0, 0, (255, 255, 255));
    glyphs[0].put_pixel(7, 1, (255, 255, 255));
    glyphs[0].put_pixel(2, 2, (255, 255, 255));
    glyphs[0].put_pixel(5, 2, (255, 255, 255));
    glyphs[1].put_pixel(3, 7, (255, 255, 255));
    for x in 0..8 {
        glyphs[255].put_pixel(x, 7, (255, 255, 255));
    }
    let data = convert_charset(&glyphs);
    assert_eq!(data.len(), 256 * 8);
    assert_eq!(&data[0..8], &[0x80, 0x01, 0x24, 0, 0, 0, 0, 0]);
    assert_eq!(&data[8..16], &[0, 0, 0, 0, 0, 0, 0, 0x10]);
    assert_eq!(data[255 * 8 + 7], 0xff);
    assert_eq!(data.iter().filter(|b| **b != 0).count(), 5);
}

#[test]
fn convert_charset_takes_a_pixel_as_set_above_0x80() {
    let mut glyphs: Vec<PixelBlock> = (0..256).map(|_| PixelBlock::new(8, 8)).collect();
    glyphs[9].put_pixel(0, 0, (128, 128, 128)); // average 128: not set
    glyphs[9].put_pixel(1, 0, (129, 129, 129)); // average 129: set
    glyphs[9].put_pixel(2, 0, (255, 255, 0)); // average 170: set
    glyphs[9].put_pixel(3, 0, (255, 0, 0)); // average 85: not set
    glyphs[9].put_pixel(4, 0, (128, 129, 129)); // 386 / 3 = 128: not set
    glyphs[9].put_pixel(5, 0, (129, 129, 129 + 1)); // 388 / 3 = 129: set
    let data = convert_charset(&glyphs);
    assert_eq!(data[9 * 8], 0b0110_0100);
}

#[test]
fn convert_charset_knows_narrow_and_tall_glyphs() {
    let mut glyphs: Vec<PixelBlock> = (0..256).map(|_| PixelBlock::new(4, 10)).collect();
    glyphs[0].put_pixel(3, 9, (255, 255, 255));
    glyphs[1].put_pixel(0, 0, (255, 255, 255));
    let data = convert_charset(&glyphs);
    assert_eq!(data.len(), 256 * 10);
    assert_eq!(data[9], 0x10);
    assert_eq!(data[10], 0x80);
}

#[test]
fn random_bits_draws_as_many_as_asked() {
    assert_eq!(random_bits(0).len(), 0);
    assert_eq!(random_bits(64).len(), 64);
}

#[test]
fn random_bits_are_not_all_the_same() {
    let bits = random_bits(4096);
    assert!(bits.iter().any(|b| *b));
    assert!(bits.iter().any(|b| !*b));
}

#[test]
fn monochrome_block_is_white_where_the_bit_is_set() {
    let bits = vec![true, false, false, true, true, false];
    let block = monochrome_block(3, 2, &bits);
    assert_eq!(block.get_pixel(0, 0), (255, 255, 255));
    assert_eq!(block.get_pixel(1, 0), (0, 0, 0));
    assert_eq!(block.get_pixel(2, 0), (0, 0, 0));
    assert_eq!(block.get_pixel(0, 1), (255, 255, 255));
    assert_eq!(block.get_pixel(1, 1), (255, 255, 255));
    assert_eq!(block.get_pixel(2, 1), (0, 0, 0));
}

#[test]
fn initialize_centroid_is_black_and_white() {
    let context = CharsetGeneratorContext::new(&screen(25, 40, 256));
    let centroid = context.initialize_centroid(0);
    assert_eq!(centroid.width(), 8);
    assert_eq!(centroid.height(), 8);
    for y in 0..8 {
        for x in 0..8 {
            let p = centroid.get_pixel(x, y);
            assert!(p == (0, 0, 0) || p == (255, 255, 255));
        }
    }
}

#[test]
fn colored_centroid_averages_each_channel() {
    let context = CharsetGeneratorContext::new(&screen(1, 1, 1));
    let mut a = PixelBlock::new(8, 8);
    let mut b = PixelBlock::new(8, 8);
    let mut c = PixelBlock::new(8, 8);
    a.put_pixel(1, 2, (10, 0, 255));
    b.put_pixel(1, 2, (20, 1, 255));
    c.put_pixel(1, 2, (40, 1, 254));
    let centroid = context.determine_colored_centroid(&vec![&a, &b, &c]);
    // 70 / 3 = 23, 2 / 3 = 0, 764 / 3 = 254
    assert_eq!(centroid.get_pixel(1, 2), (23, 0, 254));
    assert_eq!(centroid.get_pixel(0, 0), (0, 0, 0));
    assert_eq!(context.determine_centroid(&vec![&a, &b, &c]).as_raw(), centroid.as_raw());
}

#[test]
fn colored_centroid_of_one_element_is_the_element() {
    let context = CharsetGeneratorContext::new(&screen(1, 1, 1));
    let a = pattern(5);
    assert_eq!(context.determine_colored_centroid(&vec![&a]).as_raw(), a.as_raw());
}

#[test]
fn monochrome_centroid_follows_the_majority() {
    let context = CharsetGeneratorContext::new(&screen(1, 1, 1));
    let mut a = PixelBlock::new(8, 8);
    let mut b = PixelBlock::new(8, 8);
    let c = PixelBlock::new(8, 8);
    a.put_pixel(0, 0, (255, 255, 255));
    b.put_pixel(0, 0, (200, 200, 200));
    a.put_pixel(1, 0, (255, 255, 255));
    let centroid = context.determine_monochrome_centroid(&vec![&a, &b, &c]);
    assert_eq!(centroid.get_pixel(0, 0), (255, 255, 255)); // 2 of 3
    assert_eq!(centroid.get_pixel(1, 0), (0, 0, 0)); // 1 of 3
    let centroid = context.determine_monochrome_centroid(&vec![&a, &c]);
    assert_eq!(centroid.get_pixel(0, 0), (0, 0, 0)); // 1 of 2 is no majority
    let centroid = context.determine_monochrome_centroid(&vec![&a, &b]);
    assert_eq!(centroid.get_pixel(0, 0), (255, 255, 255));
    assert_eq!(centroid.get_pixel(1, 0), (0, 0, 0));
}

#[test]
fn context_distance_is_the_image_distance() {
    let context = CharsetGeneratorContext::new(&screen(1, 1, 1));
    let a = PixelBlock::new(8, 8);
    let b = PixelBlock::from_pixel(8, 8, (1, 2, 3));
    assert_eq!(context.diff(&a, &b), 6);
    assert_eq!(context.diff(&b, &a), 6);
    assert_eq!(context.diff(&b, &b), 0);
}

#[test]
fn context_never_stops_early() {
    let context = CharsetGeneratorContext::new(&screen(1, 1, 1));
    let clusters: Vec<Cluster<PixelBlock>> = Vec::new();
    assert!(!context.iteration_callback(0, &clusters));
    assert!(!context.iteration_callback(49, &clusters));
}

#[test]
fn draw_approximation_shows_the_centroid_at_each_tile() {
    let context = CharsetGeneratorContext::new(&screen(2, 2, 2));
    let red = PixelBlock::from_pixel(8, 8, (255, 0, 0));
    let blue = PixelBlock::from_pixel(8, 8, (0, 0, 255));
    let clusters = vec![
        Cluster {
            centroid: red,
            elements: vec![Assignment { index: 0, diff: 0 }, Assignment { index: 3, diff: 0 }],
        },
        Cluster { centroid: blue, elements: vec![Assignment { index: 1, diff: 0 }] },
    ];
    let picture = context.draw_approximation(&clusters);
    assert_eq!(picture.width(), 16);
    assert_eq!(picture.height(), 16);
    assert_eq!(picture.get_pixel(0, 0), (255, 0, 0));
    assert_eq!(picture.get_pixel(15, 0), (0, 0, 255));
    assert_eq!(picture.get_pixel(0, 15), (0, 0, 0));
    assert_eq!(picture.get_pixel(8, 8), (255, 0, 0));
}

#[test]
fn generate_charset_from_seeds_that_are_the_tiles() {
    let tiles: Vec<PixelBlock> = vec![pattern(1), pattern(2), pattern(1), pattern(2)];
    let img = image_of(&tiles, 2);
    let seeds = vec![pattern(2), pattern(1), pattern(3)];
    let glyphs = generate_charset_from(&screen(2, 2, 3), &img, &seeds);
    assert_eq!(glyphs.len(), 3);
    for i in 0..3 {
        assert_eq!(glyphs[i].as_raw(), seeds[i].as_raw());
    }
}

#[test]
fn generate_charset_from_averages_the_tiles_of_a_cluster() {
    let dark = PixelBlock::from_pixel(8, 8, (10, 10, 10));
    let darker = PixelBlock::from_pixel(8, 8, (0, 0, 0));
    let light = PixelBlock::from_pixel(8, 8, (250, 250, 250));
    let img = image_of(&[dark, darker, light.clone(), light], 2);
    let seeds =
        vec![
            PixelBlock::from_pixel(8, 8, (20, 20, 20)),
            PixelBlock::from_pixel(8, 8, (255, 255, 255)),
        ];
    let glyphs = generate_charset_from(&screen(2, 2, 2), &img, &seeds);
    assert_eq!(glyphs[0].as_raw(), PixelBlock::from_pixel(8, 8, (5, 5, 5)).as_raw());
    assert_eq!(glyphs[1].as_raw(), PixelBlock::from_pixel(8, 8, (250, 250, 250)).as_raw());
}

#[test]
fn generate_charset_makes_as_many_glyphs_as_asked() {
    let tiles: Vec<PixelBlock> = (0..6).map(pattern).collect();
    let img = image_of(&tiles, 3);
    let glyphs = generate_charset(&screen(2, 3, 4), &img);
    assert_eq!(glyphs.len(), 4);
    for glyph in &glyphs {
        assert_eq!(glyph.width(), 8);
        assert_eq!(glyph.height(), 8);
        assert_eq!(glyph.as_raw().len(), 192);
    }
}

#[test]
fn generate_charset_finds_the_one_tile_of_a_plain_image() {
    let img = PixelBlock::from_pixel(24, 16, (12, 34, 56));
    let glyphs = generate_charset(&screen(2, 3, 4), &img);
    let tile = PixelBlock::from_pixel(8, 8, (12, 34, 56));
    assert!(glyphs.iter().any(|g| g.as_raw() == tile.as_raw()));
}
