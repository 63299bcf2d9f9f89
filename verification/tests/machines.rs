use hcscrgen::profiles::kc87;
use hcscrgen::profiles::kc87::Kc87Converter;
use hcscrgen::profiles::sharpmz;
use hcscrgen::profiles::sharpmz::SharpMzConverter;
use hcscrgen::raster::PixelBlock;
use hcscrgen::utils::{slice_charset, MatrixCharsetOrder};
use hcscrgen::ConvertError;

fn glyph(code: u32, ground: (u8, u8, u8)) -> PixelBlock {
    let mut block = PixelBlock::from_pixel(8, 8, ground);
    for x in 0..8 {
        if code & (0x80 >> x) != 0 {
            block.put_pixel(x, 0, (255, 255, 255));
        }
    }
    block
}

fn charset(ground: (u8, u8, u8)) -> Vec<PixelBlock> {
    (0..256).map(|code| glyph(code, ground)).collect()
}

fn composed(glyphs: &Vec<PixelBlock>, codes: &[u8], columns: u32, lines: u32) -> PixelBlock {
    let mut img = PixelBlock::new(columns * 8, lines * 8);
    for (i, code) in codes.iter().enumerate() {
        img.copy_from(&glyphs[*code as usize], (i as u32 % columns) * 8, (i as u32 / columns) * 8);
    }
    img
}

#[test]
fn kc87_converts_to_codes_without_colors() {
    let glyphs = charset((0, 0, 0));
    let codes: Vec<u8> = (0..960).map(|i| (i % 256) as u8).collect();
    let img = composed(&glyphs, &codes, 40, 24);
    let result = Kc87Converter::new(glyphs).convert(&img).unwrap();
    assert_eq!(result.character_ram, codes);
    assert!(result.color_ram.is_none());
    assert!(result.charset.is_none());
    assert_eq!(result.preview.as_raw(), img.as_raw());
}

#[test]
fn kc87_matches_the_last_code_too() {
    let glyphs = charset((0, 0, 0));
    let tile = glyphs[255].clone();
    assert_eq!(Kc87Converter::new(glyphs).get_matching_code(&tile), 255);
}

#[test]
fn kc87_refuses_a_small_image() {
    let converter = Kc87Converter::new(charset((0, 0, 0)));
    match converter.convert(&PixelBlock::new(320, 191)) {
        Err(ConvertError::ImageTooSmall { width, height }) => {
            assert_eq!((width, height), (320, 192))
        },
        _ => panic!("191 lines are too few"),
    }
    assert!(converter.convert(&PixelBlock::new(320, 192)).is_ok());
}

#[test]
fn kc87_draws_the_preview_of_codes() {
    let glyphs = charset((0, 0, 0));
    let codes: Vec<u8> = (0..960).map(|i| (i * 3 % 256) as u8).collect();
    let preview = Kc87Converter::new(glyphs.clone()).create_preview(&codes);
    assert_eq!(preview.as_raw(), composed(&glyphs, &codes, 40, 24).as_raw());
}

#[test]
fn sharpmz_cell_holds_code_color_and_charset() {
    let primary = charset((0, 0, 0));
    let extended = charset((0, 200, 0));
    let in_primary = primary[0x41].clone();
    let in_extended = extended[0x05].clone();
    let converter = SharpMzConverter::new(primary, extended);
    assert_eq!(converter.get_matching_code(&in_primary), 0x0741);
    assert_eq!(converter.get_matching_code(&in_extended), 0x8705);
}

#[test]
fn sharpmz_matches_the_last_code_too() {
    let primary = charset((0, 0, 0));
    let extended = charset((0, 200, 0));
    let tile = extended[255].clone();
    assert_eq!(SharpMzConverter::new(primary, extended).get_matching_code(&tile), 0x87ff);
}

#[test]
fn sharpmz_splits_cells_into_character_and_color_ram() {
    let codes = vec![0x0741u16, 0x8705, 0x0700, 0x87ff];
    assert_eq!(SharpMzConverter::get_character_ram(&codes), vec![0x41, 0x05, 0x00, 0xff]);
    assert_eq!(SharpMzConverter::get_color_ram(&codes), vec![0x07, 0x87, 0x07, 0x87]);
}

#[test]
fn sharpmz_converts_with_both_charsets() {
    let primary = charset((0, 0, 0));
    let extended = charset((0, 200, 0));
    let codes: Vec<u8> = (0..1000).map(|i| (i % 256) as u8).collect();
    let mut img = composed(&primary, &codes, 40, 25);
    img.copy_from(&extended[17], 8 * 39, 8 * 24);
    let result = SharpMzConverter::new(primary, extended).convert(&img).unwrap();
    assert_eq!(&result.character_ram[..999], &codes[..999]);
    assert_eq!(result.character_ram[999], 17);
    let colors = result.color_ram.unwrap();
    assert_eq!(&colors[..999], &vec![0x07u8; 999][..]);
    assert_eq!(colors[999], 0x87);
    assert_eq!(result.preview.as_raw(), img.as_raw());
    assert!(result.charset.is_none());
}

#[test]
fn sharpmz_refuses_a_small_image() {
    let converter = SharpMzConverter::new(charset((0, 0, 0)), charset((1, 1, 1)));
    match converter.convert(&PixelBlock::new(319, 200)) {
        Err(ConvertError::ImageTooSmall { width, height }) => {
            assert_eq!((width, height), (320, 200))
        },
        _ => panic!("319 columns are too few"),
    }
}

#[test]
fn sharpmz_draws_the_preview_of_cells() {
    let primary = charset((0, 0, 0));
    let extended = charset((0, 200, 0));
    let mut cells = vec![0x0700u16; 1000];
    cells[1] = 0x8703;
    cells[40] = 0x0709;
    let preview = SharpMzConverter::new(primary.clone(), extended.clone()).create_preview(&cells);
    assert_eq!(preview.crop(0, 0, 8, 8).as_raw(), primary[0].as_raw());
    assert_eq!(preview.crop(8, 0, 8, 8).as_raw(), extended[3].as_raw());
    assert_eq!(preview.crop(0, 8, 8, 8).as_raw(), primary[9].as_raw());
}

#[test]
fn kc87_sheet_has_one_pixel_around_every_glyph() {
    let props = kc87::sheet_layout();
    assert_eq!(props.order, MatrixCharsetOrder::ColumnInLowNibble);
    assert_eq!((props.character_width, props.character_height), (8, 8));
    assert_eq!((props.offset_left, props.offset_top), (1, 1));
    assert_eq!((props.spacing_horizontal, props.spacing_vertical), (1, 1));
}

#[test]
fn sharpmz_sheet_runs_from_top_to_bottom() {
    let props = sharpmz::sheet_layout();
    assert_eq!(props.order, MatrixCharsetOrder::RowInLowNibble);
    assert_eq!((props.character_width, props.character_height), (8, 8));
    assert_eq!((props.offset_left, props.offset_top), (2, 2));
    assert_eq!((props.spacing_horizontal, props.spacing_vertical), (3, 3));
    // code 0x12 stands in row 2 of column 1: x = 2 + 11, y = 2 + 22
    let mut sheet = PixelBlock::new(180, 180);
    sheet.put_pixel(13, 24, (4, 5, 6));
    let glyphs = slice_charset(&sheet, &props);
    assert_eq!(glyphs[0x12].get_pixel(0, 0), (4, 5, 6));
}
