use hcscrgen::raster::PixelBlock;
use hcscrgen::sheet::compose_sheet;
use hcscrgen::utils::{
    decode_sheet, load_charset, slice_charset, CharsetDefinition, MatrixCharsetOrder,
};

fn glyph(code: u32, width: u32, height: u32) -> PixelBlock {
    let mut block = PixelBlock::new(width, height);
    for x in 0..width.min(8) {
        if code & (1 << x) != 0 {
            block.put_pixel(x, 0, (255, 255, 255));
        }
    }
    block.put_pixel(width - 1, height - 1, (code as u8, 7, 9));
    block
}

fn charset(width: u32, height: u32) -> Vec<PixelBlock> {
    (0..256).map(|code| glyph(code, width, height)).collect()
}

fn png(block: &PixelBlock) -> Vec<u8> {
    let img =
        image::RgbImage::from_raw(block.width(), block.height(), block.as_raw().clone()).unwrap();
    let mut bytes = Vec::new();
    img.write_to(&mut std::io::Cursor::new(&mut bytes), image::ImageFormat::Png).unwrap();
    bytes
}

fn reference(width: u32, height: u32) -> CharsetDefinition {
    CharsetDefinition {
        character_width: width,
        character_height: height,
        order: MatrixCharsetOrder::ColumnInLowNibble,
        offset_left: 1,
        offset_top: 1,
        spacing_horizontal: 1,
        spacing_vertical: 1,
    }
}

#[test]
fn decode_sheet_reads_a_png() {
    let mut block = PixelBlock::new(5, 3);
    block.put_pixel(4, 2, (1, 2, 3));
    block.put_pixel(0, 1, (200, 100, 50));
    let decoded = decode_sheet(&png(&block)).unwrap();
    assert_eq!(decoded.width(), 5);
    assert_eq!(decoded.height(), 3);
    assert_eq!(decoded.as_raw(), block.as_raw());
}

#[test]
fn decode_sheet_reduces_other_pixel_formats_to_rgb() {
    let mut img = image::GrayImage::new(2, 1);
    img.put_pixel(1, 0, image::Luma([77]));
    let mut bytes = Vec::new();
    img.write_to(&mut std::io::Cursor::new(&mut bytes), image::ImageFormat::Png).unwrap();
    let decoded = decode_sheet(&bytes).unwrap();
    assert_eq!(decoded.as_raw(), &vec![0, 0, 0, 77, 77, 77]);
}

#[test]
fn decode_sheet_refuses_what_is_no_png() {
    assert!(decode_sheet(b"certainly not a png").is_none());
    assert!(decode_sheet(&[]).is_none());
    let mut cut = png(&PixelBlock::new(4, 4));
    cut.truncate(20);
    assert!(decode_sheet(&cut).is_none());
}

#[test]
fn load_charset_cuts_the_reference_sheet() {
    let glyphs = charset(8, 8);
    let sheet = compose_sheet(8, 8, &glyphs);
    let loaded = load_charset(&png(&sheet), &reference(8, 8)).unwrap();
    assert_eq!(loaded.len(), 256);
    for code in 0..256 {
        assert_eq!(loaded[code].width(), 8);
        assert_eq!(loaded[code].height(), 8);
        assert_eq!(loaded[code].as_raw(), glyphs[code].as_raw());
    }
}

#[test]
fn load_charset_and_cropping_again_agree() {
    let glyphs = charset(8, 8);
    let sheet = compose_sheet(8, 8, &glyphs);
    let def = reference(8, 8);
    let loaded = load_charset(&png(&sheet), &def).unwrap();
    for code in 0..256u32 {
        let x = 1 + (code & 0x0f) * 9;
        let y = 1 + (code >> 4) * 9;
        assert_eq!(loaded[code as usize].as_raw(), sheet.crop(x, y, 8, 8).as_raw());
    }
}

#[test]
fn load_charset_tells_when_the_bytes_do_not_decode() {
    assert!(load_charset(b"garbage", &reference(8, 8)).is_none());
}

#[test]
fn load_charset_tells_when_the_sheet_is_too_small() {
    let sheet = PixelBlock::new(143, 144);
    assert!(load_charset(&png(&sheet), &reference(8, 8)).is_none());
    let sheet = PixelBlock::new(144, 143);
    assert!(load_charset(&png(&sheet), &reference(8, 8)).is_none());
}

#[test]
fn load_charset_takes_the_smallest_sheet_that_fits() {
    // 1 + 15 * 9 + 8 = 144
    let sheet = PixelBlock::new(144, 144);
    let loaded = load_charset(&png(&sheet), &reference(8, 8)).unwrap();
    assert_eq!(loaded.len(), 256);
}

#[test]
fn sheet_fits_counts_offsets_and_spacing() {
    let def = CharsetDefinition {
        character_width: 8,
        character_height: 6,
        order: MatrixCharsetOrder::RowInLowNibble,
        offset_left: 2,
        offset_top: 3,
        spacing_horizontal: 3,
        spacing_vertical: 1,
    };
    // 2 + 15 * 11 + 8 = 175, 3 + 15 * 7 + 6 = 114
    assert!(def.sheet_fits(&PixelBlock::new(175, 114)));
    assert!(!def.sheet_fits(&PixelBlock::new(174, 114)));
    assert!(!def.sheet_fits(&PixelBlock::new(175, 113)));
}

#[test]
fn row_in_low_nibble_puts_the_low_nibble_in_the_row() {
    let def = CharsetDefinition {
        character_width: 8,
        character_height: 8,
        order: MatrixCharsetOrder::RowInLowNibble,
        offset_left: 2,
        offset_top: 2,
        spacing_horizontal: 3,
        spacing_vertical: 3,
    };
    let mut sheet = PixelBlock::new(200, 200);
    // code 0x12: row 2, column 1: x = 2 + 1 * 11 = 13, y = 2 + 2 * 11 = 24
    sheet.put_pixel(13, 24, (1, 2, 3));
    let glyphs = slice_charset(&sheet, &def);
    assert_eq!(glyphs[0x12].get_pixel(0, 0), (1, 2, 3));
    assert_eq!(glyphs[0x21].get_pixel(0, 0), (0, 0, 0));
}

#[test]
fn column_in_low_nibble_puts_the_low_nibble_in_the_column() {
    let def = CharsetDefinition {
        character_width: 8,
        character_height: 8,
        order: MatrixCharsetOrder::ColumnInLowNibble,
        offset_left: 2,
        offset_top: 2,
        spacing_horizontal: 3,
        spacing_vertical: 3,
    };
    let mut sheet = PixelBlock::new(200, 200);
    // code 0x21: row 2, column 1
    sheet.put_pixel(13, 24, (1, 2, 3));
    let glyphs = slice_charset(&sheet, &def);
    assert_eq!(glyphs[0x21].get_pixel(0, 0), (1, 2, 3));
    assert_eq!(glyphs[0x12].get_pixel(0, 0), (0, 0, 0));
}

#[test]
fn slice_charset_knows_other_glyph_sizes() {
    let glyphs = charset(5, 7);
    let sheet = compose_sheet(5, 7, &glyphs);
    let loaded = slice_charset(&sheet, &reference(5, 7));
    for code in 0..256 {
        assert_eq!(loaded[code].as_raw(), glyphs[code].as_raw());
    }
}
