use hcscrgen::raster::PixelBlock;
use hcscrgen::sheet::{compose_sheet, parse_mode};
use hcscrgen::utils::MatrixCharsetOrder;

fn glyph(code: u32, width: u32, height: u32) -> PixelBlock {
    PixelBlock::from_pixel(width, height, (code as u8, 255 - code as u8, 17))
}

#[test]
fn parse_mode_knows_both_arrangements() {
    assert_eq!(parse_mode("lr"), Some(MatrixCharsetOrder::ColumnInLowNibble));
    assert_eq!(parse_mode("tb"), Some(MatrixCharsetOrder::RowInLowNibble));
}

#[test]
fn parse_mode_refuses_anything_else() {
    assert_eq!(parse_mode(""), None);
    assert_eq!(parse_mode("tr"), None);
    assert_eq!(parse_mode("LR"), None);
    assert_eq!(parse_mode("lr "), None);
    assert_eq!(parse_mode("t"), None);
}

#[test]
fn compose_sheet_has_the_reference_size() {
    let glyphs: Vec<PixelBlock> = (0..256).map(|c| glyph(c, 8, 8)).collect();
    let sheet = compose_sheet(8, 8, &glyphs);
    assert_eq!(sheet.width(), 145);
    assert_eq!(sheet.height(), 145);
    let glyphs: Vec<PixelBlock> = (0..256).map(|c| glyph(c, 6, 10)).collect();
    let sheet = compose_sheet(6, 10, &glyphs);
    assert_eq!(sheet.width(), 1 + 7 * 16);
    assert_eq!(sheet.height(), 1 + 11 * 16);
}

#[test]
fn compose_sheet_draws_glyphs_between_grey_borders() {
    let glyphs: Vec<PixelBlock> = (0..256).map(|c| glyph(c, 8, 8)).collect();
    let sheet = compose_sheet(8, 8, &glyphs);
    for y in 0..145u32 {
        for x in 0..145u32 {
            if x % 9 == 0 || y % 9 == 0 {
                assert_eq!(sheet.get_pixel(x, y), (0x80, 0x80, 0x80));
            } else {
                let code = ((y - 1) / 9) * 16 + (x - 1) / 9;
                assert_eq!(sheet.get_pixel(x, y), (code as u8, 255 - code as u8, 17));
            }
        }
    }
}

#[test]
fn compose_sheet_puts_code_0x21_in_row_2_column_1() {
    let mut glyphs: Vec<PixelBlock> = (0..256).map(|_| PixelBlock::new(8, 8)).collect();
    glyphs[0x21].put_pixel(3, 5, (1, 2, 3));
    let sheet = compose_sheet(8, 8, &glyphs);
    assert_eq!(sheet.get_pixel(1 + 9 + 3, 1 + 18 + 5), (1, 2, 3));
}
