use hcscrgen::profiles::{c64_profile, sharpmz_profile, Character};
use hcscrgen::raster::PixelBlock;
use hcscrgen::sheet::compose_sheet;
use hcscrgen::{convert, load_charsets, ConversionResult, ConvertError, Converter};

// The glyph of code `c` shows the bits of `c` as white pixels in its
// first row, on a ground of `ground`.
fn glyph(code: u32, ground: (u8, u8, u8)) -> PixelBlock {
    let mut block = PixelBlock::from_pixel(8, 8, ground);
    for x in 0..8 {
        if code & (0x80 >> x) != 0 {
            block.put_pixel(x, 0, (255, 255, 255));
        }
    }
    block
}

fn charset(ground: (u8, u8, u8)) -> Vec<PixelBlock> {
    (0..256).map(|code| glyph(code, ground)).collect()
}

fn png(block: &PixelBlock) -> Vec<u8> {
    let img =
        image::RgbImage::from_raw(block.width(), block.height(), block.as_raw().clone()).unwrap();
    let mut bytes = Vec::new();
    img.write_to(&mut std::io::Cursor::new(&mut bytes), image::ImageFormat::Png).unwrap();
    bytes
}

fn sheet(glyphs: &Vec<PixelBlock>) -> Vec<u8> {
    png(&compose_sheet(8, 8, glyphs))
}

fn composed(glyphs: &Vec<PixelBlock>, codes: &[u8], columns: u32, lines: u32) -> PixelBlock {
    let mut img = PixelBlock::new(columns * 8, lines * 8);
    for (i, code) in codes.iter().enumerate() {
        img.copy_from(&glyphs[*code as usize], (i as u32 % columns) * 8, (i as u32 / columns) * 8);
    }
    img
}

fn ok(result: Result<ConversionResult, ConvertError>) -> ConversionResult {
    match result {
        Ok(converted) => converted,
        Err(error) => panic!("conversion failed: {:?}", error),
    }
}

#[test]
fn c64_plain_screen_of_code_0x20() {
    // glyph 0x20 is plain blue; no other glyph is
    let mut glyphs = charset((0, 0, 0));
    glyphs[0x20] = PixelBlock::from_pixel(8, 8, (0, 0, 255));
    let img = PixelBlock::from_pixel(320, 200, (0, 0, 255));
    let result = ok(convert(&img, "c64", false, &vec![sheet(&glyphs)]));
    assert_eq!(result.character_ram, vec![0x20u8; 1000]);
    assert_eq!(result.color_ram, Some(vec![0x01u8; 1000]));
    assert!(result.charset.is_none());
    assert_eq!(result.preview.as_raw(), img.as_raw());
}

#[test]
fn sharpmz_takes_the_extended_charset_where_it_is_nearer() {
    let primary = charset((0, 0, 0));
    let extended = charset((0, 200, 0));
    let mut codes = vec![0u8; 1000];
    codes[0] = 5;
    let mut img = composed(&primary, &codes, 40, 25);
    img.copy_from(&extended[5], 0, 0);
    let result = ok(convert(&img, "sharpmz", false, &vec![sheet(&primary), sheet(&extended)]));
    assert_eq!(result.character_ram[0], 5);
    assert_eq!(result.color_ram.as_ref().unwrap()[0], 0x87);
    assert_eq!(result.character_ram[1], 0);
    assert_eq!(result.color_ram.as_ref().unwrap()[1], 0x07);
    assert_eq!(result.preview.as_raw(), img.as_raw());
}

#[test]
fn sharpmz_best_match_names_charset_and_code() {
    let primary = charset((0, 0, 0));
    let extended = charset((0, 200, 0));
    let profile = sharpmz_profile();
    let tile = extended[5].clone();
    let converter = Converter::new(&profile, vec![primary, extended], false);
    assert_eq!(converter.get_best_matching_character(&tile), Character { charset: 1, code: 5 });
}

#[test]
fn unknown_profile_lists_the_known_ones() {
    let img = PixelBlock::new(320, 200);
    match convert(&img, "doesnotexist", false, &vec![]) {
        Err(ConvertError::UnknownProfile { identifier, available }) => {
            assert_eq!(identifier, "doesnotexist");
            assert_eq!(available, vec!["c64", "kc87", "sharpmz", "z1013"]);
        },
        _ => panic!("an unknown profile must be refused"),
    }
}

#[test]
fn unknown_profile_is_refused_before_anything_else() {
    let img = PixelBlock::new(1, 1);
    assert!(matches!(
        convert(&img, "c65", true, &vec![b"no png".to_vec()]),
        Err(ConvertError::UnknownProfile { .. })
    ));
}

#[test]
fn too_small_image_tells_the_size_of_the_screen() {
    let glyphs = charset((0, 0, 0));
    let sheets = vec![sheet(&glyphs)];
    for (w, h) in [(319, 200), (320, 199), (0, 0)] {
        match convert(&PixelBlock::new(w, h), "c64", false, &sheets) {
            Err(ConvertError::ImageTooSmall { width, height }) => {
                assert_eq!((width, height), (320, 200));
            },
            _ => panic!("an image of {}x{} must be refused", w, h),
        }
    }
    match convert(&PixelBlock::new(320, 200), "z1013", false, &sheets) {
        Err(ConvertError::ImageTooSmall { width, height }) => {
            assert_eq!((width, height), (256, 256));
        },
        _ => panic!("the z1013 needs 256 lines"),
    }
    match convert(&PixelBlock::new(320, 191), "kc87", true, &vec![]) {
        Err(ConvertError::ImageTooSmall { width, height }) => {
            assert_eq!((width, height), (320, 192));
        },
        _ => panic!("the kc87 needs 192 lines"),
    }
}

#[test]
fn unusable_sheet_is_named() {
    let glyphs = charset((0, 0, 0));
    let img = PixelBlock::new(320, 200);
    assert!(matches!(
        convert(&img, "c64", false, &vec![]),
        Err(ConvertError::CharsetResource { index: 0 })
    ));
    assert!(matches!(
        convert(&img, "c64", false, &vec![b"no png".to_vec()]),
        Err(ConvertError::CharsetResource { index: 0 })
    ));
    assert!(matches!(
        convert(&img, "sharpmz", false, &vec![sheet(&glyphs)]),
        Err(ConvertError::CharsetResource { index: 1 })
    ));
    assert!(matches!(
        convert(&img, "sharpmz", false, &vec![sheet(&glyphs), png(&PixelBlock::new(100, 100))]),
        Err(ConvertError::CharsetResource { index: 1 })
    ));
    // a bad sheet is reported even for an image that is too small
    assert!(matches!(
        convert(&PixelBlock::new(1, 1), "c64", false, &vec![b"no png".to_vec()]),
        Err(ConvertError::CharsetResource { index: 0 })
    ));
}

#[test]
fn load_charsets_loads_as_many_as_the_machine_has() {
    let primary = charset((0, 0, 0));
    let extended = charset((9, 9, 9));
    let loaded = load_charsets(&sharpmz_profile(), &vec![sheet(&primary), sheet(&extended)]);
    let loaded = loaded.unwrap();
    assert_eq!(loaded.len(), 2);
    assert_eq!(loaded[1][7].as_raw(), extended[7].as_raw());
    let loaded = load_charsets(&c64_profile(), &vec![sheet(&primary), sheet(&extended)]).unwrap();
    assert_eq!(loaded.len(), 1);
    assert_eq!(loaded[0][200].as_raw(), primary[200].as_raw());
}

#[test]
fn composed_screen_is_matched_by_its_own_codes() {
    let glyphs = charset((0, 0, 0));
    let codes: Vec<u8> = (0..1000).map(|i| (i % 256) as u8).collect();
    let img = composed(&glyphs, &codes, 40, 25);
    let result = ok(convert(&img, "c64", false, &vec![sheet(&glyphs)]));
    assert_eq!(result.character_ram, codes);
    assert_eq!(result.preview.as_raw(), img.as_raw());
}

#[test]
fn preview_is_matched_by_the_same_codes_again() {
    let glyphs = charset((40, 40, 40));
    let sheets = vec![sheet(&glyphs)];
    // an image that is no composition of glyphs
    let mut img = PixelBlock::new(320, 200);
    for y in 0..200u32 {
        for x in 0..320u32 {
            img.put_pixel(x, y, ((x * 3 % 256) as u8, (y * 5 % 256) as u8, ((x + y) % 256) as u8));
        }
    }
    let first = ok(convert(&img, "c64", false, &sheets));
    let second = ok(convert(&first.preview, "c64", false, &sheets));
    assert_eq!(second.character_ram, first.character_ram);
    assert_eq!(second.color_ram, first.color_ram);
    assert_eq!(second.preview.as_raw(), first.preview.as_raw());
}

#[test]
fn equal_glyphs_are_matched_by_the_least_code() {
    let mut glyphs = charset((0, 0, 0));
    glyphs[9] = glyphs[3].clone();
    let profile = c64_profile();
    let tile = glyphs[9].clone();
    let converter = Converter::new(&profile, vec![glyphs], false);
    assert_eq!(converter.get_best_matching_character(&tile), Character { charset: 0, code: 3 });
}

#[test]
fn equal_glyphs_are_matched_in_the_first_charset() {
    let primary = charset((0, 0, 0));
    let mut extended = charset((0, 200, 0));
    extended[1] = primary[77].clone();
    let profile = sharpmz_profile();
    let tile = primary[77].clone();
    let converter = Converter::new(&profile, vec![primary, extended], false);
    assert_eq!(converter.get_best_matching_character(&tile), Character { charset: 0, code: 77 });
}

#[test]
fn nearest_glyph_is_matched_where_none_is_equal() {
    let glyphs = charset((0, 0, 0));
    let profile = c64_profile();
    let mut tile = glyphs[0x81].clone();
    tile.put_pixel(4, 4, (90, 90, 90));
    let converter = Converter::new(&profile, vec![glyphs], false);
    assert_eq!(converter.get_best_matching_character(&tile), Character { charset: 0, code: 0x81 });
}

#[test]
fn larger_image_is_converted_at_its_top_left() {
    let glyphs = charset((0, 0, 0));
    let codes: Vec<u8> = (0..1000).map(|i| (255 - i % 256) as u8).collect();
    let screen = composed(&glyphs, &codes, 40, 25);
    let mut img = PixelBlock::from_pixel(400, 300, (255, 0, 0));
    img.copy_from(&screen, 0, 0);
    let result = ok(convert(&img, "c64", false, &vec![sheet(&glyphs)]));
    assert_eq!(result.character_ram, codes);
    assert_eq!(result.preview.width(), 320);
    assert_eq!(result.preview.height(), 200);
    assert_eq!(result.preview.as_raw(), screen.as_raw());
}

#[test]
fn ram_has_one_byte_for_every_tile() {
    let glyphs = charset((0, 0, 0));
    let sheets = vec![sheet(&glyphs), sheet(&glyphs)];
    let img = PixelBlock::new(320, 256);
    for (identifier, tiles) in [("c64", 1000), ("kc87", 960), ("sharpmz", 1000), ("z1013", 1024)] {
        let result = ok(convert(&img, identifier, false, &sheets));
        assert_eq!(result.character_ram.len(), tiles);
        if let Some(colors) = &result.color_ram {
            assert_eq!(colors.len(), tiles);
        }
    }
}

#[test]
fn kc87_colors_every_cell_white_on_black() {
    let glyphs = charset((0, 0, 0));
    let result = ok(convert(&PixelBlock::new(320, 192), "kc87", false, &vec![sheet(&glyphs)]));
    assert_eq!(result.color_ram, Some(vec![0x70u8; 960]));
    assert_eq!(result.character_ram, vec![0u8; 960]);
    assert_eq!(result.preview.height(), 192);
}

#[test]
fn z1013_converts_without_color_ram() {
    let glyphs = charset((0, 0, 0));
    let result = ok(convert(&PixelBlock::new(256, 256), "z1013", false, &vec![sheet(&glyphs)]));
    assert!(result.color_ram.is_none());
    assert_eq!(result.character_ram.len(), 1024);
    assert_eq!(result.preview.width(), 256);
}

#[test]
fn generated_charset_comes_with_the_result() {
    let img = PixelBlock::from_pixel(320, 200, (255, 255, 255));
    let result = ok(convert(&img, "c64", true, &vec![]));
    let charset = result.charset.unwrap();
    assert_eq!(charset.len(), 256 * 8);
    assert_eq!(result.character_ram.len(), 1000);
    assert_eq!(result.color_ram, Some(vec![0x01u8; 1000]));
    // the plain white tile has become a glyph, and every cell shows it
    let code = result.character_ram[0];
    assert_eq!(result.character_ram, vec![code; 1000]);
    assert_eq!(&charset[code as usize * 8..code as usize * 8 + 8], &[0xffu8; 8]);
    assert_eq!(result.preview.as_raw(), img.as_raw());
}

#[test]
fn converter_maps_characters_to_ram() {
    let profile = sharpmz_profile();
    let converter = Converter::new(&profile, vec![charset((0, 0, 0)), charset((1, 1, 1))], false);
    let characters =
        vec![Character { charset: 0, code: 1 }, Character { charset: 1, code: 2 }];
    assert_eq!(converter.map_character_ram(&characters), vec![1, 2]);
    assert_eq!(converter.map_color_ram(&characters), Some(vec![0x07, 0x87]));
}

#[test]
fn converter_draws_the_preview_of_characters() {
    let glyphs = charset((0, 0, 0));
    let profile = c64_profile();
    let converter = Converter::new(&profile, vec![glyphs.clone()], false);
    let codes: Vec<u8> = (0..1000).map(|i| (i * 7 % 256) as u8).collect();
    let characters: Vec<Character> =
        codes.iter().map(|c| Character { charset: 0, code: *c }).collect();
    let preview = converter.create_preview(&characters);
    assert_eq!(preview.as_raw(), composed(&glyphs, &codes, 40, 25).as_raw());
}

#[test]
fn converter_with_a_custom_charset_returns_its_bits() {
    let glyphs = charset((0, 0, 0));
    let profile = c64_profile();
    let converter = Converter::new(&profile, vec![glyphs], true);
    let result = ok(converter.convert(&PixelBlock::new(320, 200)));
    let bits = result.charset.unwrap();
    assert_eq!(bits.len(), 2048);
    for code in 0..256 {
        assert_eq!(bits[code * 8], code as u8);
        assert_eq!(&bits[code * 8 + 1..code * 8 + 8], &[0u8; 7]);
    }
}

#[test]
fn unknown_profile_message_lists_the_known_ones() {
    let error = convert(&PixelBlock::new(1, 1), "doesnotexist", false, &vec![]).err().unwrap();
    assert_eq!(
        error.message(),
        "Unknown profile identifier \"doesnotexist\".\n\
         Available profiles: c64, kc87, sharpmz, z1013"
    );
}

#[test]
fn too_small_message_tells_the_size_of_the_screen() {
    let glyphs = charset((0, 0, 0));
    let sheets = vec![sheet(&glyphs)];
    let error = convert(&PixelBlock::new(10, 10), "c64", false, &sheets).err().unwrap();
    assert_eq!(error.message(), "Input file must have a dimension of at least 320x200 pixels.");
    let error = ConvertError::ImageTooSmall { width: 0, height: 4294967295 };
    assert_eq!(
        error.message(),
        "Input file must have a dimension of at least 0x4294967295 pixels."
    );
    let error = ConvertError::ImageTooSmall { width: 1007, height: 90 };
    assert_eq!(error.message(), "Input file must have a dimension of at least 1007x90 pixels.");
}

#[test]
fn unusable_sheet_message_names_the_sheet() {
    let error = convert(&PixelBlock::new(320, 200), "sharpmz", false, &vec![]).err().unwrap();
    assert_eq!(error.message(), "Unable to decode charset image 0.");
    let error = ConvertError::CharsetResource { index: 12 };
    assert_eq!(error.message(), "Unable to decode charset image 12.");
}

#[test]
fn unknown_profile_message_with_other_lists() {
    let error = ConvertError::UnknownProfile { identifier: String::from("x"), available: vec![] };
    assert_eq!(error.message(), "Unknown profile identifier \"x\".\nAvailable profiles: ");
    let error =
        ConvertError::UnknownProfile { identifier: String::new(), available: vec!["only"] };
    assert_eq!(error.message(), "Unknown profile identifier \"\".\nAvailable profiles: only");
}
