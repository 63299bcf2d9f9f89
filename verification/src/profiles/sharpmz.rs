//! The Sharp MZ on its own: 25 lines of 40 characters from two charsets.
//! A cell is a word of 16 bits: the low byte is the glyph's code, the high
//! byte is the color byte, whose highest bit chooses the extended charset.

use vstd::prelude::*;
use crate::charset::ScreenProfile;
use crate::profiles::{Character, MachineProfile};
use crate::raster::{PixelBlock, Raster};
use crate::screen::{
    best_match,
    best_matching_character,
    charset_rasters,
    draw_preview,
    lemma_best_match,
};
use crate::seq_util::views;
use crate::sheet::is_charset;
use crate::utils::{CharsetDefinition, MatrixCharsetOrder};
use crate::{character_ram_of, color_ram_of, conversion, ConversionResult, ConvertError};

verus! {

/// pixels
pub const CHAR_HEIGHT: u32 = 8;

/// pixels
pub const CHAR_WIDTH: u32 = 8;

/// characters
pub const COLUMNS: u32 = 40;

/// characters
pub const LINES: u32 = 25;

/// pixels
pub const SCREEN_WIDTH: u32 = 320;

/// pixels
pub const SCREEN_HEIGHT: u32 = 200;

/// The layout of the glyph sheets of the Sharp MZ: the low nibble of the
/// code chooses the row; the glyphs start two pixels from the edge and lie
/// three pixels apart.
pub open spec fn sharpmz_sheet_layout() -> CharsetDefinition {
    CharsetDefinition {
        character_width: CHAR_WIDTH,
        character_height: CHAR_HEIGHT,
        order: MatrixCharsetOrder::RowInLowNibble,
        offset_left: 2,
        offset_top: 2,
        spacing_horizontal: 3,
        spacing_vertical: 3,
    }
}

/// The layout of the glyph sheets of the Sharp MZ.
pub fn sheet_layout() -> (props: CharsetDefinition)
    ensures
        props == sharpmz_sheet_layout(),
{
    CharsetDefinition {
        order: MatrixCharsetOrder::RowInLowNibble,
        character_width: CHAR_WIDTH,
        character_height: CHAR_HEIGHT,
        offset_left: 2,
        spacing_horizontal: 3,
        offset_top: 2,
        spacing_vertical: 3,
    }
}

/// The screen of the Sharp MZ.
pub open spec fn sharpmz_screen() -> ScreenProfile {
    ScreenProfile::of(MachineProfile::sharpmz())
}

fn screen() -> (screen: ScreenProfile)
    ensures
        screen == sharpmz_screen(),
        screen.wf(),
{
    let screen = ScreenProfile {
        lines: LINES,
        columns: COLUMNS,
        character_width: CHAR_WIDTH,
        character_height: CHAR_HEIGHT,
        chars: 0x100,
    };
    assert(screen.character_width == 8 && screen.character_height == 8);
    screen
}

/// The word of a cell that shows `character`: its code in the low byte,
/// white on black in the high byte, and the highest bit set for a glyph of
/// the extended charset.
pub open spec fn cell_of(character: Character) -> u16 {
    (if character.charset == 0 {
        character.code as u16
    } else {
        0x8000u16 | character.code as u16
    }) | 0x0700u16
}

/// The glyph that the word of a cell shows.
pub open spec fn character_of(cell: u16) -> Character {
    Character {
        charset: if cell & 0x8000 != 0 {
            1
        } else {
            0
        },
        code: (cell & 0xff) as u8,
    }
}

/// The glyphs that the cells of a screen show.
pub open spec fn characters_of(cells: Seq<u16>) -> Seq<Character> {
    Seq::new(cells.len(), |t: int| character_of(cells[t]))
}

/// The word of a cell gives its glyph back, holds the glyph's code in its
/// low byte, and the color byte of the Sharp MZ in its high byte.
pub proof fn lemma_cell_of(character: Character)
    requires
        character.charset <= 1,
    ensures
        character_of(cell_of(character)) == character,
        (cell_of(character) & 0x00ff) as u8 == MachineProfile::sharpmz().character_ram_mapping.byte(
            character,
        ),
        Some((cell_of(character) >> 8) as u8) == match MachineProfile::sharpmz().color_ram_mapping {
            Some(mapping) => Some(mapping.byte(character)),
            None => None,
        },
{
    let code = character.code;
    let plain: u16 = code as u16 | 0x0700u16;
    let extended: u16 = (0x8000u16 | code as u16) | 0x0700u16;
    assert(plain & 0x8000 == 0 && (plain & 0xff) as u8 == code && (plain >> 8) as u8 == 0x07u8)
        by (bit_vector)
        requires
            plain == code as u16 | 0x0700u16,
    ;
    assert(extended & 0x8000 != 0 && (extended & 0xff) as u8 == code && (extended >> 8) as u8
        == 0x87u8) by (bit_vector)
        requires
            extended == (0x8000u16 | code as u16) | 0x0700u16,
    ;
}

/// Converts images for the Sharp MZ.
pub struct SharpMzConverter {
    charsets: Vec<Vec<PixelBlock>>,
}

impl SharpMzConverter {
    #[verifier::type_invariant]
    spec fn inv(self) -> bool {
        &&& self.charsets@.len() == 2
        &&& is_charset(CHAR_WIDTH, CHAR_HEIGHT, views(self.charsets@[0]@))
        &&& is_charset(CHAR_WIDTH, CHAR_HEIGHT, views(self.charsets@[1]@))
    }

    /// The glyphs of the primary and of the extended charset.
    pub closed spec fn glyphs(self) -> Seq<Seq<Raster>> {
        charset_rasters(self.charsets@)
    }

    /// A converter with the given charsets of 256 glyphs of 8 x 8 pixels each.
    pub fn new(charset: Vec<PixelBlock>, charset_extended: Vec<PixelBlock>) -> (converter: Self)
        requires
            is_charset(CHAR_WIDTH, CHAR_HEIGHT, views(charset@)),
            is_charset(CHAR_WIDTH, CHAR_HEIGHT, views(charset_extended@)),
        ensures
            converter.glyphs() == seq![views(charset@), views(charset_extended@)],
    {
        let mut charsets: Vec<Vec<PixelBlock>> = Vec::new();
        charsets.push(charset);
        charsets.push(charset_extended);
        Self { charsets }
    }

    /// Converts the image as the general converter does for the Sharp MZ:
    /// an error if the image is smaller than the screen of 320 x 200
    /// pixels, and the conversion with both charsets otherwise.
    pub fn convert(&self, input_img: &PixelBlock) -> (result: Result<
        ConversionResult,
        ConvertError,
    >)
        requires
            input_img@.wf(),
        ensures
            match result {
                Ok(converted) => {
                    &&& sharpmz_screen().fits(input_img@)
                    &&& converted@ == conversion(
                        MachineProfile::sharpmz(),
                        self.glyphs(),
                        false,
                        input_img@,
                    )
                    &&& converted.character_ram@.len() == LINES * COLUMNS
                    &&& converted.color_ram matches Some(colors) && colors@.len() == LINES * COLUMNS
                },
                Err(error) => {
                    &&& !sharpmz_screen().fits(input_img@)
                    &&& error == ConvertError::ImageTooSmall {
                        width: SCREEN_WIDTH,
                        height: SCREEN_HEIGHT,
                    }
                },
            },
    {
        if input_img.width() < SCREEN_WIDTH || input_img.height() < SCREEN_HEIGHT {
            return Err(ConvertError::ImageTooSmall { width: SCREEN_WIDTH, height: SCREEN_HEIGHT });
        }
        proof {
            use_type_invariant(self);
        }
        let screen = screen();
        let ghost glyphs = charset_rasters(self.charsets@);
        let ghost expected = screen.matched(glyphs, input_img@);

        let mut codes: Vec<u16> = Vec::new();

        let mut row: u32 = 0;
        while row < LINES
            invariant
                row <= LINES,
                screen == sharpmz_screen(),
                self.charsets@.len() == 2,
                is_charset(CHAR_WIDTH, CHAR_HEIGHT, views(self.charsets@[0]@)),
                is_charset(CHAR_WIDTH, CHAR_HEIGHT, views(self.charsets@[1]@)),
                glyphs == charset_rasters(self.charsets@),
                input_img@.wf(),
                screen.fits(input_img@),
                expected == screen.matched(glyphs, input_img@),
                codes@.len() == row * COLUMNS,
                forall|t: int|
                    0 <= t < codes@.len() ==> #[trigger] codes@[t] == cell_of(expected[t]),
            decreases LINES - row,
        {
            let mut column: u32 = 0;
            while column < COLUMNS
                invariant
                    column <= COLUMNS,
                    row < LINES,
                    screen == sharpmz_screen(),
                    self.charsets@.len() == 2,
                    is_charset(CHAR_WIDTH, CHAR_HEIGHT, views(self.charsets@[0]@)),
                    is_charset(CHAR_WIDTH, CHAR_HEIGHT, views(self.charsets@[1]@)),
                    glyphs == charset_rasters(self.charsets@),
                    input_img@.wf(),
                    screen.fits(input_img@),
                    expected == screen.matched(glyphs, input_img@),
                    codes@.len() == row * COLUMNS + column,
                    forall|t: int|
                        0 <= t < codes@.len() ==> #[trigger] codes@[t] == cell_of(expected[t]),
                decreases COLUMNS - column,
            {
                let tile = input_img.crop(
                    column * CHAR_WIDTH,
                    row * CHAR_HEIGHT,
                    CHAR_WIDTH,
                    CHAR_HEIGHT,
                );
                codes.push(self.get_matching_code(&tile));
                column += 1;
            }
            row += 1;
        }
        proof {
            assert forall|t: int| 0 <= t < expected.len() implies expected[t].charset <= 1 by {
                lemma_best_match(screen, glyphs, screen.tile(input_img@, t));
            }
            assert(characters_of(codes@) =~= expected) by {
                assert forall|t: int| 0 <= t < expected.len() implies characters_of(codes@)[t]
                    == expected[t] by {
                    lemma_cell_of(expected[t]);
                }
            }
        }
        let character_ram = SharpMzConverter::get_character_ram(&codes);
        let color_ram = SharpMzConverter::get_color_ram(&codes);
        proof {
            let profile = MachineProfile::sharpmz();
            assert(character_ram@ =~= character_ram_of(profile, expected));
            assert(Some(color_ram@) == color_ram_of(profile, expected)) by {
                assert forall|t: int| 0 <= t < expected.len() implies Some(color_ram@[t])
                    == Some(color_ram_of(profile, expected).unwrap()[t]) by {
                    lemma_cell_of(expected[t]);
                }
            }
        }

        Ok(
            ConversionResult {
                preview: self.create_preview(&codes),
                character_ram,
                color_ram: Some(color_ram),
                charset: None,
            },
        )
    }

    /// The word of the cell for the glyph nearest to `tile`: of several
    /// glyphs at the same least distance, the one of the primary charset,
    /// and there the one of the least code.
    pub fn get_matching_code(&self, tile: &PixelBlock) -> (code: u16)
        requires
            sharpmz_screen().is_glyph(tile@),
        ensures
            code == cell_of(best_match(self.glyphs(), tile@)),
            best_match(self.glyphs(), tile@).charset <= 1,
    {
        proof {
            use_type_invariant(self);
        }
        let screen = screen();
        let best = best_matching_character(&screen, &self.charsets, tile);
        let best_code: u16 = if best.charset == 0 {
            best.code as u16
        } else {
            0x8000 | best.code as u16
        };
        best_code | 0x0700  // fg color

    }

    /// The glyphs that the cells show, drawn at their tiles.
    pub fn create_preview(&self, codes: &Vec<u16>) -> (preview: PixelBlock)
        requires
            codes@.len() == LINES * COLUMNS,
        ensures
            preview@ == sharpmz_screen().preview(self.glyphs(), characters_of(codes@)),
            preview@.wf(),
    {
        proof {
            use_type_invariant(self);
        }
        let screen = screen();
        let mut characters: Vec<Character> = Vec::new();
        let mut i: usize = 0;
        while i < codes.len()
            invariant
                i <= codes@.len(),
                characters@.len() == i,
                forall|t: int| 0 <= t < i ==> #[trigger] characters@[t] == character_of(codes@[t]),
            decreases codes@.len() - i,
        {
            let code: u16 = codes[i];
            let charset: u32 = if code & 0x8000 != 0 {
                1
            } else {
                0
            };
            let charset_code = (code & 0xff) as u8;
            characters.push(Character { charset, code: charset_code });
            i += 1;
        }
        assert(characters@ =~= characters_of(codes@));
        assert(screen.screen_width() == 320 && screen.screen_height() == 200);
        draw_preview(&screen, &self.charsets, &characters)
    }

    /// The low bytes of the cells: the bytes of character RAM.
    pub fn get_character_ram(codes: &Vec<u16>) -> (bytes: Vec<u8>)
        ensures
            bytes@.len() == codes@.len(),
            forall|t: int|
                0 <= t < codes@.len() ==> #[trigger] bytes@[t] == (codes@[t] & 0x00ff) as u8,
    {
        let mut bytes: Vec<u8> = Vec::new();
        let mut i: usize = 0;
        while i < codes.len()
            invariant
                i <= codes@.len(),
                bytes@.len() == i,
                forall|t: int| 0 <= t < i ==> #[trigger] bytes@[t] == (codes@[t] & 0x00ff) as u8,
            decreases codes@.len() - i,
        {
            let c: u16 = codes[i];
            bytes.push((c & 0x00ff) as u8);
            i += 1;
        }
        bytes
    }

    /// The high bytes of the cells: the bytes of color RAM.
    pub fn get_color_ram(codes: &Vec<u16>) -> (bytes: Vec<u8>)
        ensures
            bytes@.len() == codes@.len(),
            forall|t: int| 0 <= t < codes@.len() ==> #[trigger] bytes@[t] == (codes@[t] >> 8) as u8,
    {
        let mut bytes: Vec<u8> = Vec::new();
        let mut i: usize = 0;
        while i < codes.len()
            invariant
                i <= codes@.len(),
                bytes@.len() == i,
                forall|t: int| 0 <= t < i ==> #[trigger] bytes@[t] == (codes@[t] >> 8) as u8,
            decreases codes@.len() - i,
        {
            let c: u16 = codes[i];
            bytes.push((c >> 8) as u8);
            i += 1;
        }
        bytes
    }
}

} // verus!
