//! The KC 87 on its own: 24 lines of 40 characters from one charset, and
//! no color RAM.

use vstd::prelude::*;
use crate::charset::ScreenProfile;
use crate::profiles::Character;
use crate::raster::{PixelBlock, Raster};
use crate::screen::{
    best_match,
    best_matching_character,
    charset_rasters,
    draw_preview,
    lemma_best_match,
};
use crate::seq_util::views;
use crate::sheet::is_charset;
use crate::utils::{CharsetDefinition, MatrixCharsetOrder};
use crate::{ConversionResult, ConversionView, ConvertError};

verus! {

/// pixels
pub const CHAR_HEIGHT: u32 = 8;

/// pixels
pub const CHAR_WIDTH: u32 = 8;

/// characters
pub const COLUMNS: u32 = 40;

/// characters
pub const LINES: u32 = 24;

/// pixels
pub const SCREEN_WIDTH: u32 = 320;

/// pixels
pub const SCREEN_HEIGHT: u32 = 192;

/// The layout of the glyph sheet of the KC 87: the low nibble of the code
/// chooses the column, and one pixel lies around every glyph.
pub open spec fn kc87_sheet_layout() -> CharsetDefinition {
    CharsetDefinition {
        character_width: CHAR_WIDTH,
        character_height: CHAR_HEIGHT,
        order: MatrixCharsetOrder::ColumnInLowNibble,
        offset_left: 1,
        offset_top: 1,
        spacing_horizontal: 1,
        spacing_vertical: 1,
    }
}

/// The layout of the glyph sheet of the KC 87.
pub fn sheet_layout() -> (props: CharsetDefinition)
    ensures
        props == kc87_sheet_layout(),
{
    CharsetDefinition {
        order: MatrixCharsetOrder::ColumnInLowNibble,
        character_width: CHAR_WIDTH,
        character_height: CHAR_HEIGHT,
        offset_left: 1,
        spacing_horizontal: 1,
        offset_top: 1,
        spacing_vertical: 1,
    }
}

/// The screen of the KC 87.
pub open spec fn kc87_screen() -> ScreenProfile {
    ScreenProfile {
        lines: LINES,
        columns: COLUMNS,
        character_width: CHAR_WIDTH,
        character_height: CHAR_HEIGHT,
        chars: 0x100,
    }
}

fn screen() -> (screen: ScreenProfile)
    ensures
        screen == kc87_screen(),
        screen.wf(),
{
    ScreenProfile {
        lines: LINES,
        columns: COLUMNS,
        character_width: CHAR_WIDTH,
        character_height: CHAR_HEIGHT,
        chars: 0x100,
    }
}

/// The glyphs that the codes of a screen name in the one charset.
pub open spec fn characters_of(codes: Seq<u8>) -> Seq<Character> {
    Seq::new(codes.len(), |t: int| Character { charset: 0, code: codes[t] })
}

/// The codes of the glyphs of a screen.
pub open spec fn codes_of(characters: Seq<Character>) -> Seq<u8> {
    Seq::new(characters.len(), |t: int| characters[t].code)
}

/// Converts images for the KC 87.
pub struct Kc87Converter {
    charsets: Vec<Vec<PixelBlock>>,
}

impl Kc87Converter {
    #[verifier::type_invariant]
    spec fn inv(self) -> bool {
        self.charsets@.len() == 1 && is_charset(CHAR_WIDTH, CHAR_HEIGHT, views(self.charsets@[0]@))
    }

    /// The glyphs of the charset, as the only charset of a machine.
    pub closed spec fn glyphs(self) -> Seq<Seq<Raster>> {
        charset_rasters(self.charsets@)
    }

    /// A converter with the given charset of 256 glyphs of 8 x 8 pixels.
    pub fn new(charset: Vec<PixelBlock>) -> (converter: Self)
        requires
            is_charset(CHAR_WIDTH, CHAR_HEIGHT, views(charset@)),
        ensures
            converter.glyphs() == seq![views(charset@)],
    {
        let mut charsets: Vec<Vec<PixelBlock>> = Vec::new();
        charsets.push(charset);
        Self { charsets }
    }

    /// Converts the image: an error if it is smaller than the screen of
    /// 320 x 192 pixels; otherwise character RAM holds the codes of the
    /// glyphs nearest to the tiles, and the preview shows those glyphs.
    pub fn convert(&self, input_img: &PixelBlock) -> (result: Result<
        ConversionResult,
        ConvertError,
    >)
        requires
            input_img@.wf(),
        ensures
            match result {
                Ok(converted) => {
                    &&& kc87_screen().fits(input_img@)
                    &&& converted@ == (ConversionView {
                        preview: kc87_screen().preview(
                            self.glyphs(),
                            kc87_screen().matched(self.glyphs(), input_img@),
                        ),
                        character_ram: codes_of(kc87_screen().matched(self.glyphs(), input_img@)),
                        color_ram: None,
                        charset: None,
                    })
                    &&& converted.character_ram@.len() == LINES * COLUMNS
                },
                Err(error) => {
                    &&& !kc87_screen().fits(input_img@)
                    &&& error == ConvertError::ImageTooSmall {
                        width: SCREEN_WIDTH,
                        height: SCREEN_HEIGHT,
                    }
                },
            },
    {
        if input_img.width() < SCREEN_WIDTH || input_img.height() < SCREEN_HEIGHT {
            return Err(ConvertError::ImageTooSmall { width: SCREEN_WIDTH, height: SCREEN_HEIGHT });
        }
        proof {
            use_type_invariant(self);
        }
        let screen = screen();
        let ghost glyphs = charset_rasters(self.charsets@);
        let ghost expected = screen.matched(glyphs, input_img@);

        let mut codes: Vec<u8> = Vec::new();

        let mut row: u32 = 0;
        while row < LINES
            invariant
                row <= LINES,
                screen == kc87_screen(),
                self.charsets@.len() == 1,
                is_charset(CHAR_WIDTH, CHAR_HEIGHT, views(self.charsets@[0]@)),
                glyphs == charset_rasters(self.charsets@),
                input_img@.wf(),
                screen.fits(input_img@),
                expected == screen.matched(glyphs, input_img@),
                codes@.len() == row * COLUMNS,
                forall|t: int| 0 <= t < codes@.len() ==> #[trigger] codes@[t] == expected[t].code,
            decreases LINES - row,
        {
            let mut column: u32 = 0;
            while column < COLUMNS
                invariant
                    column <= COLUMNS,
                    row < LINES,
                    screen == kc87_screen(),
                    self.charsets@.len() == 1,
                    is_charset(CHAR_WIDTH, CHAR_HEIGHT, views(self.charsets@[0]@)),
                    glyphs == charset_rasters(self.charsets@),
                    input_img@.wf(),
                    screen.fits(input_img@),
                    expected == screen.matched(glyphs, input_img@),
                    codes@.len() == row * COLUMNS + column,
                    forall|t: int|
                        0 <= t < codes@.len() ==> #[trigger] codes@[t] == expected[t].code,
                decreases COLUMNS - column,
            {
                let tile = input_img.crop(
                    column * CHAR_WIDTH,
                    row * CHAR_HEIGHT,
                    CHAR_WIDTH,
                    CHAR_HEIGHT,
                );
                codes.push(self.get_matching_code(&tile));
                column += 1;
            }
            row += 1;
        }
        proof {
            assert(codes@ =~= codes_of(expected));
            assert(characters_of(codes@) =~= expected) by {
                assert forall|t: int| 0 <= t < expected.len() implies characters_of(codes@)[t]
                    == expected[t] by {
                    lemma_best_match(screen, glyphs, screen.tile(input_img@, t));
                }
            }
        }

        Ok(
            ConversionResult {
                preview: self.create_preview(&codes),
                character_ram: codes,
                color_ram: None,
                charset: None,
            },
        )
    }

    /// The code of the glyph nearest to `tile`: of several at the same
    /// least distance, the least code.
    pub fn get_matching_code(&self, tile: &PixelBlock) -> (code: u8)
        requires
            kc87_screen().is_glyph(tile@),
        ensures
            code == best_match(self.glyphs(), tile@).code,
            best_match(self.glyphs(), tile@).charset == 0,
    {
        proof {
            use_type_invariant(self);
        }
        let screen = screen();
        best_matching_character(&screen, &self.charsets, tile).code
    }

    /// The glyphs of the codes, drawn at their tiles.
    pub fn create_preview(&self, codes: &Vec<u8>) -> (preview: PixelBlock)
        requires
            codes@.len() == LINES * COLUMNS,
        ensures
            preview@ == kc87_screen().preview(self.glyphs(), characters_of(codes@)),
            preview@.wf(),
    {
        proof {
            use_type_invariant(self);
        }
        let screen = screen();
        let mut characters: Vec<Character> = Vec::new();
        let mut i: usize = 0;
        while i < codes.len()
            invariant
                i <= codes@.len(),
                characters@.len() == i,
                forall|t: int|
                    0 <= t < i ==> #[trigger] characters@[t] == (Character {
                        charset: 0,
                        code: codes@[t],
                    }),
            decreases codes@.len() - i,
        {
            characters.push(Character { charset: 0, code: codes[i] });
            i += 1;
        }
        assert(characters@ =~= characters_of(codes@));
        assert(screen.screen_width() == 320 && screen.screen_height() == 192);
        draw_preview(&screen, &self.charsets, &characters)
    }
}

} // verus!
