//! Converts bitmap images into the character-cell screens of 1980s home computers.
//!
//! Every tile of the image is replaced by the glyph of the machine's
//! charset that is nearest to it. The result is the character RAM, the
//! color RAM where the machine has one, and a preview of the screen.
//! Instead of the machine's own charset, one made for the image can be used.

use vstd::prelude::*;
use vstd::string::StringExecFns;
use crate::charset::{charset_bits, convert_charset, generate_charset, is_generated, ScreenProfile};
use crate::profiles::{
    available_identifiers,
    find_profile,
    is_known,
    known_identifiers,
    registered,
    Character,
    MachineProfile,
};
use crate::raster::{PixelBlock, Raster};
use crate::screen::{
    best_match,
    best_matching_character,
    charset_rasters,
    draw_preview,
    glyph_of,
    is_character,
    lemma_match_of_composition,
    lemma_rematch_preview,
    match_tiles,
    no_earlier_twin,
};
use crate::seq_util::views;
use crate::utils::{decoded_sheet, lemma_charset_recrop, loadable, load_charset};

pub mod charset;
pub mod kmeans;
pub mod profiles;
pub mod raster;
pub mod screen;
pub mod sheet;
pub mod seq_util;
pub mod utils;

verus! {

/// What a conversion yields.
pub struct ConversionResult {
    pub preview: PixelBlock,
    pub character_ram: Vec<u8>,
    pub color_ram: Option<Vec<u8>>,
    pub charset: Option<Vec<u8>>,
}

/// The view of a conversion's result.
pub struct ConversionView {
    pub preview: Raster,
    pub character_ram: Seq<u8>,
    pub color_ram: Option<Seq<u8>>,
    pub charset: Option<Seq<u8>>,
}

impl View for ConversionResult {
    type V = ConversionView;

    open spec fn view(&self) -> ConversionView {
        ConversionView {
            preview: self.preview@,
            character_ram: self.character_ram@,
            color_ram: match self.color_ram {
                Some(bytes) => Some(bytes@),
                None => None,
            },
            charset: match self.charset {
                Some(bytes) => Some(bytes@),
                None => None,
            },
        }
    }
}

/// Why a conversion was not carried out.
#[derive(Debug)]
pub enum ConvertError {
    /// No machine has the identifier that was asked for; `available` lists
    /// the identifiers that exist.
    UnknownProfile { identifier: String, available: Vec<&'static str> },
    /// The image is smaller than the screen, which is `width` x `height` pixels.
    ImageTooSmall { width: u32, height: u32 },
    /// The glyph sheet number `index` of the machine is missing, is no PNG
    /// image, or is too small for 256 glyphs.
    CharsetResource { index: usize },
}

/// The text of one decimal digit.
pub open spec fn digit_text(digit: int) -> Seq<char> {
    if digit == 0 {
        "0"@
    } else if digit == 1 {
        "1"@
    } else if digit == 2 {
        "2"@
    } else if digit == 3 {
        "3"@
    } else if digit == 4 {
        "4"@
    } else if digit == 5 {
        "5"@
    } else if digit == 6 {
        "6"@
    } else if digit == 7 {
        "7"@
    } else if digit == 8 {
        "8"@
    } else {
        "9"@
    }
}

/// A number written with decimal digits, without leading zeros.
pub open spec fn decimal_text(n: nat) -> Seq<char>
    decreases n,
{
    if n < 10 {
        digit_text(n as int)
    } else {
        decimal_text(n / 10) + digit_text((n % 10) as int)
    }
}

/// The texts, separated by a comma and a blank.
pub open spec fn joined(texts: Seq<Seq<char>>) -> Seq<char>
    decreases texts.len(),
{
    if texts.len() == 0 {
        Seq::empty()
    } else if texts.len() == 1 {
        texts[0]
    } else {
        joined(texts.drop_last()) + ", "@ + texts.last()
    }
}

/// Writes a number with decimal digits at the end of `text`.
fn append_decimal(text: &mut String, n: u64)
    ensures
        final(text)@ == old(text)@ + decimal_text(n as nat),
    decreases n,
{
    if n >= 10 {
        append_decimal(text, n / 10);
    }
    let digit: u64 = n % 10;
    let written: &str = if digit == 0 {
        "0"
    } else if digit == 1 {
        "1"
    } else if digit == 2 {
        "2"
    } else if digit == 3 {
        "3"
    } else if digit == 4 {
        "4"
    } else if digit == 5 {
        "5"
    } else if digit == 6 {
        "6"
    } else if digit == 7 {
        "7"
    } else if digit == 8 {
        "8"
    } else {
        "9"
    };
    text.append(written);
    proof {
        assert(written@ == digit_text(digit as int));
        if n >= 10 {
            assert(old(text)@ + decimal_text((n / 10) as nat) + digit_text((n % 10) as int)
                =~= old(text)@ + (decimal_text((n / 10) as nat) + digit_text((n % 10) as int)));
        }
    }
}

impl ConvertError {
    /// What the user is told of the error.
    pub open spec fn message_text(self) -> Seq<char> {
        match self {
            ConvertError::UnknownProfile { identifier, available } => {
                "Unknown profile identifier \""@ + identifier@ + "\".\nAvailable profiles: "@
                    + joined(views(available@))
            },
            ConvertError::ImageTooSmall { width, height } => {
                "Input file must have a dimension of at least "@ + decimal_text(width as nat) + "x"@
                    + decimal_text(height as nat) + " pixels."@
            },
            ConvertError::CharsetResource { index } => {
                "Unable to decode charset image "@ + decimal_text(index as nat) + "."@
            },
        }
    }

    /// What the user is told of the error.
    pub fn message(&self) -> (text: String)
        ensures
            text@ == self.message_text(),
    {
        match self {
            ConvertError::UnknownProfile { identifier, available } => {
                let mut text = String::from_str("Unknown profile identifier \"");
                text.append(identifier.as_str());
                text.append("\".\nAvailable profiles: ");
                let ghost head = text@;
                let ghost names = views(available@);
                let mut i: usize = 0;
                while i < available.len()
                    invariant
                        i <= available@.len(),
                        names == views(available@),
                        text@ == head + joined(names.take(i as int)),
                    decreases available@.len() - i,
                {
                    proof {
                        assert(names.take(i + 1).drop_last() =~= names.take(i as int));
                        assert(names.take(i + 1).last() == available@[i as int]@);
                    }
                    if i > 0 {
                        text.append(", ");
                    }
                    text.append(available[i]);
                    proof {
                        let before = joined(names.take(i as int));
                        assert(head + before + ", "@ + available@[i as int]@ =~= head + (before
                            + ", "@ + available@[i as int]@));
                        assert(head + before + available@[i as int]@ =~= head + (before
                            + available@[i as int]@));
                        if i == 0 {
                            assert(before =~= Seq::empty());
                            assert(head + before + available@[i as int]@ =~= head
                                + available@[i as int]@);
                        }
                    }
                    i += 1;
                }
                assert(names.take(available@.len() as int) =~= names);
                text
            },
            ConvertError::ImageTooSmall { width, height } => {
                let mut text = String::from_str("Input file must have a dimension of at least ");
                append_decimal(&mut text, *width as u64);
                text.append("x");
                append_decimal(&mut text, *height as u64);
                text.append(" pixels.");
                text
            },
            ConvertError::CharsetResource { index } => {
                let mut text = String::from_str("Unable to decode charset image ");
                append_decimal(&mut text, *index as u64);
                text.append(".");
                text
            },
        }
    }
}

/// The bytes of character RAM for the glyphs of a screen.
pub open spec fn character_ram_of(profile: MachineProfile, characters: Seq<Character>) -> Seq<u8> {
    Seq::new(characters.len(), |t: int| profile.character_ram_mapping.byte(characters[t]))
}

/// The bytes of color RAM for the glyphs of a screen, where the machine
/// has color RAM.
pub open spec fn color_ram_of(profile: MachineProfile, characters: Seq<Character>) -> Option<
    Seq<u8>,
> {
    match profile.color_ram_mapping {
        Some(mapping) => Some(Seq::new(characters.len(), |t: int| mapping.byte(characters[t]))),
        None => None,
    }
}

/// What the conversion of `img` for a machine yields with the given
/// charsets: every tile is matched with the nearest glyph; the preview
/// shows those glyphs, and character RAM and color RAM hold their bytes
/// tile by tile. A charset that was made for the image comes with the
/// result in the memory format of the machine.
pub open spec fn conversion(
    profile: MachineProfile,
    charsets: Seq<Seq<Raster>>,
    uses_custom_charset: bool,
    img: Raster,
) -> ConversionView {
    let screen = ScreenProfile::of(profile);
    let characters = screen.matched(charsets, img);
    ConversionView {
        preview: screen.preview(charsets, characters),
        character_ram: character_ram_of(profile, characters),
        color_ram: color_ram_of(profile, characters),
        charset: if uses_custom_charset {
            Some(charset_bits(charsets[0]))
        } else {
            None
        },
    }
}

/// Converts images for one machine with a fixed set of charsets.
pub struct Converter<'a> {
    profile: &'a MachineProfile,
    charsets: Vec<Vec<PixelBlock>>,
    uses_custom_charset: bool,
    screen_height: u32,
    screen_width: u32,
}

impl<'a> Converter<'a> {
    #[verifier::type_invariant]
    spec fn inv(self) -> bool {
        &&& Converter::accepts(
            *self.profile,
            charset_rasters(self.charsets@),
            self.uses_custom_charset,
        )
        &&& self.screen_width == ScreenProfile::of(*self.profile).screen_width()
        &&& self.screen_height == ScreenProfile::of(*self.profile).screen_height()
    }

    /// The charsets suit the machine: the screen is well formed, there is
    /// at least one charset, every charset holds 256 glyphs of the
    /// machine's glyph size, and a charset made for the image has glyphs
    /// of at most 8 pixels width.
    pub open spec fn accepts(
        profile: MachineProfile,
        charsets: Seq<Seq<Raster>>,
        uses_custom_charset: bool,
    ) -> bool {
        &&& ScreenProfile::of(profile).wf()
        &&& ScreenProfile::of(profile).are_charsets(charsets)
        &&& uses_custom_charset ==> profile.charset_definition.character_width <= 8
    }

    /// The machine.
    pub closed spec fn profile(self) -> MachineProfile {
        *self.profile
    }

    /// The screen of the machine.
    pub open spec fn screen(self) -> ScreenProfile {
        ScreenProfile::of(self.profile())
    }

    /// The glyphs of the charsets.
    pub closed spec fn glyphs(self) -> Seq<Seq<Raster>> {
        charset_rasters(self.charsets@)
    }

    /// Whether the charset was made for the image.
    pub closed spec fn uses_custom_charset(self) -> bool {
        self.uses_custom_charset
    }

    /// A converter for `profile` with the given charsets.
    pub fn new(
        profile: &'a MachineProfile,
        charsets: Vec<Vec<PixelBlock>>,
        uses_custom_charset: bool,
    ) -> (converter: Self)
        requires
            Converter::accepts(*profile, charset_rasters(charsets@), uses_custom_charset),
        ensures
            converter.profile() == *profile,
            converter.glyphs() == charset_rasters(charsets@),
            converter.uses_custom_charset() == uses_custom_charset,
    {
        Self {
            charsets,
            uses_custom_charset,
            screen_height: profile.lines * profile.charset_definition.character_height,
            screen_width: profile.columns * profile.charset_definition.character_width,
            profile: profile,
        }
    }

    /// Converts the image: an error if it is smaller than the screen, and
    /// the conversion of its top-left part of the size of the screen otherwise.
    pub fn convert(&self, input_img: &PixelBlock) -> (result: Result<
        ConversionResult,
        ConvertError,
    >)
        requires
            input_img@.wf(),
        ensures
            match result {
                Ok(converted) => {
                    &&& self.screen().fits(input_img@)
                    &&& converted@ == conversion(
                        self.profile(),
                        self.glyphs(),
                        self.uses_custom_charset(),
                        input_img@,
                    )
                    &&& converted.character_ram@.len() == self.profile().lines
                        * self.profile().columns
                    &&& converted.color_ram matches Some(colors) ==> colors@.len()
                        == self.profile().lines * self.profile().columns
                    &&& converted.preview@.wf()
                },
                Err(error) => {
                    &&& !self.screen().fits(input_img@)
                    &&& error == ConvertError::ImageTooSmall {
                        width: self.screen().screen_width() as u32,
                        height: self.screen().screen_height() as u32,
                    }
                },
            },
    {
        proof {
            use_type_invariant(self);
        }
        if input_img.width() < self.screen_width || input_img.height() < self.screen_height {
            return Err(
                ConvertError::ImageTooSmall {
                    width: self.screen_width,
                    height: self.screen_height,
                },
            );
        }
        let screen = ScreenProfile::from_machine_profile(self.profile);
        let ghost glyphs = charset_rasters(self.charsets@);
        let characters = match_tiles(&screen, &self.charsets, input_img);
        proof {
            input_img.lemma_view_bounds();
            assert(screen.screen_width() * screen.screen_height() * 3 <= input_img@.width
                * input_img@.height * 3) by (nonlinear_arith)
                requires
                    0 <= screen.screen_width() <= input_img@.width,
                    0 <= screen.screen_height() <= input_img@.height,
            ;
        }

        Ok(
            ConversionResult {
                preview: self.create_preview(&characters),
                character_ram: self.map_character_ram(&characters),
                color_ram: self.map_color_ram(&characters),
                charset: if self.uses_custom_charset {
                    assert forall|i: int| 0 <= i < 256 implies (#[trigger] self.charsets@[0]@[i])@.wf()
                        && self.charsets@[0]@[i]@.width <= 8 by {
                        assert(screen.is_glyph(glyphs[0][i]));
                    }
                    Some(convert_charset(&self.charsets[0]))
                } else {
                    None
                },
            },
        )
    }

    /// The glyph nearest to `tile`: of several at the same least distance,
    /// the one of the first charset, and there the one of the least code.
    pub fn get_best_matching_character(&self, tile: &PixelBlock) -> (character: Character)
        requires
            self.screen().is_glyph(tile@),
        ensures
            character == best_match(self.glyphs(), tile@),
            is_character(self.glyphs(), character),
    {
        proof {
            use_type_invariant(self);
        }
        let screen = ScreenProfile::from_machine_profile(self.profile);
        best_matching_character(&screen, &self.charsets, tile)
    }

    /// The glyphs of `characters`, drawn at their tiles.
    pub fn create_preview(&self, characters: &Vec<Character>) -> (preview: PixelBlock)
        requires
            characters@.len() == self.screen().tile_count(),
            forall|t: int|
                0 <= t < characters@.len() ==> is_character(
                    self.glyphs(),
                    #[trigger] characters@[t],
                ),
            self.screen().screen_width() * self.screen().screen_height() * 3 <= usize::MAX,
        ensures
            preview@ == self.screen().preview(self.glyphs(), characters@),
            preview@.wf(),
    {
        proof {
            use_type_invariant(self);
        }
        let screen = ScreenProfile::from_machine_profile(self.profile);
        draw_preview(&screen, &self.charsets, characters)
    }

    /// The bytes of character RAM for the glyphs, tile by tile.
    pub fn map_character_ram(&self, characters: &Vec<Character>) -> (bytes: Vec<u8>)
        ensures
            bytes@ == character_ram_of(self.profile(), characters@),
    {
        let mut bytes: Vec<u8> = Vec::new();
        let mut i: usize = 0;
        while i < characters.len()
            invariant
                i <= characters@.len(),
                bytes@.len() == i,
                forall|t: int|
                    0 <= t < i ==> #[trigger] bytes@[t]
                        == self.profile.character_ram_mapping.byte(characters@[t]),
            decreases characters@.len() - i,
        {
            bytes.push(self.profile.character_ram_mapping.apply(&characters[i]));
            i += 1;
        }
        bytes
    }

    /// The bytes of color RAM for the glyphs, tile by tile, where the
    /// machine has color RAM.
    pub fn map_color_ram(&self, characters: &Vec<Character>) -> (colors: Option<Vec<u8>>)
        ensures
            match colors {
                Some(bytes) => color_ram_of(self.profile(), characters@) == Some(bytes@),
                None => color_ram_of(self.profile(), characters@) is None,
            },
    {
        match self.profile.color_ram_mapping {
            Some(mapping) => {
                let mut bytes: Vec<u8> = Vec::new();
                let mut i: usize = 0;
                while i < characters.len()
                    invariant
                        i <= characters@.len(),
                        bytes@.len() == i,
                        forall|t: int|
                            0 <= t < i ==> #[trigger] bytes@[t] == mapping.byte(characters@[t]),
                    decreases characters@.len() - i,
                {
                    bytes.push(mapping.apply(&characters[i]));
                    i += 1;
                }
                Some(bytes)
            },
            None => None,
        }
    }
}

/// The glyph sheet number `i` is there and can be used for the machine.
pub open spec fn sheet_usable(profile: MachineProfile, sheets: Seq<Vec<u8>>, i: int) -> bool {
    i < sheets.len() && loadable(sheets[i]@, profile.charset_definition)
}

/// All glyph sheets of the machine are there and can be used.
pub open spec fn sheets_usable(profile: MachineProfile, sheets: Seq<Vec<u8>>) -> bool {
    forall|i: int| 0 <= i < profile.charsets ==> sheet_usable(profile, sheets, i)
}

/// The charsets of the machine, as its glyph sheets hold them.
pub open spec fn loaded_charsets(profile: MachineProfile, sheets: Seq<Vec<u8>>) -> Seq<
    Seq<Raster>,
> {
    Seq::new(
        profile.charsets as nat,
        |i: int| profile.charset_definition.charset(decoded_sheet(sheets[i]@).unwrap()),
    )
}

/// Loads the charsets of a machine from its PNG glyph sheets, which
/// `charset_sheets` holds in the machine's order. The error names the
/// first sheet that is missing or cannot be used.
pub fn load_charsets(profile: &MachineProfile, charset_sheets: &Vec<Vec<u8>>) -> (loaded: Result<
    Vec<Vec<PixelBlock>>,
    ConvertError,
>)
    ensures
        match loaded {
            Ok(charsets) => {
                &&& sheets_usable(*profile, charset_sheets@)
                &&& charset_rasters(charsets@) == loaded_charsets(*profile, charset_sheets@)
                &&& forall|s: int, c: int|
                    0 <= s < charsets@.len() && 0 <= c < 256 ==> (#[trigger] charsets@[s]@[c])@.wf()
            },
            Err(error) => {
                &&& error matches ConvertError::CharsetResource { index }
                &&& index < profile.charsets
                &&& !sheet_usable(*profile, charset_sheets@, index as int)
                &&& forall|i: int| 0 <= i < index ==> sheet_usable(*profile, charset_sheets@, i)
            },
        },
{
    let mut charsets: Vec<Vec<PixelBlock>> = Vec::new();
    let mut i: usize = 0;
    while i < profile.charsets as usize
        invariant
            i <= profile.charsets,
            charsets@.len() == i,
            forall|q: int| 0 <= q < i ==> sheet_usable(*profile, charset_sheets@, q),
            forall|q: int|
                0 <= q < i ==> views((#[trigger] charsets@[q])@) == loaded_charsets(
                    *profile,
                    charset_sheets@,
                )[q],
            forall|s: int, c: int|
                0 <= s < i && 0 <= c < 256 ==> (#[trigger] charsets@[s]@[c])@.wf(),
        decreases profile.charsets - i,
    {
        if i >= charset_sheets.len() {
            return Err(ConvertError::CharsetResource { index: i });
        }
        match load_charset(charset_sheets[i].as_slice(), &profile.charset_definition) {
            Some(charset) => {
                charsets.push(charset);
            },
            None => {
                return Err(ConvertError::CharsetResource { index: i });
            },
        }
        i += 1;
    }
    Ok(charsets)
}

/// What `convert` returns for a machine of the registry.
///
/// Unless a charset is to be generated, the machine's glyph sheets must be
/// usable: the error names the first that is not. Then the image must hold
/// the screen: the error tells the size of the screen. Then the image is
/// converted, with the charsets of the sheets, or with a charset that was
/// generated for it.
pub open spec fn is_outcome(
    profile: MachineProfile,
    autogenerate_charset: bool,
    sheets: Seq<Vec<u8>>,
    img: Raster,
    result: Result<ConversionResult, ConvertError>,
) -> bool {
    let screen = ScreenProfile::of(profile);
    match result {
        Err(ConvertError::UnknownProfile { identifier, available }) => false,
        Err(ConvertError::CharsetResource { index }) => {
            &&& !autogenerate_charset
            &&& index < profile.charsets
            &&& !sheet_usable(profile, sheets, index as int)
            &&& forall|i: int| 0 <= i < index ==> sheet_usable(profile, sheets, i)
        },
        Err(ConvertError::ImageTooSmall { width, height }) => {
            &&& autogenerate_charset || sheets_usable(profile, sheets)
            &&& !screen.fits(img)
            &&& width == screen.screen_width()
            &&& height == screen.screen_height()
        },
        Ok(converted) => {
            &&& screen.fits(img)
            &&& converted.character_ram@.len() == profile.lines * profile.columns
            &&& converted.color_ram matches Some(colors) ==> colors@.len() == profile.lines
                * profile.columns
            &&& if autogenerate_charset {
                exists|glyphs: Seq<Raster>|
                    #[trigger] is_generated(screen, img, glyphs) && converted@ == conversion(
                        profile,
                        seq![glyphs],
                        true,
                        img,
                    )
            } else {
                &&& sheets_usable(profile, sheets)
                &&& converted@ == conversion(profile, loaded_charsets(profile, sheets), false, img)
            }
        },
    }
}

/// Converts an image into the screen of the machine that
/// `profile_identifier` names.
///
/// `charset_sheets` holds the PNG glyph sheets of that machine, in the
/// machine's order; they are not looked at where a charset is generated
/// for the image.
pub fn convert(
    input_img: &PixelBlock,
    profile_identifier: &str,
    autogenerate_charset: bool,
    charset_sheets: &Vec<Vec<u8>>,
) -> (result: Result<ConversionResult, ConvertError>)
    requires
        input_img@.wf(),
    ensures
        !is_known(profile_identifier@) ==> (result matches Err(
            ConvertError::UnknownProfile { identifier, available },
        ) && identifier@ == profile_identifier@ && views(available@) == known_identifiers()),
        is_known(profile_identifier@) ==> is_outcome(
            registered(profile_identifier@),
            autogenerate_charset,
            charset_sheets@,
            input_img@,
            result,
        ),
{
    let profile = match find_profile(profile_identifier) {
        Some(profile) => profile,
        None => {
            return Err(
                ConvertError::UnknownProfile {
                    identifier: profile_identifier.to_owned(),
                    available: available_identifiers(),
                },
            );
        },
    };
    let screen = ScreenProfile::from_machine_profile(&profile);
    proof {
        assert(screen.lines <= 32 && screen.columns <= 40);
    }
    if autogenerate_charset {
        if input_img.width() < screen.columns * screen.character_width || input_img.height()
            < screen.lines * screen.character_height {
            return Err(
                ConvertError::ImageTooSmall {
                    width: screen.columns * screen.character_width,
                    height: screen.lines * screen.character_height,
                },
            );
        }
        let charset = generate_charset(&screen, input_img);
        let ghost glyphs = views(charset@);
        let mut charsets: Vec<Vec<PixelBlock>> = Vec::new();
        charsets.push(charset);
        proof {
            assert(charset_rasters(charsets@) =~= seq![glyphs]);
        }
        let result = Converter::new(&profile, charsets, true).convert(input_img);
        result
    } else {
        let charsets = match load_charsets(&profile, charset_sheets) {
            Ok(charsets) => charsets,
            Err(error) => {
                return Err(error);
            },
        };
        proof {
            let loaded = charset_rasters(charsets@);
            assert forall|s: int, c: int|
                0 <= s < loaded.len() && 0 <= c < 256 implies screen.is_glyph(
                #[trigger] loaded[s][c],
            ) by {
                lemma_charset_recrop(
                    profile.charset_definition,
                    decoded_sheet(charset_sheets@[s]@).unwrap(),
                    c,
                );
            }
        }
        Converter::new(&profile, charsets, false).convert(input_img)
    }
}

/// Converting an image that was put together from glyphs finds those
/// glyphs again.
///
/// If every tile of the image is a glyph of the charsets, and none of
/// these glyphs has an earlier glyph at distance 0 from it, then character
/// RAM and color RAM hold the bytes of exactly these glyphs, and the
/// preview shows them.
pub proof fn lemma_conversion_of_composition(
    profile: MachineProfile,
    charsets: Seq<Seq<Raster>>,
    uses_custom_charset: bool,
    characters: Seq<Character>,
    img: Raster,
)
    requires
        Converter::accepts(profile, charsets, uses_custom_charset),
        characters.len() == ScreenProfile::of(profile).tile_count(),
        forall|t: int|
            0 <= t < characters.len() ==> is_character(charsets, #[trigger] characters[t]),
        forall|t: int|
            0 <= t < characters.len() ==> #[trigger] ScreenProfile::of(profile).tile(img, t)
                == glyph_of(charsets, characters[t]),
        forall|t: int|
            0 <= t < characters.len() ==> no_earlier_twin(charsets, #[trigger] characters[t]),
    ensures
        ScreenProfile::of(profile).matched(charsets, img) == characters,
        conversion(profile, charsets, uses_custom_charset, img).character_ram == character_ram_of(
            profile,
            characters,
        ),
        conversion(profile, charsets, uses_custom_charset, img).color_ram == color_ram_of(
            profile,
            characters,
        ),
        conversion(profile, charsets, uses_custom_charset, img).preview == ScreenProfile::of(
            profile,
        ).preview(charsets, characters),
{
    let screen = ScreenProfile::of(profile);
    let found = screen.matched(charsets, img);
    assert forall|t: int| 0 <= t < characters.len() implies found[t] == characters[t] by {
        lemma_match_of_composition(screen, charsets, characters, img, t);
    }
}

/// Conversion is idempotent: the preview of a conversion converts to the
/// same result again, as long as no glyph that was matched has an earlier
/// glyph at distance 0 from it.
pub proof fn lemma_conversion_of_preview(
    profile: MachineProfile,
    charsets: Seq<Seq<Raster>>,
    uses_custom_charset: bool,
    img: Raster,
)
    requires
        Converter::accepts(profile, charsets, uses_custom_charset),
        forall|t: int|
            0 <= t < ScreenProfile::of(profile).tile_count() ==> no_earlier_twin(
                charsets,
                #[trigger] ScreenProfile::of(profile).matched(charsets, img)[t],
            ),
    ensures
        conversion(
            profile,
            charsets,
            uses_custom_charset,
            conversion(profile, charsets, uses_custom_charset, img).preview,
        ) == conversion(profile, charsets, uses_custom_charset, img),
{
    lemma_rematch_preview(ScreenProfile::of(profile), charsets, img);
}

} // verus!
