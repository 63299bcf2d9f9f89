//! The machines that a screen can be made for: their screen and glyph
//! geometry, their glyph sheets, and how a matched glyph becomes the bytes
//! of character RAM and color RAM.

use vstd::prelude::*;
use vstd::string::StringSliceAdditionalSpecFns;
use vstd::utf8::encode_utf8_decode_utf8;
use crate::seq_util::views;
use crate::utils::{CharsetDefinition, MatrixCharsetOrder};

pub mod kc87;
pub mod sharpmz;

verus! {

/// A glyph of a machine: the charset it belongs to, and its code there.
#[derive(Clone, Copy, Debug, PartialEq, Eq, Structural)]
pub struct Character {
    pub charset: u32,
    pub code: u8,
}

/// How a glyph becomes a byte of character RAM.
#[derive(Clone, Copy, Debug, PartialEq, Eq, Structural)]
pub enum CharacterRamMapping {
    /// The byte is the glyph's code.
    Code,
}

/// How a glyph becomes a byte of color RAM.
#[derive(Clone, Copy, Debug, PartialEq, Eq, Structural)]
pub enum ColorRamMapping {
    /// Every cell gets the same byte.
    Constant(u8),
    /// The byte tells the charset: `primary` for charset 0, `extended` for any other.
    ByCharset { primary: u8, extended: u8 },
}

impl CharacterRamMapping {
    /// The byte of character RAM for `character`.
    pub open spec fn byte(self, character: Character) -> u8 {
        match self {
            CharacterRamMapping::Code => character.code,
        }
    }

    /// The byte of character RAM for `character`.
    pub fn apply(&self, character: &Character) -> (b: u8)
        ensures
            b == self.byte(*character),
    {
        match self {
            CharacterRamMapping::Code => character.code,
        }
    }
}

impl ColorRamMapping {
    /// The byte of color RAM for `character`.
    pub open spec fn byte(self, character: Character) -> u8 {
        match self {
            ColorRamMapping::Constant(value) => value,
            ColorRamMapping::ByCharset { primary, extended } => if character.charset == 0 {
                primary
            } else {
                extended
            },
        }
    }

    /// The byte of color RAM for `character`.
    pub fn apply(&self, character: &Character) -> (b: u8)
        ensures
            b == self.byte(*character),
    {
        match self {
            ColorRamMapping::Constant(value) => *value,
            ColorRamMapping::ByCharset { primary, extended } => if character.charset == 0 {
                *primary
            } else {
                *extended
            },
        }
    }
}

/// A target machine.
#[derive(Clone, Copy, Debug)]
pub struct MachineProfile {
    pub identifier: &'static str,
    pub lines: u32,
    pub columns: u32,
    pub character_ram_mapping: CharacterRamMapping,
    pub color_ram_mapping: Option<ColorRamMapping>,
    pub charset_definition: CharsetDefinition,
    /// number of PNG glyph sheets that hold the machine's charsets
    pub charsets: u32,
}

/// The layout that all bundled glyph sheets share: glyphs of 8 x 8 pixels,
/// the low nibble of the code choosing the column, one pixel of border
/// around every glyph.
pub open spec fn bundled_sheet_layout() -> CharsetDefinition {
    CharsetDefinition {
        character_width: 8,
        character_height: 8,
        order: MatrixCharsetOrder::ColumnInLowNibble,
        offset_left: 1,
        offset_top: 1,
        spacing_horizontal: 1,
        spacing_vertical: 1,
    }
}

fn bundled_layout() -> (def: CharsetDefinition)
    ensures
        def == bundled_sheet_layout(),
{
    CharsetDefinition {
        character_width: 8,
        character_height: 8,
        order: MatrixCharsetOrder::ColumnInLowNibble,
        offset_left: 1,
        offset_top: 1,
        spacing_horizontal: 1,
        spacing_vertical: 1,
    }
}

impl MachineProfile {
    /// The Commodore 64: 25 lines of 40 characters, one charset, every
    /// cell in color 1.
    pub open spec fn c64() -> MachineProfile {
        MachineProfile {
            identifier: "c64",
            lines: 25,
            columns: 40,
            character_ram_mapping: CharacterRamMapping::Code,
            color_ram_mapping: Some(ColorRamMapping::Constant(0x01)),
            charset_definition: bundled_sheet_layout(),
            charsets: 1,
        }
    }

    /// The KC 87: 24 lines of 40 characters, one charset, every cell white
    /// on black.
    pub open spec fn kc87() -> MachineProfile {
        MachineProfile {
            identifier: "kc87",
            lines: 24,
            columns: 40,
            character_ram_mapping: CharacterRamMapping::Code,
            color_ram_mapping: Some(ColorRamMapping::Constant(0b01110000)),
            charset_definition: bundled_sheet_layout(),
            charsets: 1,
        }
    }

    /// The Sharp MZ: 25 lines of 40 characters, two charsets; the color
    /// byte is 0x07 for the first and 0x87 for the second.
    pub open spec fn sharpmz() -> MachineProfile {
        MachineProfile {
            identifier: "sharpmz",
            lines: 25,
            columns: 40,
            character_ram_mapping: CharacterRamMapping::Code,
            color_ram_mapping: Some(ColorRamMapping::ByCharset { primary: 0x07, extended: 0x87 }),
            charset_definition: bundled_sheet_layout(),
            charsets: 2,
        }
    }

    /// The Z 1013: 32 lines of 32 characters, one charset, no color RAM.
    pub open spec fn z1013() -> MachineProfile {
        MachineProfile {
            identifier: "z1013",
            lines: 32,
            columns: 32,
            character_ram_mapping: CharacterRamMapping::Code,
            color_ram_mapping: None,
            charset_definition: bundled_sheet_layout(),
            charsets: 1,
        }
    }
}

/// C64 profile
///
/// Character RAM: 0x0400
/// Color RAM: 0xd800
pub fn c64_profile() -> (profile: MachineProfile)
    ensures
        profile == MachineProfile::c64(),
{
    MachineProfile {
        identifier: "c64",
        lines: 25,
        columns: 40,
        character_ram_mapping: CharacterRamMapping::Code,
        color_ram_mapping: Some(ColorRamMapping::Constant(0x01)),
        charset_definition: bundled_layout(),
        charsets: 1,
    }
}

/// KC 87 profile
///
/// Character RAM: 0xec00
/// Color RAM: 0xe800
pub fn kc87_profile() -> (profile: MachineProfile)
    ensures
        profile == MachineProfile::kc87(),
{
    MachineProfile {
        identifier: "kc87",
        lines: 24,
        columns: 40,
        character_ram_mapping: CharacterRamMapping::Code,
        color_ram_mapping: Some(ColorRamMapping::Constant(0b01110000)),
        charset_definition: bundled_layout(),
        charsets: 1,
    }
}

/// Sharp MZ profile
///
/// Character RAM: 0xd000
/// Color RAM: 0xd800
pub fn sharpmz_profile() -> (profile: MachineProfile)
    ensures
        profile == MachineProfile::sharpmz(),
{
    MachineProfile {
        identifier: "sharpmz",
        lines: 25,
        columns: 40,
        character_ram_mapping: CharacterRamMapping::Code,
        color_ram_mapping: Some(ColorRamMapping::ByCharset { primary: 0x07, extended: 0x87 }),
        charset_definition: bundled_layout(),
        charsets: 2,
    }
}

/// Z 1013 Profile
///
/// Character RAM: 0xec00
pub fn z1013_profile() -> (profile: MachineProfile)
    ensures
        profile == MachineProfile::z1013(),
{
    MachineProfile {
        identifier: "z1013",
        lines: 32,
        columns: 32,
        character_ram_mapping: CharacterRamMapping::Code,
        color_ram_mapping: None,
        charset_definition: bundled_layout(),
        charsets: 1,
    }
}

/// The machines of the registry, in its order.
pub open spec fn registry() -> Seq<MachineProfile> {
    seq![
        MachineProfile::c64(),
        MachineProfile::kc87(),
        MachineProfile::sharpmz(),
        MachineProfile::z1013(),
    ]
}

/// The identifiers of the machines of the registry, in its order.
pub open spec fn known_identifiers() -> Seq<Seq<char>> {
    seq!["c64"@, "kc87"@, "sharpmz"@, "z1013"@]
}

/// `identifier` names a machine of the registry.
pub open spec fn is_known(identifier: Seq<char>) -> bool {
    identifier == "c64"@ || identifier == "kc87"@ || identifier == "sharpmz"@ || identifier
        == "z1013"@
}

/// The machine of the registry that `identifier` names.
pub open spec fn registered(identifier: Seq<char>) -> MachineProfile {
    if identifier == "c64"@ {
        MachineProfile::c64()
    } else if identifier == "kc87"@ {
        MachineProfile::kc87()
    } else if identifier == "sharpmz"@ {
        MachineProfile::sharpmz()
    } else {
        MachineProfile::z1013()
    }
}

/// All machines of the registry.
pub fn available_profiles() -> (profiles: Vec<MachineProfile>)
    ensures
        profiles@ == registry(),
{
    let mut profiles: Vec<MachineProfile> = Vec::new();
    profiles.push(c64_profile());
    profiles.push(kc87_profile());
    profiles.push(sharpmz_profile());
    profiles.push(z1013_profile());
    profiles
}

/// The identifiers of all machines of the registry, in its order.
pub fn available_identifiers() -> (identifiers: Vec<&'static str>)
    ensures
        views(identifiers@) == known_identifiers(),
{
    let profiles = available_profiles();
    let mut identifiers: Vec<&'static str> = Vec::new();
    let mut i: usize = 0;
    while i < profiles.len()
        invariant
            i <= profiles@.len(),
            profiles@ == registry(),
            identifiers@.len() == i,
            forall|q: int| 0 <= q < i ==> (#[trigger] identifiers@[q])@ == known_identifiers()[q],
        decreases profiles@.len() - i,
    {
        identifiers.push(profiles[i].identifier);
        i += 1;
    }
    identifiers
}

/// Whether two texts are the same.
pub fn same_text(a: &str, b: &str) -> (same: bool)
    ensures
        same == (a@ == b@),
{
    let x = a.as_bytes();
    let y = b.as_bytes();
    proof {
        encode_utf8_decode_utf8(a@);
        encode_utf8_decode_utf8(b@);
    }
    if x.len() != y.len() {
        return false;
    }
    let mut i: usize = 0;
    while i < x.len()
        invariant
            i <= x@.len(),
            x@.len() == y@.len(),
            forall|q: int| 0 <= q < i ==> x@[q] == y@[q],
            x@ == a.spec_bytes(),
            y@ == b.spec_bytes(),
        decreases x@.len() - i,
    {
        if x[i] != y[i] {
            return false;
        }
        i += 1;
    }
    assert(x@ =~= y@);
    true
}

/// The machine of the registry that `identifier` names.
pub fn find_profile(identifier: &str) -> (found: Option<MachineProfile>)
    ensures
        found == if is_known(identifier@) {
            Some(registered(identifier@))
        } else {
            None
        },
{
    let profiles = available_profiles();
    let mut i: usize = 0;
    while i < profiles.len()
        invariant
            i <= profiles@.len(),
            profiles@ == registry(),
            forall|q: int| 0 <= q < i ==> registry()[q].identifier@ != identifier@,
        decreases profiles@.len() - i,
    {
        if same_text(profiles[i].identifier, identifier) {
            return Some(profiles[i]);
        }
        i += 1;
    }
    None
}

} // verus!
