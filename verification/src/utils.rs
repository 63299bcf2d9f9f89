//! The distance between two pixel blocks, and the cutting of a glyph sheet
//! into the 256 glyphs of a charset.

use vstd::prelude::*;
use crate::raster::{PixelBlock, Raster};
use crate::seq_util::views;

verus! {

/// How the two halves of a character code choose a glyph's place on the sheet.
#[derive(Clone, Copy, Debug, PartialEq, Eq, Structural)]
pub enum MatrixCharsetOrder {
    /// The low nibble is the row, the high nibble the column.
    RowInLowNibble,
    /// The low nibble is the column, the high nibble the row.
    ColumnInLowNibble,
}

/// The geometry of a glyph sheet: 16 x 16 glyphs of one size, laid out on a
/// grid that starts at an offset and leaves a gap between neighbours.
#[derive(Clone, Copy, Debug)]
pub struct CharsetDefinition {
    pub character_width: u32,
    pub character_height: u32,
    pub order: MatrixCharsetOrder,
    pub offset_left: u32,
    pub offset_top: u32,
    pub spacing_horizontal: u32,
    pub spacing_vertical: u32,
}

/// Number of glyphs in a charset.
pub const CHARSET_SIZE: usize = 256;

/// `|a - b|`.
pub open spec fn abs_diff(a: u8, b: u8) -> int {
    if a >= b {
        a - b
    } else {
        b - a
    }
}

/// Sum of the absolute differences of two byte sequences, position by position.
pub open spec fn diff_sum(a: Seq<u8>, b: Seq<u8>) -> int
    decreases a.len(),
{
    if a.len() == 0 {
        0
    } else {
        diff_sum(a.drop_last(), b.drop_last()) + abs_diff(a.last(), b.last())
    }
}

/// The distance between two rasters of one size: the sum over all pixels of
/// the absolute differences of the three channels, divided by the number of
/// pixels, rounded down.
pub open spec fn image_diff_spec(a: Raster, b: Raster) -> int {
    diff_sum(a.data, b.data) / ((a.width * a.height) as int)
}

/// The row of the sheet's grid in which the glyph of `code` stands.
pub open spec fn glyph_row(order: MatrixCharsetOrder, code: int) -> int {
    match order {
        MatrixCharsetOrder::RowInLowNibble => code % 16,
        MatrixCharsetOrder::ColumnInLowNibble => code / 16,
    }
}

/// The column of the sheet's grid in which the glyph of `code` stands.
pub open spec fn glyph_column(order: MatrixCharsetOrder, code: int) -> int {
    match order {
        MatrixCharsetOrder::RowInLowNibble => code / 16,
        MatrixCharsetOrder::ColumnInLowNibble => code % 16,
    }
}

impl CharsetDefinition {
    /// Left edge of the glyph of `code` on the sheet.
    pub open spec fn glyph_x(self, code: int) -> int {
        self.offset_left + glyph_column(self.order, code) * (self.character_width
            + self.spacing_horizontal)
    }

    /// Top edge of the glyph of `code` on the sheet.
    pub open spec fn glyph_y(self, code: int) -> int {
        self.offset_top + glyph_row(self.order, code) * (self.character_height
            + self.spacing_vertical)
    }

    /// The sheet is large enough for the glyph in the last row and column.
    pub open spec fn fits(self, sheet: Raster) -> bool {
        &&& self.offset_left + 15 * (self.character_width + self.spacing_horizontal)
            + self.character_width <= sheet.width
        &&& self.offset_top + 15 * (self.character_height + self.spacing_vertical)
            + self.character_height <= sheet.height
    }

    /// The glyph of `code` as it stands on `sheet`.
    pub open spec fn glyph(self, sheet: Raster, code: int) -> Raster {
        sheet.crop(
            self.glyph_x(code),
            self.glyph_y(code),
            self.character_width as nat,
            self.character_height as nat,
        )
    }

    /// The 256 glyphs of `sheet`, by code.
    pub open spec fn charset(self, sheet: Raster) -> Seq<Raster> {
        Seq::new(CHARSET_SIZE as nat, |code: int| self.glyph(sheet, code))
    }

    /// On a sheet that fits, the frame of every glyph lies inside the sheet.
    pub proof fn lemma_fits(self, sheet: Raster, code: int)
        requires
            self.fits(sheet),
            0 <= code < 256,
        ensures
            0 <= glyph_column(self.order, code) < 16,
            0 <= glyph_row(self.order, code) < 16,
            self.offset_left <= self.glyph_x(code),
            self.offset_top <= self.glyph_y(code),
            self.glyph_x(code) + self.character_width <= sheet.width,
            self.glyph_y(code) + self.character_height <= sheet.height,
    {
        let c = glyph_column(self.order, code);
        let r = glyph_row(self.order, code);
        let dx = self.character_width + self.spacing_horizontal;
        let dy = self.character_height + self.spacing_vertical;
        assert(0 <= c * dx <= 15 * dx) by (nonlinear_arith)
            requires
                0 <= c <= 15,
                0 <= dx,
        ;
        assert(0 <= r * dy <= 15 * dy) by (nonlinear_arith)
            requires
                0 <= r <= 15,
                0 <= dy,
        ;
    }

    /// Whether `sheet` is large enough for all 256 glyphs.
    pub fn sheet_fits(&self, sheet: &PixelBlock) -> (ok: bool)
        ensures
            ok == self.fits(sheet@),
    {
        let dx: u64 = self.character_width as u64 + self.spacing_horizontal as u64;
        let dy: u64 = self.character_height as u64 + self.spacing_vertical as u64;
        let right: u64 = self.offset_left as u64 + 15 * dx + self.character_width as u64;
        let bottom: u64 = self.offset_top as u64 + 15 * dy + self.character_height as u64;
        right <= sheet.width() as u64 && bottom <= sheet.height() as u64
    }
}

/// The distance of a byte sequence to itself is zero.
pub proof fn lemma_diff_sum_self(a: Seq<u8>)
    ensures
        diff_sum(a, a) == 0,
    decreases a.len(),
{
    if a.len() > 0 {
        lemma_diff_sum_self(a.drop_last());
    }
}

/// The summed difference does not depend on the order of its arguments.
pub proof fn lemma_diff_sum_symmetric(a: Seq<u8>, b: Seq<u8>)
    requires
        a.len() == b.len(),
    ensures
        diff_sum(a, b) == diff_sum(b, a),
    decreases a.len(),
{
    if a.len() > 0 {
        lemma_diff_sum_symmetric(a.drop_last(), b.drop_last());
    }
}

/// Each position adds between 0 and 255 to the summed difference.
pub proof fn lemma_diff_sum_bounds(a: Seq<u8>, b: Seq<u8>)
    requires
        a.len() == b.len(),
    ensures
        0 <= diff_sum(a, b) <= 255 * a.len(),
    decreases a.len(),
{
    if a.len() > 0 {
        lemma_diff_sum_bounds(a.drop_last(), b.drop_last());
    }
}

/// The distance of a non-empty raster to itself is zero.
pub proof fn lemma_image_diff_self(a: Raster)
    requires
        a.width > 0,
        a.height > 0,
    ensures
        image_diff_spec(a, a) == 0,
{
    lemma_diff_sum_self(a.data);
    let n = (a.width * a.height) as int;
    assert(n > 0 && 0int / n == 0) by (nonlinear_arith)
        requires
            n == a.width * a.height,
            a.width > 0,
            a.height > 0,
    ;
}

/// The distance between two rasters of one size does not depend on their order.
pub proof fn lemma_image_diff_symmetric(a: Raster, b: Raster)
    requires
        a.wf(),
        b.wf(),
        a.width == b.width,
        a.height == b.height,
    ensures
        image_diff_spec(a, b) == image_diff_spec(b, a),
{
    lemma_diff_sum_symmetric(a.data, b.data);
}

/// The distance between two non-empty rasters of one size is at most 3 * 255.
pub proof fn lemma_image_diff_bounds(a: Raster, b: Raster)
    requires
        a.wf(),
        b.wf(),
        a.width == b.width,
        a.height == b.height,
        a.width > 0,
        a.height > 0,
    ensures
        0 <= image_diff_spec(a, b) <= 765,
{
    lemma_diff_sum_bounds(a.data, b.data);
    let n = (a.width * a.height) as int;
    let s = diff_sum(a.data, b.data);
    assert(n > 0) by (nonlinear_arith)
        requires
            n == a.width * a.height,
            a.width > 0,
            a.height > 0,
    ;
    assert(0 <= s / n <= 765) by (nonlinear_arith)
        requires
            0 <= s <= 255 * (n * 3),
            n > 0,
    ;
}

/// The distance between two blocks of one size.
pub fn image_diff(a: &PixelBlock, b: &PixelBlock) -> (diff: u32)
    requires
        a@.wf(),
        b@.wf(),
        a@.width == b@.width,
        a@.height == b@.height,
        a@.width > 0,
        a@.height > 0,
    ensures
        diff == image_diff_spec(a@, b@),
        diff <= 765,
{
    let da = a.as_raw();
    let db = b.as_raw();
    let len: usize = da.len();
    let mut sum: u128 = 0;
    let mut i: usize = 0;
    while i < len
        invariant
            i <= len,
            len == da@.len(),
            len == db@.len(),
            sum == diff_sum(da@.take(i as int), db@.take(i as int)),
            sum <= 255 * i,
        decreases len - i,
    {
        let x: u8 = da[i];
        let y: u8 = db[i];
        let d: u8 = if x >= y {
            x - y
        } else {
            y - x
        };
        proof {
            assert(da@.take(i + 1).drop_last() =~= da@.take(i as int));
            assert(db@.take(i + 1).drop_last() =~= db@.take(i as int));
        }
        sum = sum + d as u128;
        i += 1;
    }
    proof {
        assert(da@.take(len as int) =~= da@);
        assert(db@.take(len as int) =~= db@);
        lemma_image_diff_bounds(a@, b@);
        assert(a@.width * a@.height > 0) by (nonlinear_arith)
            requires
                a@.width > 0,
                a@.height > 0,
        ;
    }
    let pixels: u128 = a.width() as u128 * a.height() as u128;
    (sum / pixels) as u32
}

/// The RGB pixels that a PNG file decodes to: width, height, and the
/// row-major RGB bytes; `None` where the bytes are no PNG image that the
/// decoder accepts.
pub uninterp spec fn png_rgb8(data: Seq<u8>) -> Option<(u32, u32, Seq<u8>)>;

/// Decodes a PNG file held in memory with `image::ImageReader::decode`
/// (the format fixed to PNG by `ImageReader::with_format`) and reduces it to
/// 8-bit RGB with `DynamicImage::into_rgb8`.
///
/// Trusted: the result is `png_rgb8` of the bytes, that is, decoding depends
/// on the bytes alone. `None` stands for any error of the decoder.
#[verifier::external_body]
fn decode_png(data: &[u8]) -> (decoded: Option<(u32, u32, Vec<u8>)>)
    ensures
        match decoded {
            Some((width, height, raw)) => png_rgb8(data@) == Some((width, height, raw@)),
            None => png_rgb8(data@) is None,
        },
{
    let reader = image::ImageReader::with_format(
        std::io::Cursor::new(data),
        image::ImageFormat::Png,
    );
    match reader.decode() {
        Ok(decoded) => {
            let rgb = decoded.into_rgb8();
            Some((rgb.width(), rgb.height(), rgb.into_raw()))
        },
        Err(_) => None,
    }
}

/// The raster that a PNG file decodes to, where it decodes to one.
pub open spec fn decoded_sheet(data: Seq<u8>) -> Option<Raster> {
    match png_rgb8(data) {
        Some((width, height, raw)) => if raw.len() == width * height * 3 {
            Some(Raster { width: width as nat, height: height as nat, data: raw })
        } else {
            None
        },
        None => None,
    }
}

/// Decodes a PNG file held in memory into a block of RGB pixels.
pub fn decode_sheet(data: &[u8]) -> (sheet: Option<PixelBlock>)
    ensures
        match sheet {
            Some(block) => decoded_sheet(data@) == Some(block@) && block@.wf(),
            None => decoded_sheet(data@) is None,
        },
{
    match decode_png(data) {
        Some((width, height, raw)) => PixelBlock::from_raw(width, height, raw),
        None => None,
    }
}

/// A PNG file is a usable glyph sheet for a layout: it decodes, and holds
/// all 256 glyphs.
pub open spec fn loadable(data: Seq<u8>, def: CharsetDefinition) -> bool {
    decoded_sheet(data) matches Some(sheet) && def.fits(sheet)
}

/// Cuts a glyph sheet into its 256 glyphs, by code.
pub fn slice_charset(sheet: &PixelBlock, def: &CharsetDefinition) -> (glyphs: Vec<PixelBlock>)
    requires
        sheet@.wf(),
        def.fits(sheet@),
    ensures
        views(glyphs@) == def.charset(sheet@),
        glyphs@.len() == CHARSET_SIZE,
        forall|code: int| 0 <= code < 256 ==> (#[trigger] glyphs@[code])@.wf(),
{
    let mut glyphs: Vec<PixelBlock> = Vec::new();
    let mut code: u32 = 0;
    while code < 256
        invariant
            code <= 256,
            sheet@.wf(),
            def.fits(sheet@),
            glyphs@.len() == code,
            forall|c: int| 0 <= c < code ==> (#[trigger] glyphs@[c])@ == def.glyph(sheet@, c),
            forall|c: int| 0 <= c < code ==> (#[trigger] glyphs@[c])@.wf(),
        decreases 256 - code,
    {
        let high: u32 = code >> 4;
        let low: u32 = code & 0x0f;
        assert(high == code / 16 && low == code % 16) by (bit_vector)
            requires
                high == code >> 4,
                low == code & 0x0f,
        ;
        let (row, column) = match def.order {
            MatrixCharsetOrder::RowInLowNibble => (low, high),
            MatrixCharsetOrder::ColumnInLowNibble => (high, low),
        };
        proof {
            def.lemma_fits(sheet@, code as int);
            sheet.lemma_view_bounds();
        }
        let x: u32 = def.offset_left + column * (def.character_width + def.spacing_horizontal);
        let y: u32 = def.offset_top + row * (def.character_height + def.spacing_vertical);
        let glyph = sheet.crop(x, y, def.character_width, def.character_height);
        glyphs.push(glyph);
        code += 1;
    }
    glyphs
}

/// Loads a charset from a PNG glyph sheet held in memory: `None` where the
/// bytes do not decode or the sheet is too small for the layout.
pub fn load_charset(charset_data: &[u8], def: &CharsetDefinition) -> (loaded: Option<
    Vec<PixelBlock>,
>)
    ensures
        loaded is Some <==> loadable(charset_data@, *def),
        loaded matches Some(glyphs) ==> {
            &&& views(glyphs@) == def.charset(decoded_sheet(charset_data@).unwrap())
            &&& glyphs@.len() == CHARSET_SIZE
            &&& forall|code: int| 0 <= code < 256 ==> (#[trigger] glyphs@[code])@.wf()
        },
{
    match decode_sheet(charset_data) {
        Some(sheet) => {
            if def.sheet_fits(&sheet) {
                Some(slice_charset(&sheet, def))
            } else {
                None
            }
        },
        None => None,
    }
}

/// Cutting a sheet and cutting the same frame again give the same glyph:
/// the glyph of every code is the window of the sheet at the place the
/// layout computes for it, of the layout's glyph size.
pub proof fn lemma_charset_recrop(def: CharsetDefinition, sheet: Raster, code: int)
    requires
        0 <= code < 256,
    ensures
        def.charset(sheet).len() == 256,
        def.charset(sheet)[code] == sheet.crop(
            def.glyph_x(code),
            def.glyph_y(code),
            def.character_width as nat,
            def.character_height as nat,
        ),
        def.charset(sheet)[code].wf(),
        def.charset(sheet)[code].width == def.character_width,
        def.charset(sheet)[code].height == def.character_height,
{
}

} // verus!
