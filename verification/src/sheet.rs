//! The reference form of a glyph sheet: 16 x 16 glyphs on a grey ground,
//! one pixel of border around every glyph, the low nibble of the code
//! choosing the column.

use vstd::prelude::*;
use vstd::arithmetic::div_mod::lemma_fundamental_div_mod;
use crate::profiles::same_text;
use crate::raster::{
    PixelBlock,
    Raster,
    lemma_blit,
    lemma_crop_beside_blit,
    lemma_crop_of_blit,
    lemma_filled,
};
use crate::seq_util::views;
use crate::utils::{glyph_column, glyph_row, CharsetDefinition, MatrixCharsetOrder};

verus! {

/// The order that the name of an arrangement stands for: `"lr"` for glyphs
/// that run from left to right, `"tb"` for glyphs that run from top to
/// bottom.
pub open spec fn order_of(mode: Seq<char>) -> Option<MatrixCharsetOrder> {
    if mode == "tb"@ {
        Some(MatrixCharsetOrder::RowInLowNibble)
    } else if mode == "lr"@ {
        Some(MatrixCharsetOrder::ColumnInLowNibble)
    } else {
        None
    }
}

/// Reads the name of an arrangement.
pub fn parse_mode(mode: &str) -> (order: Option<MatrixCharsetOrder>)
    ensures
        order == order_of(mode@),
{
    if same_text(mode, "tb") {
        Some(MatrixCharsetOrder::RowInLowNibble)
    } else if same_text(mode, "lr") {
        Some(MatrixCharsetOrder::ColumnInLowNibble)
    } else {
        None
    }
}

/// The layout of a reference sheet for glyphs of the given size.
pub open spec fn reference_layout(width: u32, height: u32) -> CharsetDefinition {
    CharsetDefinition {
        character_width: width,
        character_height: height,
        order: MatrixCharsetOrder::ColumnInLowNibble,
        offset_left: 1,
        offset_top: 1,
        spacing_horizontal: 1,
        spacing_vertical: 1,
    }
}

/// Width of a reference sheet for glyphs of width `width`; its height is
/// the same function of the glyphs' height.
pub open spec fn reference_side(width: u32) -> int {
    1 + (width + 1) * 16
}

/// The reference sheet with the first `n` glyphs drawn.
pub open spec fn sheet_below(width: u32, height: u32, glyphs: Seq<Raster>, n: int) -> Raster
    decreases n,
{
    if n <= 0 {
        Raster::filled(
            reference_side(width) as nat,
            reference_side(height) as nat,
            0x80,
            0x80,
            0x80,
        )
    } else {
        sheet_below(width, height, glyphs, n - 1).blit(
            glyphs[n - 1],
            reference_layout(width, height).glyph_x(n - 1),
            reference_layout(width, height).glyph_y(n - 1),
        )
    }
}

/// The reference sheet of a charset: a grey ground with every glyph drawn
/// at the place of its code.
pub open spec fn reference_sheet(width: u32, height: u32, glyphs: Seq<Raster>) -> Raster {
    sheet_below(width, height, glyphs, glyphs.len() as int)
}

/// `glyphs` are 256 glyphs of the given size.
pub open spec fn is_charset(width: u32, height: u32, glyphs: Seq<Raster>) -> bool {
    &&& glyphs.len() == 256
    &&& forall|c: int|
        0 <= c < 256 ==> (#[trigger] glyphs[c]).wf() && glyphs[c].width == width && glyphs[c].height
            == height
}

/// The frame of a glyph lies inside the reference sheet, and the frames
/// of two glyphs do not touch.
proof fn lemma_reference_frames(width: u32, height: u32, a: int, b: int)
    requires
        0 <= a < 256,
        0 <= b < 256,
    ensures
        1 <= reference_layout(width, height).glyph_x(a),
        1 <= reference_layout(width, height).glyph_y(a),
        reference_layout(width, height).glyph_x(a) + width <= reference_side(width),
        reference_layout(width, height).glyph_y(a) + height <= reference_side(height),
        a != b ==> {
            let def = reference_layout(width, height);
            ||| def.glyph_x(a) + width <= def.glyph_x(b)
            ||| def.glyph_x(b) + width <= def.glyph_x(a)
            ||| def.glyph_y(a) + height <= def.glyph_y(b)
            ||| def.glyph_y(b) + height <= def.glyph_y(a)
        },
{
    let order = MatrixCharsetOrder::ColumnInLowNibble;
    let ca = glyph_column(order, a);
    let ra = glyph_row(order, a);
    let cb = glyph_column(order, b);
    let rb = glyph_row(order, b);
    let dx = width + 1;
    let dy = height + 1;
    assert(0 <= ca * dx && ca * dx + dx <= 16 * dx) by (nonlinear_arith)
        requires
            0 <= ca < 16,
            0 < dx,
    ;
    assert(0 <= ra * dy && ra * dy + dy <= 16 * dy) by (nonlinear_arith)
        requires
            0 <= ra < 16,
            0 < dy,
    ;
    if ca < cb {
        assert(ca * dx + dx <= cb * dx) by (nonlinear_arith)
            requires
                ca < cb,
                0 < dx,
        ;
    }
    if cb < ca {
        assert(cb * dx + dx <= ca * dx) by (nonlinear_arith)
            requires
                cb < ca,
                0 < dx,
        ;
    }
    if ra < rb {
        assert(ra * dy + dy <= rb * dy) by (nonlinear_arith)
            requires
                ra < rb,
                0 < dy,
        ;
    }
    if rb < ra {
        assert(rb * dy + dy <= ra * dy) by (nonlinear_arith)
            requires
                rb < ra,
                0 < dy,
        ;
    }
}

/// The sheet keeps its size while glyphs are drawn, and a glyph that was
/// drawn stays as it is while later glyphs are drawn.
proof fn lemma_sheet_below(width: u32, height: u32, glyphs: Seq<Raster>, n: int, c: int)
    requires
        is_charset(width, height, glyphs),
        0 <= n <= 256,
    ensures
        sheet_below(width, height, glyphs, n).wf(),
        sheet_below(width, height, glyphs, n).width == reference_side(width),
        sheet_below(width, height, glyphs, n).height == reference_side(height),
        0 <= c < n ==> reference_layout(width, height).glyph(
            sheet_below(width, height, glyphs, n),
            c,
        ) == glyphs[c],
    decreases n,
{
    let def = reference_layout(width, height);
    if n > 0 {
        let before = sheet_below(width, height, glyphs, n - 1);
        lemma_sheet_below(width, height, glyphs, n - 1, c);
        let glyph = glyphs[n - 1];
        if 0 <= c < n {
            lemma_reference_frames(width, height, c, n - 1);
            if c == n - 1 {
                lemma_crop_of_blit(before, glyph, def.glyph_x(c), def.glyph_y(c));
            } else {
                lemma_crop_beside_blit(
                    before,
                    glyph,
                    def.glyph_x(n - 1),
                    def.glyph_y(n - 1),
                    def.glyph_x(c),
                    def.glyph_y(c),
                    width as nat,
                    height as nat,
                );
            }
        }
    }
}

/// No frame of a glyph holds a pixel whose place is a multiple of the
/// distance from glyph to glyph.
proof fn lemma_border_outside_frame(side: u32, p: int, c: int)
    requires
        0 <= p,
        p % (side + 1) == 0,
        0 <= c,
    ensures
        p < 1 + c * (side + 1) || 1 + c * (side + 1) + side <= p,
{
    let d = side + 1;
    let k = p / d;
    lemma_fundamental_div_mod(p, d);
    if k <= c {
        assert(d * k <= c * d) by (nonlinear_arith)
            requires
                k <= c,
                0 < d,
        ;
    } else {
        assert(d * k >= c * d + d) by (nonlinear_arith)
            requires
                k >= c + 1,
                0 < d,
        ;
    }
}

/// The lines between the glyphs of a reference sheet are grey: every
/// pixel whose column is a multiple of the glyphs' width plus one, or
/// whose row is a multiple of their height plus one.
pub proof fn lemma_reference_sheet_border(
    width: u32,
    height: u32,
    glyphs: Seq<Raster>,
    n: int,
    x: int,
    y: int,
    ch: int,
)
    requires
        is_charset(width, height, glyphs),
        0 <= n <= 256,
        0 <= x < reference_side(width),
        0 <= y < reference_side(height),
        0 <= ch < 3,
        x % (width + 1) == 0 || y % (height + 1) == 0,
    ensures
        sheet_below(width, height, glyphs, n).at(x, y, ch) == 0x80,
    decreases n,
{
    let def = reference_layout(width, height);
    if n == 0 {
        lemma_filled(
            reference_side(width) as nat,
            reference_side(height) as nat,
            0x80,
            0x80,
            0x80,
        );
    } else {
        let before = sheet_below(width, height, glyphs, n - 1);
        lemma_reference_sheet_border(width, height, glyphs, n - 1, x, y, ch);
        lemma_sheet_below(width, height, glyphs, n - 1, 0);
        lemma_blit(before, glyphs[n - 1], def.glyph_x(n - 1), def.glyph_y(n - 1));
        if x % (width + 1) == 0 {
            lemma_border_outside_frame(width, x, glyph_column(def.order, n - 1));
        } else {
            lemma_border_outside_frame(height, y, glyph_row(def.order, n - 1));
        }
    }
}

/// Cutting the reference sheet of a charset gives the charset back.
pub proof fn lemma_reference_sheet_round_trip(width: u32, height: u32, glyphs: Seq<Raster>)
    requires
        is_charset(width, height, glyphs),
    ensures
        reference_sheet(width, height, glyphs).wf(),
        reference_layout(width, height).fits(reference_sheet(width, height, glyphs)),
        reference_layout(width, height).charset(reference_sheet(width, height, glyphs)) == glyphs,
{
    let def = reference_layout(width, height);
    let sheet = reference_sheet(width, height, glyphs);
    lemma_sheet_below(width, height, glyphs, 256, 0);
    assert(15 * (width + 1) + width + 1 == (width + 1) * 16) by (nonlinear_arith);
    assert(15 * (height + 1) + height + 1 == (height + 1) * 16) by (nonlinear_arith);
    assert forall|c: int| 0 <= c < 256 implies def.charset(sheet)[c] == glyphs[c] by {
        lemma_sheet_below(width, height, glyphs, 256, c);
    }
}

/// Draws the reference sheet of a charset.
pub fn compose_sheet(width: u32, height: u32, charset: &Vec<PixelBlock>) -> (sheet: PixelBlock)
    requires
        is_charset(width, height, views(charset@)),
        reference_side(width) <= u32::MAX,
        reference_side(height) <= u32::MAX,
        reference_side(width) * reference_side(height) * 3 <= usize::MAX,
    ensures
        sheet@ == reference_sheet(width, height, views(charset@)),
        sheet@.wf(),
{
    let ghost glyphs = views(charset@);
    let mut output = PixelBlock::from_pixel(
        1 + (width + 1) * 16,
        1 + (height + 1) * 16,
        (0x80, 0x80, 0x80),
    );

    let mut index: usize = 0;
    while index < charset.len()
        invariant
            index <= 256,
            charset@.len() == 256,
            glyphs == views(charset@),
            is_charset(width, height, glyphs),
            reference_side(width) <= u32::MAX,
            reference_side(height) <= u32::MAX,
            output@ == sheet_below(width, height, glyphs, index as int),
        decreases 256 - index,
    {
        let character = &charset[index];
        let row: u32 = index as u32 / 16;
        let column: u32 = index as u32 % 16;
        proof {
            lemma_sheet_below(width, height, glyphs, index as int, 0);
            lemma_reference_frames(width, height, index as int, index as int);
            assert(glyphs[index as int] == character@);
        }
        let x: u32 = 1 + column * (width + 1);
        let y: u32 = 1 + row * (height + 1);
        output.copy_from(character, x, y);
        index += 1;
    }

    output
}

} // verus!
