//! The screen as a grid of tiles: where each tile lies in an image, which
//! glyph matches a tile best, and the image that a screen of glyphs shows.

use vstd::prelude::*;
use vstd::arithmetic::div_mod::{lemma_fundamental_div_mod, lemma_fundamental_div_mod_converse};
use crate::charset::ScreenProfile;
use crate::profiles::Character;
use crate::raster::{
    PixelBlock,
    Raster,
    lemma_crop,
    lemma_from_fn,
    lemma_from_fn_ext,
    lemma_raster_ext,
};
use crate::seq_util::{
    first_min,
    is_first_min,
    lemma_first_min_exists,
    lemma_first_min_is,
    views,
};
use crate::utils::{image_diff, image_diff_spec, lemma_image_diff_bounds, lemma_image_diff_self};

verus! {

impl ScreenProfile {
    /// The screen has tiles, and its sides in pixels fit in `u32`.
    pub open spec fn wf(self) -> bool {
        &&& self.character_width > 0
        &&& self.character_height > 0
        &&& self.columns * self.character_width <= u32::MAX
        &&& self.lines * self.character_height <= u32::MAX
    }

    /// Width of the screen in pixels.
    pub open spec fn screen_width(self) -> int {
        self.columns * self.character_width
    }

    /// Height of the screen in pixels.
    pub open spec fn screen_height(self) -> int {
        self.lines * self.character_height
    }

    /// Number of tiles of the screen.
    pub open spec fn tile_count(self) -> int {
        self.lines * self.columns
    }

    /// The image is at least as large as the screen.
    pub open spec fn fits(self, img: Raster) -> bool {
        self.screen_width() <= img.width && self.screen_height() <= img.height
    }

    /// Left edge of tile `t`; tiles are counted line by line.
    pub open spec fn tile_x(self, t: int) -> int {
        (t % (self.columns as int)) * self.character_width
    }

    /// Top edge of tile `t`.
    pub open spec fn tile_y(self, t: int) -> int {
        (t / (self.columns as int)) * self.character_height
    }

    /// Tile `t` of the image.
    pub open spec fn tile(self, img: Raster, t: int) -> Raster {
        img.crop(
            self.tile_x(t),
            self.tile_y(t),
            self.character_width as nat,
            self.character_height as nat,
        )
    }

    /// The tiles of the image, line by line.
    pub open spec fn tiles(self, img: Raster) -> Seq<Raster> {
        Seq::new(self.tile_count() as nat, |t: int| self.tile(img, t))
    }

    /// `glyph` has the size of a tile.
    pub open spec fn is_glyph(self, glyph: Raster) -> bool {
        glyph.wf() && glyph.width == self.character_width && glyph.height == self.character_height
    }

    /// Every charset holds 256 glyphs of the size of a tile.
    pub open spec fn are_charsets(self, charsets: Seq<Seq<Raster>>) -> bool {
        &&& 0 < charsets.len() <= u32::MAX
        &&& forall|s: int| 0 <= s < charsets.len() ==> (#[trigger] charsets[s]).len() == 256
        &&& forall|s: int, c: int|
            0 <= s < charsets.len() && 0 <= c < 256 ==> self.is_glyph(#[trigger] charsets[s][c])
    }

    /// The tile that pixel `(x, y)` of the screen belongs to.
    pub open spec fn tile_at(self, x: int, y: int) -> int {
        (y / (self.character_height as int)) * self.columns + x / (self.character_width as int)
    }

    /// The glyphs of the screen that `characters` describes, drawn at their tiles.
    pub open spec fn preview(
        self,
        charsets: Seq<Seq<Raster>>,
        characters: Seq<Character>,
    ) -> Raster {
        Raster::from_fn(
            self.screen_width() as nat,
            self.screen_height() as nat,
            |x: int, y: int, ch: int|
                glyph_of(charsets, characters[self.tile_at(x, y)]).at(
                    x % (self.character_width as int),
                    y % (self.character_height as int),
                    ch,
                ),
        )
    }

    /// The preview with the first `n` tiles drawn, and the rest black.
    pub open spec fn preview_below(
        self,
        charsets: Seq<Seq<Raster>>,
        characters: Seq<Character>,
        n: int,
    ) -> Raster {
        Raster::from_fn(
            self.screen_width() as nat,
            self.screen_height() as nat,
            |x: int, y: int, ch: int|
                if self.tile_at(x, y) < n {
                    glyph_of(charsets, characters[self.tile_at(x, y)]).at(
                        x % (self.character_width as int),
                        y % (self.character_height as int),
                        ch,
                    )
                } else {
                    0u8
                },
        )
    }

    /// The glyph that matches each tile of the image best, line by line.
    pub open spec fn matched(self, charsets: Seq<Seq<Raster>>, img: Raster) -> Seq<Character> {
        Seq::new(self.tile_count() as nat, |t: int| best_match(charsets, self.tile(img, t)))
    }
}

/// Place of a glyph in the order in which the charsets are searched:
/// charset by charset, each by ascending code.
pub open spec fn position(character: Character) -> int {
    character.charset * 256 + character.code
}

/// The glyph that `character` names.
pub open spec fn glyph_of(charsets: Seq<Seq<Raster>>, character: Character) -> Raster {
    charsets[character.charset as int][character.code as int]
}

/// `character` names a glyph of `charsets`.
pub open spec fn is_character(charsets: Seq<Seq<Raster>>, character: Character) -> bool {
    character.charset < charsets.len()
}

/// The distances of `tile` to every glyph, in the order of the search.
pub open spec fn scan(charsets: Seq<Seq<Raster>>, tile: Raster) -> Seq<int> {
    Seq::new(charsets.len() * 256, |q: int| image_diff_spec(tile, charsets[q / 256][q % 256]))
}

/// The glyph nearest to `tile`: of several at the same least distance, the
/// first in the order of the search.
pub open spec fn best_match(charsets: Seq<Seq<Raster>>, tile: Raster) -> Character {
    let q = first_min(scan(charsets, tile));
    Character { charset: (q / 256) as u32, code: (q % 256) as u8 }
}

/// No glyph that is searched before `character` lies at distance 0 from
/// the glyph of `character`.
pub open spec fn no_earlier_twin(charsets: Seq<Seq<Raster>>, character: Character) -> bool {
    forall|q: int|
        0 <= q < position(character) ==> #[trigger] scan(charsets, glyph_of(charsets, character))[q]
            != 0
}

/// A tile of a screen that fits into the image lies inside the image.
pub proof fn lemma_tile_in_image(p: ScreenProfile, img: Raster, t: int)
    requires
        p.fits(img),
        0 <= t < p.tile_count(),
    ensures
        p.columns > 0,
        0 <= t % (p.columns as int) < p.columns,
        0 <= t / (p.columns as int) < p.lines,
        0 <= p.tile_x(t),
        0 <= p.tile_y(t),
        p.tile_x(t) + p.character_width <= p.screen_width() <= img.width,
        p.tile_y(t) + p.character_height <= p.screen_height() <= img.height,
{
    let cols = p.columns as int;
    let lines = p.lines as int;
    let w = p.character_width as int;
    let h = p.character_height as int;
    lemma_fundamental_div_mod(t, cols);
    let col = t % cols;
    let row = t / cols;
    assert(0 <= row < lines) by (nonlinear_arith)
        requires
            0 <= cols * row + col < lines * cols,
            0 <= col < cols,
    ;
    assert(0 <= col * w && col * w + w <= cols * w) by (nonlinear_arith)
        requires
            0 <= col < cols,
            0 <= w,
    ;
    assert(0 <= row * h && row * h + h <= lines * h) by (nonlinear_arith)
        requires
            0 <= row < lines,
            0 <= h,
    ;
}

/// The best match is a glyph of the charsets, and no glyph lies nearer to
/// the tile; of the glyphs before it, every one lies farther away.
pub proof fn lemma_best_match(p: ScreenProfile, charsets: Seq<Seq<Raster>>, tile: Raster)
    requires
        p.are_charsets(charsets),
    ensures
        is_character(charsets, best_match(charsets, tile)),
        position(best_match(charsets, tile)) == first_min(scan(charsets, tile)),
        is_first_min(scan(charsets, tile), position(best_match(charsets, tile))),
{
    let s = scan(charsets, tile);
    lemma_first_min_exists(s);
}

/// A glyph matches itself: the best match of a glyph of the charsets lies
/// at distance 0 from it, and is that very glyph unless an earlier glyph
/// lies at distance 0 from it too.
pub proof fn lemma_match_of_glyph(
    p: ScreenProfile,
    charsets: Seq<Seq<Raster>>,
    character: Character,
)
    requires
        p.wf(),
        p.are_charsets(charsets),
        is_character(charsets, character),
    ensures
        image_diff_spec(
            glyph_of(charsets, character),
            glyph_of(charsets, best_match(charsets, glyph_of(charsets, character))),
        ) == 0,
        no_earlier_twin(charsets, character) <==> best_match(
            charsets,
            glyph_of(charsets, character),
        ) == character,
{
    let glyph = glyph_of(charsets, character);
    let s = scan(charsets, glyph);
    let here = position(character);
    lemma_best_match(p, charsets, glyph);
    let found = first_min(s);
    lemma_image_diff_self(glyph);
    lemma_image_diff_bounds(glyph, charsets[found / 256][found % 256]);
    assert(s[found] <= s[here]);
}

/// The tile of a preview shows the glyph that was drawn there.
pub proof fn lemma_preview_tile(
    p: ScreenProfile,
    charsets: Seq<Seq<Raster>>,
    characters: Seq<Character>,
    t: int,
)
    requires
        p.wf(),
        p.are_charsets(charsets),
        characters.len() == p.tile_count(),
        forall|i: int|
            0 <= i < characters.len() ==> is_character(charsets, #[trigger] characters[i]),
        0 <= t < p.tile_count(),
    ensures
        p.tile(p.preview(charsets, characters), t) == glyph_of(charsets, characters[t]),
{
    let img = p.preview(charsets, characters);
    let cols = p.columns as int;
    let w = p.character_width as int;
    let h = p.character_height as int;
    let f = |x: int, y: int, ch: int|
        glyph_of(charsets, characters[p.tile_at(x, y)]).at(x % w, y % h, ch);
    lemma_from_fn(p.screen_width() as nat, p.screen_height() as nat, f);
    lemma_tile_in_image(p, img, t);
    let col = t % cols;
    let row = t / cols;
    lemma_fundamental_div_mod(t, cols);
    let x0 = p.tile_x(t);
    let y0 = p.tile_y(t);
    let tile = p.tile(img, t);
    lemma_crop(img, x0, y0, w as nat, h as nat);
    let glyph = glyph_of(charsets, characters[t]);
    assert forall|x: int, y: int, ch: int|
        0 <= x < tile.width && 0 <= y < tile.height && 0 <= ch < 3 implies #[trigger] tile.at(
        x,
        y,
        ch,
    ) == glyph.at(x, y, ch) by {
        lemma_fundamental_div_mod_converse(x0 + x, w, col, x);
        lemma_fundamental_div_mod_converse(y0 + y, h, row, y);
    }
    lemma_raster_ext(tile, glyph);
}

/// Matching an image that was put together from glyphs finds those
/// glyphs again: the glyph matched to every tile lies at distance 0 from
/// the tile, and is the very glyph of that tile unless an earlier glyph of
/// the charsets lies at distance 0 from it too.
pub proof fn lemma_match_of_composition(
    p: ScreenProfile,
    charsets: Seq<Seq<Raster>>,
    characters: Seq<Character>,
    img: Raster,
    t: int,
)
    requires
        p.wf(),
        p.are_charsets(charsets),
        characters.len() == p.tile_count(),
        forall|i: int|
            0 <= i < characters.len() ==> is_character(charsets, #[trigger] characters[i]),
        forall|i: int|
            0 <= i < characters.len() ==> #[trigger] p.tile(img, i) == glyph_of(
                charsets,
                characters[i],
            ),
        0 <= t < p.tile_count(),
    ensures
        p.matched(charsets, img).len() == p.tile_count(),
        image_diff_spec(p.tile(img, t), glyph_of(charsets, p.matched(charsets, img)[t])) == 0,
        no_earlier_twin(charsets, characters[t]) <==> p.matched(charsets, img)[t] == characters[t],
{
    lemma_match_of_glyph(p, charsets, characters[t]);
}

/// Matching is idempotent: the preview of a converted image is matched by
/// the same glyphs as the image, tile by tile, as long as no glyph that was
/// matched has an earlier glyph at distance 0 from it.
pub proof fn lemma_rematch_preview(
    p: ScreenProfile,
    charsets: Seq<Seq<Raster>>,
    img: Raster,
)
    requires
        p.wf(),
        p.are_charsets(charsets),
        forall|t: int|
            0 <= t < p.tile_count() ==> no_earlier_twin(
                charsets,
                #[trigger] p.matched(charsets, img)[t],
            ),
    ensures
        p.matched(charsets, p.preview(charsets, p.matched(charsets, img))) == p.matched(
            charsets,
            img,
        ),
{
    let characters = p.matched(charsets, img);
    let again = p.matched(charsets, p.preview(charsets, characters));
    assert forall|i: int| 0 <= i < characters.len() implies is_character(
        charsets,
        #[trigger] characters[i],
    ) by {
        lemma_best_match(p, charsets, p.tile(img, i));
    }
    assert forall|t: int| 0 <= t < characters.len() implies again[t] == characters[t] by {
        lemma_preview_tile(p, charsets, characters, t);
        lemma_match_of_glyph(p, charsets, characters[t]);
    }
}

/// A pixel lies in column `c` of a grid of cells of width `w` exactly if it
/// lies between the edges of that column.
pub proof fn lemma_cell(x: int, w: int, c: int)
    requires
        w > 0,
        0 <= x,
    ensures
        (c * w <= x < c * w + w) <==> x / w == c,
        x / w == c ==> x % w == x - c * w,
        0 <= x / w,
{
    lemma_fundamental_div_mod(x, w);
    assert(w * (x / w) == (x / w) * w) by (nonlinear_arith);
    if c * w <= x < c * w + w {
        lemma_fundamental_div_mod_converse(x, w, c, x - c * w);
    }
}

/// Every pixel of the screen belongs to one of its tiles, and to that tile
/// only if it lies in the tile's line and column.
pub proof fn lemma_tile_at(p: ScreenProfile, x: int, y: int, t: int)
    requires
        p.wf(),
        0 <= x < p.screen_width(),
        0 <= y < p.screen_height(),
        0 <= t < p.tile_count(),
    ensures
        0 <= p.tile_at(x, y) < p.tile_count(),
        p.tile_at(x, y) == t <==> (p.tile_x(t) <= x < p.tile_x(t) + p.character_width && p.tile_y(
            t,
        ) <= y < p.tile_y(t) + p.character_height),
        p.tile_at(x, y) == t ==> x % (p.character_width as int) == x - p.tile_x(t) && y % (
        p.character_height as int) == y - p.tile_y(t),
{
    let cols = p.columns as int;
    let lines = p.lines as int;
    let w = p.character_width as int;
    let h = p.character_height as int;
    let c = x / w;
    let r = y / h;
    lemma_cell(x, w, c);
    lemma_cell(y, h, r);
    assert(c < cols) by (nonlinear_arith)
        requires
            c * w <= x,
            x < cols * w,
            w > 0,
    ;
    assert(r < lines) by (nonlinear_arith)
        requires
            r * h <= y,
            y < lines * h,
            h > 0,
    ;
    assert(0 <= r * cols + c < lines * cols) by (nonlinear_arith)
        requires
            0 <= c < cols,
            0 <= r < lines,
    ;
    lemma_fundamental_div_mod_converse(r * cols + c, cols, r, c);
    lemma_fundamental_div_mod(t, cols);
    let col = t % cols;
    let row = t / cols;
    assert(cols * row == row * cols) by (nonlinear_arith);
    lemma_cell(x, w, col);
    lemma_cell(y, h, row);
}

/// Drawing starts from a black screen.
pub proof fn lemma_preview_start(
    p: ScreenProfile,
    charsets: Seq<Seq<Raster>>,
    characters: Seq<Character>,
)
    requires
        p.wf(),
    ensures
        p.preview_below(charsets, characters, 0) == Raster::filled(
            p.screen_width() as nat,
            p.screen_height() as nat,
            0,
            0,
            0,
        ),
{
    let w = p.character_width as int;
    let h = p.character_height as int;
    let f = |x: int, y: int, ch: int|
        if p.tile_at(x, y) < 0 {
            glyph_of(charsets, characters[p.tile_at(x, y)]).at(x % w, y % h, ch)
        } else {
            0u8
        };
    let black = Raster::filled(p.screen_width() as nat, p.screen_height() as nat, 0, 0, 0);
    let start = p.preview_below(charsets, characters, 0);
    lemma_from_fn(p.screen_width() as nat, p.screen_height() as nat, f);
    crate::raster::lemma_filled(p.screen_width() as nat, p.screen_height() as nat, 0, 0, 0);
    lemma_raster_ext(start, black);
}

/// Drawing the glyph of tile `t` over the preview of the tiles before it
/// gives the preview of the tiles up to `t`.
pub proof fn lemma_preview_step(
    p: ScreenProfile,
    charsets: Seq<Seq<Raster>>,
    characters: Seq<Character>,
    t: int,
)
    requires
        p.wf(),
        p.are_charsets(charsets),
        characters.len() == p.tile_count(),
        is_character(charsets, characters[t]),
        0 <= t < p.tile_count(),
    ensures
        p.preview_below(charsets, characters, t).blit(
            glyph_of(charsets, characters[t]),
            p.tile_x(t),
            p.tile_y(t),
        ) == p.preview_below(charsets, characters, t + 1),
        p.preview_below(charsets, characters, t).wf(),
        p.preview_below(charsets, characters, t).width == p.screen_width(),
        p.preview_below(charsets, characters, t).height == p.screen_height(),
{
    let w = p.character_width as int;
    let h = p.character_height as int;
    let sw = p.screen_width() as nat;
    let sh = p.screen_height() as nat;
    let before = p.preview_below(charsets, characters, t);
    let after = p.preview_below(charsets, characters, t + 1);
    let glyph = glyph_of(charsets, characters[t]);
    let x0 = p.tile_x(t);
    let y0 = p.tile_y(t);
    let drawn = before.blit(glyph, x0, y0);
    let f = |x: int, y: int, ch: int|
        if p.tile_at(x, y) < t {
            glyph_of(charsets, characters[p.tile_at(x, y)]).at(x % w, y % h, ch)
        } else {
            0u8
        };
    let g = |x: int, y: int, ch: int|
        if p.tile_at(x, y) < t + 1 {
            glyph_of(charsets, characters[p.tile_at(x, y)]).at(x % w, y % h, ch)
        } else {
            0u8
        };
    lemma_from_fn(sw, sh, f);
    lemma_from_fn(sw, sh, g);
    crate::raster::lemma_blit(before, glyph, x0, y0);
    assert forall|x: int, y: int, ch: int|
        0 <= x < drawn.width && 0 <= y < drawn.height && 0 <= ch < 3 implies #[trigger] drawn.at(
        x,
        y,
        ch,
    ) == after.at(x, y, ch) by {
        lemma_tile_at(p, x, y, t);
    }
    lemma_raster_ext(drawn, after);
}

/// With all tiles drawn the preview is complete.
pub proof fn lemma_preview_end(
    p: ScreenProfile,
    charsets: Seq<Seq<Raster>>,
    characters: Seq<Character>,
)
    requires
        p.wf(),
    ensures
        p.preview_below(charsets, characters, p.tile_count()) == p.preview(charsets, characters),
{
    let w = p.character_width as int;
    let h = p.character_height as int;
    let n = p.tile_count();
    let f = |x: int, y: int, ch: int|
        if p.tile_at(x, y) < n {
            glyph_of(charsets, characters[p.tile_at(x, y)]).at(x % w, y % h, ch)
        } else {
            0u8
        };
    let g = |x: int, y: int, ch: int|
        glyph_of(charsets, characters[p.tile_at(x, y)]).at(x % w, y % h, ch);
    assert forall|x: int, y: int, ch: int|
        0 <= x < p.screen_width() && 0 <= y < p.screen_height() && 0 <= ch < 3 implies #[trigger] f(
        x,
        y,
        ch,
    ) == g(x, y, ch) by {
        assert(n > 0) by (nonlinear_arith)
            requires
                0 <= x < p.columns * p.character_width,
                0 <= y < p.lines * p.character_height,
                n == p.lines * p.columns,
        ;
        lemma_tile_at(p, x, y, 0);
    }
    lemma_from_fn_ext(p.screen_width() as nat, p.screen_height() as nat, f, g);
}

/// The rasters of the glyphs of the charsets.
pub open spec fn charset_rasters(charsets: Seq<Vec<PixelBlock>>) -> Seq<Seq<Raster>> {
    Seq::new(charsets.len(), |s: int| views(charsets[s]@))
}

/// The glyph nearest to `tile`: of several at the same least distance,
/// the one of the first charset, and there the one of the least code.
pub fn best_matching_character(
    screen: &ScreenProfile,
    charsets: &Vec<Vec<PixelBlock>>,
    tile: &PixelBlock,
) -> (character: Character)
    requires
        screen.wf(),
        screen.are_charsets(charset_rasters(charsets@)),
        screen.is_glyph(tile@),
    ensures
        character == best_match(charset_rasters(charsets@), tile@),
        is_character(charset_rasters(charsets@), character),
{
    let ghost glyphs = charset_rasters(charsets@);
    let ghost ds = scan(glyphs, tile@);
    let mut best_character = Character { charset: 0, code: 0 };
    let mut best_diff = u32::MAX;
    let mut charset: usize = 0;
    while charset < charsets.len()
        invariant
            charset <= charsets@.len(),
            glyphs == charset_rasters(charsets@),
            screen.wf(),
            screen.are_charsets(glyphs),
            screen.is_glyph(tile@),
            ds == scan(glyphs, tile@),
            charset == 0 ==> best_diff == u32::MAX,
            charset > 0 ==> {
                &&& position(best_character) < charset * 256
                &&& best_diff == ds[position(best_character)]
                &&& forall|q: int|
                    0 <= q < charset * 256 ==> ds[position(best_character)] <= #[trigger] ds[q]
                &&& forall|q: int|
                    0 <= q < position(best_character) ==> ds[position(best_character)]
                        < #[trigger] ds[q]
            },
        decreases charsets@.len() - charset,
    {
        let characters = &charsets[charset];
        assert(glyphs[charset as int] == views(characters@));
        let mut code: usize = 0;
        while code < characters.len()
            invariant
                code <= 256,
                characters@.len() == 256,
                charset < charsets@.len(),
                glyphs == charset_rasters(charsets@),
                glyphs[charset as int] == views(characters@),
                screen.wf(),
                screen.are_charsets(glyphs),
                screen.is_glyph(tile@),
                ds == scan(glyphs, tile@),
                charset == 0 && code == 0 ==> best_diff == u32::MAX,
                charset > 0 || code > 0 ==> {
                    &&& position(best_character) < charset * 256 + code
                    &&& best_diff == ds[position(best_character)]
                    &&& forall|q: int|
                        0 <= q < charset * 256 + code ==> ds[position(best_character)]
                            <= #[trigger] ds[q]
                    &&& forall|q: int|
                        0 <= q < position(best_character) ==> ds[position(best_character)]
                            < #[trigger] ds[q]
                },
            decreases 256 - code,
        {
            let character = &characters[code];
            proof {
                assert(glyphs[charset as int][code as int] == character@);
            }
            let diff = image_diff(&tile, character);
            if diff < best_diff {
                best_character = Character { charset: charset as u32, code: code as u8 };
                best_diff = diff;
            }
            code += 1;
        }
        charset += 1;
    }
    proof {
        lemma_first_min_is(ds, position(best_character));
    }
    best_character
}

/// The glyph that matches each tile of the image best, line by line.
pub fn match_tiles(
    screen: &ScreenProfile,
    charsets: &Vec<Vec<PixelBlock>>,
    input_img: &PixelBlock,
) -> (characters: Vec<Character>)
    requires
        screen.wf(),
        screen.are_charsets(charset_rasters(charsets@)),
        input_img@.wf(),
        screen.fits(input_img@),
    ensures
        characters@ == screen.matched(charset_rasters(charsets@), input_img@),
        characters@.len() == screen.tile_count(),
        forall|t: int|
            0 <= t < characters@.len() ==> is_character(
                charset_rasters(charsets@),
                #[trigger] characters@[t],
            ),
{
    let ghost glyphs = charset_rasters(charsets@);
    let ghost expected = screen.matched(glyphs, input_img@);
    let mut characters: Vec<Character> = Vec::new();
    let mut row: u32 = 0;
    while row < screen.lines
        invariant
            row <= screen.lines,
            screen.wf(),
            glyphs == charset_rasters(charsets@),
            screen.are_charsets(glyphs),
            input_img@.wf(),
            screen.fits(input_img@),
            expected == screen.matched(glyphs, input_img@),
            characters@.len() == row * screen.columns,
            forall|t: int| 0 <= t < characters@.len() ==> #[trigger] characters@[t] == expected[t],
        decreases screen.lines - row,
    {
        let mut column: u32 = 0;
        while column < screen.columns
            invariant
                column <= screen.columns,
                row < screen.lines,
                screen.wf(),
                glyphs == charset_rasters(charsets@),
                screen.are_charsets(glyphs),
                input_img@.wf(),
                screen.fits(input_img@),
                expected == screen.matched(glyphs, input_img@),
                characters@.len() == row * screen.columns + column,
                forall|t: int|
                    0 <= t < characters@.len() ==> #[trigger] characters@[t] == expected[t],
            decreases screen.columns - column,
        {
            let ghost t = row * screen.columns + column;
            proof {
                assert(0 <= t < screen.tile_count()) by (nonlinear_arith)
                    requires
                        t == row * screen.columns + column,
                        0 <= column < screen.columns,
                        0 <= row < screen.lines,
                        screen.tile_count() == screen.lines * screen.columns,
                ;
                lemma_tile_in_image(*screen, input_img@, t);
                lemma_fundamental_div_mod_converse(
                    t,
                    screen.columns as int,
                    row as int,
                    column as int,
                );
            }
            let tile = input_img.crop(
                column * screen.character_width,
                row * screen.character_height,
                screen.character_width,
                screen.character_height,
            );
            characters.push(best_matching_character(screen, charsets, &tile));
            column += 1;
        }
        proof {
            assert(row * screen.columns + screen.columns == (row + 1) * screen.columns)
                by (nonlinear_arith);
        }
        row += 1;
    }
    proof {
        assert forall|t: int| 0 <= t < characters@.len() implies is_character(
            glyphs,
            #[trigger] characters@[t],
        ) by {
            lemma_best_match(*screen, glyphs, screen.tile(input_img@, t));
        }
    }
    characters
}

/// The glyphs of `characters`, drawn at their tiles.
pub fn draw_preview(
    screen: &ScreenProfile,
    charsets: &Vec<Vec<PixelBlock>>,
    characters: &Vec<Character>,
) -> (preview: PixelBlock)
    requires
        screen.wf(),
        screen.are_charsets(charset_rasters(charsets@)),
        characters@.len() == screen.tile_count(),
        forall|t: int|
            0 <= t < characters@.len() ==> is_character(
                charset_rasters(charsets@),
                #[trigger] characters@[t],
            ),
        screen.screen_width() * screen.screen_height() * 3 <= usize::MAX,
    ensures
        preview@ == screen.preview(charset_rasters(charsets@), characters@),
        preview@.wf(),
{
    let ghost glyphs = charset_rasters(charsets@);
    let columns: usize = screen.columns as usize;
    let mut preview_img = PixelBlock::new(
        screen.columns * screen.character_width,
        screen.lines * screen.character_height,
    );
    proof {
        lemma_preview_start(*screen, glyphs, characters@);
    }
    let mut i: usize = 0;
    while i < characters.len()
        invariant
            i <= characters@.len(),
            columns == screen.columns,
            glyphs == charset_rasters(charsets@),
            screen.wf(),
            screen.are_charsets(glyphs),
            characters@.len() == screen.tile_count(),
            forall|t: int|
                0 <= t < characters@.len() ==> is_character(glyphs, #[trigger] characters@[t]),
            preview_img@ == screen.preview_below(glyphs, characters@, i as int),
        decreases characters@.len() - i,
    {
        let character = characters[i];
        proof {
            lemma_preview_step(*screen, glyphs, characters@, i as int);
            lemma_tile_in_image(*screen, preview_img@, i as int);
        }
        let row: u32 = (i / columns) as u32;
        let column: u32 = (i % columns) as u32;

        preview_img.copy_from(
            &charsets[character.charset as usize][character.code as usize],
            column * screen.character_width,
            row * screen.character_height,
        );
        i += 1;
    }
    proof {
        lemma_preview_end(*screen, glyphs, characters@);
    }

    preview_img
}

} // verus!
