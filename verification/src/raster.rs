//! RGB rasters: the pixel model every other module works on.
//!
//! A [`PixelBlock`] owns `width * height` RGB triples, stored row by row as
//! three bytes per pixel. Its view is a [`Raster`], and every operation is
//! stated pixel by pixel over that view.

use vstd::prelude::*;
use vstd::arithmetic::div_mod::{lemma_fundamental_div_mod, lemma_fundamental_div_mod_converse};

verus! {

/// The mathematical view of an RGB raster.
pub struct Raster {
    pub width: nat,
    pub height: nat,
    pub data: Seq<u8>,
}

/// Position of channel `ch` of pixel `(x, y)` in a row-major RGB buffer.
pub open spec fn flat_index(width: nat, x: int, y: int, ch: int) -> int {
    (y * width + x) * 3 + ch
}

impl Raster {
    /// The buffer holds exactly three bytes for every pixel.
    pub open spec fn wf(self) -> bool {
        self.data.len() == self.width * self.height * 3
    }

    /// `(x, y)` names a pixel of this raster.
    pub open spec fn covers(self, x: int, y: int) -> bool {
        0 <= x < self.width && 0 <= y < self.height
    }

    /// Channel `ch` (0 red, 1 green, 2 blue) of pixel `(x, y)`.
    pub open spec fn at(self, x: int, y: int, ch: int) -> u8 {
        self.data[flat_index(self.width, x, y, ch)]
    }

    /// The raster of the given size whose channel `ch` of pixel `(x, y)` is `f(x, y, ch)`.
    pub open spec fn from_fn(width: nat, height: nat, f: spec_fn(int, int, int) -> u8) -> Raster {
        Raster {
            width,
            height,
            data: Seq::new(
                width * height * 3,
                |i: int| f((i / 3) % (width as int), (i / 3) / (width as int), i % 3),
            ),
        }
    }

    /// The raster of the given size with every pixel equal to `(r, g, b)`.
    pub open spec fn filled(width: nat, height: nat, r: u8, g: u8, b: u8) -> Raster {
        Raster::from_fn(
            width,
            height,
            |x: int, y: int, ch: int|
                if ch == 0 {
                    r
                } else if ch == 1 {
                    g
                } else {
                    b
                },
        )
    }

    /// The `width` x `height` window of `self` whose top-left corner is `(x, y)`.
    pub open spec fn crop(self, x: int, y: int, width: nat, height: nat) -> Raster {
        Raster::from_fn(width, height, |cx: int, cy: int, ch: int| self.at(x + cx, y + cy, ch))
    }

    /// `self` with `src` drawn over it, the top-left corner of `src` at `(x, y)`.
    pub open spec fn blit(self, src: Raster, x: int, y: int) -> Raster {
        Raster::from_fn(
            self.width,
            self.height,
            |px: int, py: int, ch: int|
                if src.covers(px - x, py - y) {
                    src.at(px - x, py - y, ch)
                } else {
                    self.at(px, py, ch)
                },
        )
    }

    /// `self` with the first pixels of `src` drawn over it: the rows above
    /// `rows`, and the first `cols` pixels of row `rows`.
    pub open spec fn blit_partial(
        self,
        src: Raster,
        x: int,
        y: int,
        cols: int,
        rows: int,
    ) -> Raster {
        Raster::from_fn(
            self.width,
            self.height,
            |px: int, py: int, ch: int|
                if src.covers(px - x, py - y) && (py - y < rows || (py - y == rows && px - x
                    < cols)) {
                    src.at(px - x, py - y, ch)
                } else {
                    self.at(px, py, ch)
                },
        )
    }

    /// `self` with pixel `(x, y)` replaced by `(r, g, b)`.
    pub open spec fn with_pixel(self, x: int, y: int, r: u8, g: u8, b: u8) -> Raster {
        Raster {
            width: self.width,
            height: self.height,
            data: self.data.update(flat_index(self.width, x, y, 0), r).update(
                flat_index(self.width, x, y, 1),
                g,
            ).update(flat_index(self.width, x, y, 2), b),
        }
    }
}

/// A pixel inside the raster lies inside the buffer, and its position splits
/// back into its coordinates.
pub proof fn lemma_flat_index(width: nat, height: nat, x: int, y: int, ch: int)
    requires
        0 <= x < width,
        0 <= y < height,
        0 <= ch < 3,
    ensures
        0 <= flat_index(width, x, y, ch) < width * height * 3,
        flat_index(width, x, y, ch) + (3 - ch) <= width * height * 3,
        flat_index(width, x, y, ch) % 3 == ch,
        (flat_index(width, x, y, ch) / 3) % (width as int) == x,
        (flat_index(width, x, y, ch) / 3) / (width as int) == y,
{
    let w = width as int;
    let h = height as int;
    let p = y * w + x;
    assert(0 <= y * w && y * w + w <= h * w) by (nonlinear_arith)
        requires
            0 <= y < h,
            0 < w,
    ;
    lemma_fundamental_div_mod_converse(p, w, y, x);
}

/// Every position of the buffer belongs to exactly one channel of one pixel.
pub proof fn lemma_flat_index_split(width: nat, height: nat, i: int)
    requires
        0 <= i < width * height * 3,
    ensures
        0 <= (i / 3) % (width as int) < width,
        0 <= (i / 3) / (width as int) < height,
        0 <= i % 3 < 3,
        flat_index(width, (i / 3) % (width as int), (i / 3) / (width as int), i % 3) == i,
{
    let w = width as int;
    let h = height as int;
    let p = i / 3;
    lemma_fundamental_div_mod(p, w);
    let y = p / w;
    let x = p % w;
    assert(0 <= y < h) by (nonlinear_arith)
        requires
            0 <= w * y + x < w * h,
            0 <= x < w,
    ;
}

/// `Raster::from_fn` is well formed and holds `f` at every pixel.
pub proof fn lemma_from_fn(width: nat, height: nat, f: spec_fn(int, int, int) -> u8)
    ensures
        Raster::from_fn(width, height, f).wf(),
        Raster::from_fn(width, height, f).width == width,
        Raster::from_fn(width, height, f).height == height,
        forall|x: int, y: int, ch: int|
            0 <= x < width && 0 <= y < height && 0 <= ch < 3 ==> #[trigger] Raster::from_fn(
                width,
                height,
                f,
            ).at(x, y, ch) == f(x, y, ch),
{
    let r = Raster::from_fn(width, height, f);
    assert forall|x: int, y: int, ch: int|
        0 <= x < width && 0 <= y < height && 0 <= ch < 3 implies #[trigger] r.at(x, y, ch) == f(
        x,
        y,
        ch,
    ) by {
        lemma_flat_index(width, height, x, y, ch);
    }
}

/// Well-formed rasters of one size that agree at every pixel are equal.
pub proof fn lemma_raster_ext(a: Raster, b: Raster)
    requires
        a.wf(),
        b.wf(),
        a.width == b.width,
        a.height == b.height,
        forall|x: int, y: int, ch: int|
            0 <= x < a.width && 0 <= y < a.height && 0 <= ch < 3 ==> #[trigger] a.at(x, y, ch)
                == b.at(x, y, ch),
    ensures
        a == b,
{
    assert forall|i: int| 0 <= i < a.data.len() implies a.data[i] == b.data[i] by {
        lemma_flat_index_split(a.width, a.height, i);
        let x = (i / 3) % (a.width as int);
        let y = (i / 3) / (a.width as int);
        let ch = i % 3;
        assert(a.at(x, y, ch) == b.at(x, y, ch));
    }
    assert(a.data =~= b.data);
}

/// Functions that agree on every pixel describe the same raster.
pub proof fn lemma_from_fn_ext(
    width: nat,
    height: nat,
    f: spec_fn(int, int, int) -> u8,
    g: spec_fn(int, int, int) -> u8,
)
    requires
        forall|x: int, y: int, ch: int|
            0 <= x < width && 0 <= y < height && 0 <= ch < 3 ==> #[trigger] f(x, y, ch) == g(
                x,
                y,
                ch,
            ),
    ensures
        Raster::from_fn(width, height, f) == Raster::from_fn(width, height, g),
{
    let a = Raster::from_fn(width, height, f);
    let b = Raster::from_fn(width, height, g);
    assert forall|i: int| 0 <= i < a.data.len() implies a.data[i] == b.data[i] by {
        lemma_flat_index_split(width, height, i);
    }
    assert(a.data =~= b.data);
}

/// A well-formed raster is the raster of its own pixels.
pub proof fn lemma_from_fn_self(r: Raster)
    requires
        r.wf(),
    ensures
        r == Raster::from_fn(r.width, r.height, |x: int, y: int, ch: int| r.at(x, y, ch)),
{
    let f = |x: int, y: int, ch: int| r.at(x, y, ch);
    lemma_from_fn(r.width, r.height, f);
    lemma_raster_ext(r, Raster::from_fn(r.width, r.height, f));
}

/// Replacing one pixel changes that pixel and no other.
pub proof fn lemma_with_pixel(r: Raster, x: int, y: int, red: u8, green: u8, blue: u8)
    requires
        r.wf(),
        r.covers(x, y),
    ensures
        r.with_pixel(x, y, red, green, blue).wf(),
        r.with_pixel(x, y, red, green, blue).at(x, y, 0) == red,
        r.with_pixel(x, y, red, green, blue).at(x, y, 1) == green,
        r.with_pixel(x, y, red, green, blue).at(x, y, 2) == blue,
        forall|px: int, py: int, ch: int|
            r.covers(px, py) && 0 <= ch < 3 && (px != x || py != y) ==> #[trigger] r.with_pixel(
                x,
                y,
                red,
                green,
                blue,
            ).at(px, py, ch) == r.at(px, py, ch),
{
    let n = r.with_pixel(x, y, red, green, blue);
    lemma_flat_index(r.width, r.height, x, y, 0);
    assert forall|px: int, py: int, ch: int|
        r.covers(px, py) && 0 <= ch < 3 && (px != x || py != y) implies #[trigger] n.at(px, py, ch)
        == r.at(px, py, ch) by {
        lemma_flat_index(r.width, r.height, px, py, ch);
    }
}

/// A filled raster shows its color at every pixel.
pub proof fn lemma_filled(width: nat, height: nat, r: u8, g: u8, b: u8)
    ensures
        Raster::filled(width, height, r, g, b).wf(),
        Raster::filled(width, height, r, g, b).width == width,
        Raster::filled(width, height, r, g, b).height == height,
        forall|x: int, y: int, ch: int|
            0 <= x < width && 0 <= y < height && 0 <= ch < 3 ==> #[trigger] Raster::filled(
                width,
                height,
                r,
                g,
                b,
            ).at(x, y, ch) == if ch == 0 {
                r
            } else if ch == 1 {
                g
            } else {
                b
            },
{
    let filled = Raster::filled(width, height, r, g, b);
    assert forall|x: int, y: int, ch: int|
        0 <= x < width && 0 <= y < height && 0 <= ch < 3 implies #[trigger] filled.at(x, y, ch)
        == if ch == 0 {
        r
    } else if ch == 1 {
        g
    } else {
        b
    } by {
        lemma_flat_index(width, height, x, y, ch);
    }
}

/// A window of a raster holds the pixels of the raster it was cut from.
pub proof fn lemma_crop(r: Raster, x: int, y: int, width: nat, height: nat)
    ensures
        r.crop(x, y, width, height).wf(),
        r.crop(x, y, width, height).width == width,
        r.crop(x, y, width, height).height == height,
        forall|cx: int, cy: int, ch: int|
            0 <= cx < width && 0 <= cy < height && 0 <= ch < 3 ==> #[trigger] r.crop(
                x,
                y,
                width,
                height,
            ).at(cx, cy, ch) == r.at(x + cx, y + cy, ch),
{
    lemma_from_fn(width, height, |cx: int, cy: int, ch: int| r.at(x + cx, y + cy, ch));
}

/// Drawing `src` over a raster puts the pixels of `src` inside its frame and
/// keeps the raster's own pixels outside.
pub proof fn lemma_blit(dst: Raster, src: Raster, x: int, y: int)
    ensures
        dst.blit(src, x, y).wf(),
        dst.blit(src, x, y).width == dst.width,
        dst.blit(src, x, y).height == dst.height,
        forall|px: int, py: int, ch: int|
            dst.covers(px, py) && 0 <= ch < 3 ==> #[trigger] dst.blit(src, x, y).at(px, py, ch)
                == if src.covers(px - x, py - y) {
                src.at(px - x, py - y, ch)
            } else {
                dst.at(px, py, ch)
            },
{
    lemma_from_fn(
        dst.width,
        dst.height,
        |px: int, py: int, ch: int|
            if src.covers(px - x, py - y) {
                src.at(px - x, py - y, ch)
            } else {
                dst.at(px, py, ch)
            },
    );
}

/// The window at the place where `src` was drawn shows `src`.
pub proof fn lemma_crop_of_blit(dst: Raster, src: Raster, x: int, y: int)
    requires
        dst.wf(),
        src.wf(),
        0 <= x,
        0 <= y,
        x + src.width <= dst.width,
        y + src.height <= dst.height,
    ensures
        dst.blit(src, x, y).crop(x, y, src.width, src.height) == src,
{
    let drawn = dst.blit(src, x, y);
    let window = drawn.crop(x, y, src.width, src.height);
    lemma_blit(dst, src, x, y);
    lemma_crop(drawn, x, y, src.width, src.height);
    lemma_raster_ext(window, src);
}

/// A window that does not touch the place where `src` was drawn shows
/// what it showed before.
pub proof fn lemma_crop_beside_blit(
    dst: Raster,
    src: Raster,
    x: int,
    y: int,
    wx: int,
    wy: int,
    width: nat,
    height: nat,
)
    requires
        dst.wf(),
        0 <= wx,
        0 <= wy,
        wx + width <= dst.width,
        wy + height <= dst.height,
        wx + width <= x || x + src.width <= wx || wy + height <= y || y + src.height <= wy,
    ensures
        dst.blit(src, x, y).crop(wx, wy, width, height) == dst.crop(wx, wy, width, height),
{
    let drawn = dst.blit(src, x, y);
    let window = drawn.crop(wx, wy, width, height);
    let before = dst.crop(wx, wy, width, height);
    lemma_blit(dst, src, x, y);
    lemma_crop(drawn, wx, wy, width, height);
    lemma_crop(dst, wx, wy, width, height);
    lemma_raster_ext(window, before);
}

/// One more pixel of `src` drawn: what `blit_partial` is after a `with_pixel`.
proof fn lemma_blit_partial_step(dst: Raster, src: Raster, x: int, y: int, cols: int, rows: int)
    requires
        dst.wf(),
        src.wf(),
        0 <= x,
        0 <= y,
        x + src.width <= dst.width,
        y + src.height <= dst.height,
        0 <= cols < src.width,
        0 <= rows < src.height,
    ensures
        dst.blit_partial(src, x, y, cols, rows).with_pixel(
            x + cols,
            y + rows,
            src.at(cols, rows, 0),
            src.at(cols, rows, 1),
            src.at(cols, rows, 2),
        ) == dst.blit_partial(src, x, y, cols + 1, rows),
        dst.blit_partial(src, x, y, cols, rows).wf(),
        dst.blit_partial(src, x, y, cols, rows).width == dst.width,
        dst.blit_partial(src, x, y, cols, rows).height == dst.height,
{
    let before = dst.blit_partial(src, x, y, cols, rows);
    let after = dst.blit_partial(src, x, y, cols + 1, rows);
    let f = |px: int, py: int, ch: int|
        if src.covers(px - x, py - y) && (py - y < rows || (py - y == rows && px - x < cols)) {
            src.at(px - x, py - y, ch)
        } else {
            dst.at(px, py, ch)
        };
    let g = |px: int, py: int, ch: int|
        if src.covers(px - x, py - y) && (py - y < rows || (py - y == rows && px - x < cols + 1)) {
            src.at(px - x, py - y, ch)
        } else {
            dst.at(px, py, ch)
        };
    lemma_from_fn(dst.width, dst.height, f);
    lemma_from_fn(dst.width, dst.height, g);
    let r = src.at(cols, rows, 0);
    let gr = src.at(cols, rows, 1);
    let b = src.at(cols, rows, 2);
    lemma_with_pixel(before, x + cols, y + rows, r, gr, b);
    let stepped = before.with_pixel(x + cols, y + rows, r, gr, b);
    lemma_raster_ext(stepped, after);
}

/// Drawing starts from the raster itself, moves on row by row, and ends
/// with all of `src` drawn.
proof fn lemma_blit_partial_rows(dst: Raster, src: Raster, x: int, y: int, rows: int)
    requires
        dst.wf(),
        src.wf(),
        0 <= rows <= src.height,
    ensures
        dst.blit_partial(src, x, y, 0, 0) == dst,
        rows < src.height ==> dst.blit_partial(src, x, y, src.width as int, rows)
            == dst.blit_partial(src, x, y, 0, rows + 1),
        dst.blit_partial(src, x, y, 0, src.height as int) == dst.blit(src, x, y),
{
    let start = |px: int, py: int, ch: int|
        if src.covers(px - x, py - y) && (py - y < 0 || (py - y == 0 && px - x < 0)) {
            src.at(px - x, py - y, ch)
        } else {
            dst.at(px, py, ch)
        };
    lemma_from_fn_ext(dst.width, dst.height, start, |px: int, py: int, ch: int| dst.at(px, py, ch));
    lemma_from_fn_self(dst);
    let w = src.width as int;
    let row_end = |px: int, py: int, ch: int|
        if src.covers(px - x, py - y) && (py - y < rows || (py - y == rows && px - x < w)) {
            src.at(px - x, py - y, ch)
        } else {
            dst.at(px, py, ch)
        };
    let row_start = |px: int, py: int, ch: int|
        if src.covers(px - x, py - y) && (py - y < rows + 1 || (py - y == rows + 1 && px - x < 0)) {
            src.at(px - x, py - y, ch)
        } else {
            dst.at(px, py, ch)
        };
    lemma_from_fn_ext(dst.width, dst.height, row_end, row_start);
    let h = src.height as int;
    let last = |px: int, py: int, ch: int|
        if src.covers(px - x, py - y) && (py - y < h || (py - y == h && px - x < 0)) {
            src.at(px - x, py - y, ch)
        } else {
            dst.at(px, py, ch)
        };
    let all = |px: int, py: int, ch: int|
        if src.covers(px - x, py - y) {
            src.at(px - x, py - y, ch)
        } else {
            dst.at(px, py, ch)
        };
    lemma_from_fn_ext(dst.width, dst.height, last, all);
}

/// An RGB raster of fixed size.
#[derive(Debug)]
pub struct PixelBlock {
    width: u32,
    height: u32,
    data: Vec<u8>,
}

impl View for PixelBlock {
    type V = Raster;

    closed spec fn view(&self) -> Raster {
        Raster { width: self.width as nat, height: self.height as nat, data: self.data@ }
    }
}

impl PixelBlock {
    /// The sides of a block fit in `u32`, and its buffer in memory.
    pub proof fn lemma_view_bounds(&self)
        ensures
            self@.width <= u32::MAX,
            self@.height <= u32::MAX,
            self@.data.len() <= usize::MAX,
    {
        assert(self.data@.len() == self.data.len());
    }

    /// Width in pixels.
    pub fn width(&self) -> (w: u32)
        ensures
            w == self@.width,
    {
        self.width
    }

    /// Height in pixels.
    pub fn height(&self) -> (h: u32)
        ensures
            h == self@.height,
    {
        self.height
    }

    /// A black block of the given size.
    pub fn new(width: u32, height: u32) -> (block: PixelBlock)
        requires
            width * height * 3 <= usize::MAX,
        ensures
            block@ == Raster::filled(width as nat, height as nat, 0, 0, 0),
            block@.wf(),
    {
        PixelBlock::from_pixel(width, height, (0, 0, 0))
    }

    /// A block of the given size with every pixel equal to `rgb`.
    pub fn from_pixel(width: u32, height: u32, rgb: (u8, u8, u8)) -> (block: PixelBlock)
        requires
            width * height * 3 <= usize::MAX,
        ensures
            block@ == Raster::filled(width as nat, height as nat, rgb.0, rgb.1, rgb.2),
            block@.wf(),
    {
        let ghost target = Raster::filled(width as nat, height as nat, rgb.0, rgb.1, rgb.2);
        let pixels: usize = width as usize * height as usize;
        let mut data: Vec<u8> = Vec::new();
        let mut p: usize = 0;
        while p < pixels
            invariant
                p <= pixels,
                pixels == width * height,
                target.wf(),
                target.width == width,
                target.height == height,
                target == Raster::filled(width as nat, height as nat, rgb.0, rgb.1, rgb.2),
                data@ =~= target.data.take(p * 3),
            decreases pixels - p,
        {
            data.push(rgb.0);
            data.push(rgb.1);
            data.push(rgb.2);
            p += 1;
        }
        assert(data@ =~= target.data);
        PixelBlock { width, height, data }
    }

    /// Wraps a row-major RGB buffer; `None` unless it holds exactly
    /// `width * height` pixels.
    pub fn from_raw(width: u32, height: u32, data: Vec<u8>) -> (block: Option<PixelBlock>)
        ensures
            block is Some <==> data@.len() == width * height * 3,
            block matches Some(b) ==> b@ == (Raster {
                width: width as nat,
                height: height as nat,
                data: data@,
            }) && b@.wf(),
    {
        assert(width * height * 3 <= 0xffff_ffff * 0xffff_ffff * 3) by (nonlinear_arith)
            requires
                width <= 0xffff_ffff,
                height <= 0xffff_ffff,
        ;
        let wanted: u128 = width as u128 * height as u128 * 3;
        if data.len() as u128 == wanted {
            Some(PixelBlock { width, height, data })
        } else {
            None
        }
    }

    /// The row-major RGB buffer.
    pub fn as_raw(&self) -> (raw: &Vec<u8>)
        ensures
            raw@ == self@.data,
    {
        &self.data
    }

    /// Gives up the row-major RGB buffer.
    pub fn into_raw(self) -> (raw: Vec<u8>)
        ensures
            raw@ == self@.data,
    {
        self.data
    }

    /// Where the red channel of pixel `(x, y)` lies in the buffer.
    fn offset(&self, x: u32, y: u32) -> (i: usize)
        requires
            self@.wf(),
            self@.covers(x as int, y as int),
        ensures
            i == flat_index(self@.width, x as int, y as int, 0),
            i + 3 <= self@.data.len() <= usize::MAX,
    {
        proof {
            lemma_flat_index(self.width as nat, self.height as nat, x as int, y as int, 0);
            assert(self.data@.len() == self.data.len());
        }
        (y as usize * self.width as usize + x as usize) * 3
    }

    /// The three channels of pixel `(x, y)`.
    pub fn get_pixel(&self, x: u32, y: u32) -> (rgb: (u8, u8, u8))
        requires
            self@.wf(),
            self@.covers(x as int, y as int),
        ensures
            rgb.0 == self@.at(x as int, y as int, 0),
            rgb.1 == self@.at(x as int, y as int, 1),
            rgb.2 == self@.at(x as int, y as int, 2),
    {
        let i: usize = self.offset(x, y);
        (self.data[i], self.data[i + 1], self.data[i + 2])
    }

    /// Replaces pixel `(x, y)`.
    pub fn put_pixel(&mut self, x: u32, y: u32, rgb: (u8, u8, u8))
        requires
            old(self)@.wf(),
            old(self)@.covers(x as int, y as int),
        ensures
            final(self)@ == old(self)@.with_pixel(x as int, y as int, rgb.0, rgb.1, rgb.2),
            final(self)@.wf(),
    {
        let i: usize = self.offset(x, y);
        self.data.set(i, rgb.0);
        self.data.set(i + 1, rgb.1);
        self.data.set(i + 2, rgb.2);
    }

    /// A copy of the `width` x `height` window whose top-left corner is `(x, y)`.
    pub fn crop(&self, x: u32, y: u32, width: u32, height: u32) -> (tile: PixelBlock)
        requires
            self@.wf(),
            x + width <= self@.width,
            y + height <= self@.height,
        ensures
            tile@ == self@.crop(x as int, y as int, width as nat, height as nat),
            tile@.wf(),
    {
        let ghost target = self@.crop(x as int, y as int, width as nat, height as nat);
        let mut data: Vec<u8> = Vec::new();
        let mut cy: u32 = 0;
        while cy < height
            invariant
                cy <= height,
                self@.wf(),
                x + width <= self@.width,
                y + height <= self@.height,
                target == self@.crop(x as int, y as int, width as nat, height as nat),
                target.wf(),
                target.width == width,
                target.height == height,
                data@ =~= target.data.take(flat_index(width as nat, 0, cy as int, 0)),
            decreases height - cy,
        {
            let mut cx: u32 = 0;
            while cx < width
                invariant
                    cx <= width,
                    cy < height,
                    self@.wf(),
                    x + width <= self@.width,
                    y + height <= self@.height,
                    target == self@.crop(x as int, y as int, width as nat, height as nat),
                    target.wf(),
                    target.width == width,
                    target.height == height,
                    data@ =~= target.data.take(flat_index(width as nat, cx as int, cy as int, 0)),
                decreases width - cx,
            {
                let i: usize = self.offset(x + cx, y + cy);
                proof {
                    lemma_flat_index(width as nat, height as nat, cx as int, cy as int, 0);
                }
                data.push(self.data[i]);
                data.push(self.data[i + 1]);
                data.push(self.data[i + 2]);
                cx += 1;
            }
            proof {
                assert(flat_index(width as nat, width as int, cy as int, 0) == flat_index(
                    width as nat,
                    0,
                    cy + 1,
                    0,
                )) by (nonlinear_arith);
            }
            cy += 1;
        }
        proof {
            assert(data@ =~= target.data);
        }
        PixelBlock { width, height, data }
    }

    /// Draws `src` over this block, the top-left corner of `src` at `(x, y)`.
    pub fn copy_from(&mut self, src: &PixelBlock, x: u32, y: u32)
        requires
            old(self)@.wf(),
            src@.wf(),
            x + src@.width <= old(self)@.width,
            y + src@.height <= old(self)@.height,
        ensures
            final(self)@ == old(self)@.blit(src@, x as int, y as int),
            final(self)@.wf(),
    {
        let ghost dst = self@;
        proof {
            lemma_blit_partial_rows(dst, src@, x as int, y as int, 0);
        }
        let mut sy: u32 = 0;
        while sy < src.height
            invariant
                sy <= src.height,
                dst.wf(),
                src@.wf(),
                x + src@.width <= dst.width,
                y + src@.height <= dst.height,
                self@ == dst.blit_partial(src@, x as int, y as int, 0, sy as int),
            decreases src.height - sy,
        {
            let mut sx: u32 = 0;
            while sx < src.width
                invariant
                    sx <= src.width,
                    sy < src.height,
                    dst.wf(),
                    src@.wf(),
                    x + src@.width <= dst.width,
                    y + src@.height <= dst.height,
                    self@ == dst.blit_partial(src@, x as int, y as int, sx as int, sy as int),
                decreases src.width - sx,
            {
                proof {
                    lemma_blit_partial_step(dst, src@, x as int, y as int, sx as int, sy as int);
                }
                let rgb = src.get_pixel(sx, sy);
                self.put_pixel(x + sx, y + sy, rgb);
                sx += 1;
            }
            proof {
                lemma_blit_partial_rows(dst, src@, x as int, y as int, sy as int);
            }
            sy += 1;
        }
    }
}

impl Clone for PixelBlock {
    fn clone(&self) -> (copy: Self)
        ensures
            copy@ == self@,
    {
        PixelBlock { width: self.width, height: self.height, data: self.data.clone() }
    }
}

} // verus!
