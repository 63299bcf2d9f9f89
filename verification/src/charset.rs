//! Charsets made for one image: the tiles of the image are clustered, and
//! the centroids of the clusters become the glyphs.

use vstd::prelude::*;
use crate::kmeans::{
    centroids,
    centroids_accepted,
    has_exact_centroid,
    indices_below,
    is_seeding,
    iterations,
    kmeans,
    lemma_perfect_tiling_of_many_stops,
    optimize,
    perfect,
    run,
    Cluster,
    ClusterView,
    KmeansContext,
};
use crate::profiles::MachineProfile;
use crate::raster::{PixelBlock, Raster};
use crate::screen::lemma_tile_in_image;
use crate::seq_util::views;
use crate::utils::{
    image_diff,
    image_diff_spec,
    lemma_image_diff_self,
    CHARSET_SIZE,
};

verus! {

/// The geometry of a screen, and the number of glyphs to make for it.
#[derive(Clone, Copy, Debug)]
pub struct ScreenProfile {
    pub lines: u32,
    pub columns: u32,
    pub character_width: u32,
    pub character_height: u32,
    pub chars: usize,
}

impl ScreenProfile {
    /// The screen of a machine, with a charset of 256 glyphs.
    pub open spec fn of(profile: MachineProfile) -> ScreenProfile {
        ScreenProfile {
            lines: profile.lines,
            columns: profile.columns,
            character_width: profile.charset_definition.character_width,
            character_height: profile.charset_definition.character_height,
            chars: 0x100,
        }
    }

    pub fn from_machine_profile(profile: &MachineProfile) -> (screen: Self)
        ensures
            screen == ScreenProfile::of(*profile),
    {
        ScreenProfile {
            lines: profile.lines,
            columns: profile.columns,
            character_width: profile.charset_definition.character_width,
            character_height: profile.charset_definition.character_height,
            chars: 0x100,
        }
    }
}

/// The sum of the bytes at position `i` of the buffers of `members`.
pub open spec fn channel_sum(members: Seq<Raster>, i: int) -> int
    decreases members.len(),
{
    if members.len() == 0 {
        0
    } else {
        channel_sum(members.drop_last(), i) + members.last().data[i]
    }
}

/// The raster of the size of the first member in which every channel of
/// every pixel is the average of that channel over all members, rounded down.
pub open spec fn average(members: Seq<Raster>) -> Raster {
    Raster {
        width: members[0].width,
        height: members[0].height,
        data: Seq::new(
            members[0].data.len(),
            |i: int| (channel_sum(members, i) / (members.len() as int)) as u8,
        ),
    }
}

/// Pixel number `p` of the buffer is bright: the average of its three
/// channels is above 0x80.
pub open spec fn bright(r: Raster, p: int) -> bool {
    (r.data[3 * p] + r.data[3 * p + 1] + r.data[3 * p + 2]) / 3 > 0x80
}

/// The number of members in which pixel number `p` is bright.
pub open spec fn bright_count(members: Seq<Raster>, p: int) -> int
    decreases members.len(),
{
    if members.len() == 0 {
        0
    } else {
        bright_count(members.drop_last(), p) + if bright(members.last(), p) {
            1int
        } else {
            0int
        }
    }
}

/// The raster of the size of the first member in which a pixel is white if
/// it is bright in more than half of the members, and black otherwise.
pub open spec fn majority(members: Seq<Raster>) -> Raster {
    Raster {
        width: members[0].width,
        height: members[0].height,
        data: Seq::new(
            members[0].data.len(),
            |i: int|
                if bright_count(members, i / 3) > members.len() / 2 {
                    0xffu8
                } else {
                    0x00u8
                },
        ),
    }
}

/// The raster in which pixel number `p` is white where `bits[p]` holds and
/// black where it does not.
pub open spec fn monochrome(width: nat, height: nat, bits: Seq<bool>) -> Raster {
    Raster {
        width,
        height,
        data: Seq::new(
            width * height * 3,
            |i: int|
                if bits[i / 3] {
                    0xffu8
                } else {
                    0x00u8
                },
        ),
    }
}

/// Every pixel of the raster is black or white: each of its channels is
/// 0 or 255, and equal to the pixel's red channel.
pub open spec fn is_monochrome(r: Raster) -> bool {
    forall|i: int|
        0 <= i < r.data.len() ==> (#[trigger] r.data[i] == 0 || r.data[i] == 0xff) && r.data[i]
            == r.data[3 * (i / 3)]
}

/// `canvas` with the centroid of `cluster` drawn over the tiles of its
/// first `n` elements.
pub open spec fn approximation_of_cluster(
    screen: ScreenProfile,
    canvas: Raster,
    cluster: ClusterView<Raster>,
    n: int,
) -> Raster
    decreases n,
{
    if n <= 0 {
        canvas
    } else {
        approximation_of_cluster(screen, canvas, cluster, n - 1).blit(
            cluster.centroid,
            screen.tile_x(cluster.elements[n - 1].index as int),
            screen.tile_y(cluster.elements[n - 1].index as int),
        )
    }
}

/// The black screen with the centroids of the first `m` clusters drawn
/// over the tiles of their elements, cluster by cluster.
pub open spec fn approximation(
    screen: ScreenProfile,
    clusters: Seq<ClusterView<Raster>>,
    m: int,
) -> Raster
    decreases m,
{
    if m <= 0 {
        Raster::filled(screen.screen_width() as nat, screen.screen_height() as nat, 0, 0, 0)
    } else {
        approximation_of_cluster(
            screen,
            approximation(screen, clusters, m - 1),
            clusters[m - 1],
            clusters[m - 1].elements.len() as int,
        )
    }
}

/// The bits of the first `n` pixels of row `y`: bit `7 - x` stands for pixel `x`, and is
/// set where that pixel is bright.
pub open spec fn row_bits(glyph: Raster, y: int, n: int) -> u8
    decreases n,
{
    if n <= 0 {
        0
    } else {
        row_bits(glyph, y, n - 1) | if bright(glyph, y * glyph.width + (n - 1)) {
            1u8 << ((7 - (n - 1)) as u8)
        } else {
            0u8
        }
    }
}

/// One byte for each row of the glyph, from the top.
pub open spec fn glyph_bits(glyph: Raster) -> Seq<u8> {
    Seq::new(glyph.height, |y: int| row_bits(glyph, y, glyph.width as int))
}

/// The bytes of the glyphs, one glyph after the other.
pub open spec fn charset_bits(glyphs: Seq<Raster>) -> Seq<u8>
    decreases glyphs.len(),
{
    if glyphs.len() == 0 {
        Seq::empty()
    } else {
        charset_bits(glyphs.drop_last()) + glyph_bits(glyphs.last())
    }
}

/// Whether the pixel whose red channel lies at `i` is bright.
fn is_bright(raw: &Vec<u8>, i: usize) -> (b: bool)
    requires
        i + 3 <= raw@.len(),
    ensures
        b == ((raw@[i as int] + raw@[i + 1] + raw@[i + 2]) / 3 > 0x80),
{
    assert(raw@.len() == raw.len());
    let avg: u32 = (raw[i] as u32 + raw[i + 1] as u32 + raw[i + 2] as u32) / 3;
    avg > 0x80
}

/// Converts a charset that is represented as vector of images to memory
/// representation as expected by the C64: one byte for every row of every
/// glyph, in which bit `7 - x` is set where pixel `x` of the row is bright.
pub fn convert_charset(characters: &Vec<PixelBlock>) -> (data: Vec<u8>)
    requires
        characters@.len() == CHARSET_SIZE,
        forall|i: int| 0 <= i < characters@.len() ==> (#[trigger] characters@[i])@.wf(),
        forall|i: int| 0 <= i < characters@.len() ==> (#[trigger] characters@[i])@.width <= 8,
    ensures
        data@ == charset_bits(views(characters@)),
{
    let ghost glyphs = views(characters@);
    let mut data: Vec<u8> = Vec::new();
    let mut g: usize = 0;
    while g < characters.len()
        invariant
            g <= characters@.len(),
            glyphs == views(characters@),
            forall|i: int| 0 <= i < characters@.len() ==> (#[trigger] characters@[i])@.wf(),
            forall|i: int| 0 <= i < characters@.len() ==> (#[trigger] characters@[i])@.width <= 8,
            data@ == charset_bits(glyphs.take(g as int)),
        decreases characters@.len() - g,
    {
        let character = &characters[g];
        let raw = character.as_raw();
        let width: u32 = character.width();
        let height: u32 = character.height();
        let ghost done = data@;
        let ghost glyph = character@;
        let mut y: u32 = 0;
        while y < height
            invariant
                y <= height,
                glyph.wf(),
                glyph.width == width,
                glyph.height == height,
                width <= 8,
                raw@ == glyph.data,
                data@ == done + glyph_bits(glyph).take(y as int),
            decreases height - y,
        {
            let mut byte: u8 = 0;
            let mut x: u32 = 0;
            while x < width
                invariant
                    x <= width,
                    y < height,
                    glyph.wf(),
                    glyph.width == width,
                    glyph.height == height,
                    width <= 8,
                    raw@ == glyph.data,
                    byte == row_bits(glyph, y as int, x as int),
                decreases width - x,
            {
                proof {
                    crate::raster::lemma_flat_index(
                        width as nat,
                        height as nat,
                        x as int,
                        y as int,
                        0,
                    );
                    assert(raw@.len() == raw.len());
                }
                let i: usize = (y as usize * width as usize + x as usize) * 3;
                let bit: u8 = if is_bright(raw, i) {
                    1u8 << ((7 - x) as u8)
                } else {
                    0u8
                };
                byte = byte | bit;
                x += 1;
            }
            data.push(byte);
            y += 1;
        }
        proof {
            assert(glyphs.take(g + 1).drop_last() =~= glyphs.take(g as int));
        }
        g += 1;
    }
    assert(glyphs.take(characters@.len() as int) =~= glyphs);
    data
}

/// Draws one random bit with `rand::random::<bool>()`.
///
/// Trusted: nothing is claimed of the bit.
#[verifier::external_body]
fn random_bool() -> bool {
    rand::random::<bool>()
}

/// Draws `n` random bits.
pub fn random_bits(n: usize) -> (bits: Vec<bool>)
    ensures
        bits@.len() == n,
{
    let mut bits: Vec<bool> = Vec::with_capacity(n);
    let mut i: usize = 0;
    while i < n
        invariant
            i <= n,
            bits@.len() == i,
        decreases n - i,
    {
        bits.push(random_bool());
        i += 1;
    }
    bits
}

/// The block in which pixel number `p`, counted row by row, is white where
/// `bits[p]` holds and black where it does not.
pub fn monochrome_block(width: u32, height: u32, bits: &Vec<bool>) -> (block: PixelBlock)
    requires
        bits@.len() == width * height,
        width * height * 3 <= usize::MAX,
    ensures
        block@ == monochrome(width as nat, height as nat, bits@),
        block@.wf(),
        is_monochrome(block@),
{
    let ghost target = monochrome(width as nat, height as nat, bits@);
    let mut data: Vec<u8> = Vec::new();
    let mut p: usize = 0;
    while p < bits.len()
        invariant
            p <= bits@.len(),
            bits@.len() == width * height,
            target == monochrome(width as nat, height as nat, bits@),
            data@ =~= target.data.take(p * 3),
        decreases bits@.len() - p,
    {
        let val: u8 = if bits[p] {
            0xff
        } else {
            0x00
        };
        data.push(val);
        data.push(val);
        data.push(val);
        p += 1;
    }
    assert(data@ =~= target.data);
    let block = PixelBlock::from_raw(width, height, data).unwrap();
    block
}

/// What the optimizer needs to know of pixel blocks to make a charset:
/// all blocks have the size of a glyph, the distance is that of
/// [`image_diff`], and a centroid is the average of its members.
pub struct CharsetGeneratorContext {
    character_width: u32,
    character_height: u32,
    _columns: u32,
    _lines: u32,
}

impl CharsetGeneratorContext {
    #[verifier::type_invariant]
    spec fn inv(self) -> bool {
        &&& self.character_width > 0
        &&& self.character_height > 0
        &&& self.character_width * self.character_height * 3 <= usize::MAX
    }

    /// Width of a glyph.
    pub closed spec fn width(self) -> nat {
        self.character_width as nat
    }

    /// Height of a glyph.
    pub closed spec fn height(self) -> nat {
        self.character_height as nat
    }

    /// The context for the glyphs of a screen.
    pub closed spec fn of(profile: ScreenProfile) -> CharsetGeneratorContext {
        CharsetGeneratorContext {
            character_width: profile.character_width,
            character_height: profile.character_height,
            _columns: profile.columns,
            _lines: profile.lines,
        }
    }

    /// The context of a screen works on glyphs of that screen's size, and
    /// draws on a screen of that screen's geometry.
    pub proof fn lemma_of(profile: ScreenProfile)
        ensures
            CharsetGeneratorContext::of(profile).width() == profile.character_width,
            CharsetGeneratorContext::of(profile).height() == profile.character_height,
            CharsetGeneratorContext::of(profile).screen() == (ScreenProfile {
                chars: 0,
                ..profile
            }),
    {
    }

    /// The context for the glyphs of a screen.
    pub fn new(profile: &ScreenProfile) -> (context: CharsetGeneratorContext)
        requires
            profile.character_width > 0,
            profile.character_height > 0,
            profile.character_width * profile.character_height * 3 <= usize::MAX,
        ensures
            context == CharsetGeneratorContext::of(*profile),
    {
        CharsetGeneratorContext {
            character_width: profile.character_width,
            character_height: profile.character_height,
            _columns: profile.columns,
            _lines: profile.lines,
        }
    }

    /// The screen whose tiles this context groups.
    pub closed spec fn screen(self) -> ScreenProfile {
        ScreenProfile {
            lines: self._lines,
            columns: self._columns,
            character_width: self.character_width,
            character_height: self.character_height,
            chars: 0,
        }
    }

    /// The picture of a clustering: a screen on which every tile that
    /// belongs to a cluster shows the centroid of that cluster, and all
    /// other tiles are black.
    pub fn draw_approximation(&self, clusters: &Vec<Cluster<PixelBlock>>) -> (picture: PixelBlock)
        requires
            self.screen().wf(),
            self.screen().screen_width() * self.screen().screen_height() * 3 <= usize::MAX,
            centroids_accepted::<PixelBlock, CharsetGeneratorContext>(self, views(clusters@)),
            indices_below(views(clusters@), self.screen().tile_count() as nat),
        ensures
            picture@ == approximation(self.screen(), views(clusters@), clusters@.len() as int),
            picture@.wf(),
    {
        let ghost screen = self.screen();
        let ghost cs = views(clusters@);
        let mut approxed_img = PixelBlock::new(
            self._columns * self.character_width,
            self._lines * self.character_height,
        );
        let mut j: usize = 0;
        while j < clusters.len()
            invariant
                j <= clusters@.len(),
                screen == self.screen(),
                screen.wf(),
                cs == views(clusters@),
                centroids_accepted::<PixelBlock, CharsetGeneratorContext>(self, cs),
                indices_below(cs, screen.tile_count() as nat),
                approxed_img@ == approximation(screen, cs, j as int),
                approxed_img@.wf(),
                approxed_img@.width == screen.screen_width(),
                approxed_img@.height == screen.screen_height(),
            decreases clusters@.len() - j,
        {
            let cluster = &clusters[j];
            let ghost before = approxed_img@;
            assert(self.accepts(cs[j as int].centroid));
            let mut k: usize = 0;
            while k < cluster.elements.len()
                invariant
                    k <= cluster.elements@.len(),
                    j < clusters@.len(),
                    screen == self.screen(),
                    screen.wf(),
                    cs == views(clusters@),
                    cs[j as int] == cluster@,
                    self.accepts(cluster.centroid@),
                    indices_below(cs, screen.tile_count() as nat),
                    approxed_img@ == approximation_of_cluster(screen, before, cluster@, k as int),
                    approxed_img@.wf(),
                    approxed_img@.width == screen.screen_width(),
                    approxed_img@.height == screen.screen_height(),
                decreases cluster.elements@.len() - k,
            {
                let element = &cluster.elements[k];
                proof {
                    assert(cs[j as int].elements[k as int].index < screen.tile_count());
                    lemma_tile_in_image(screen, approxed_img@, element.index as int);
                }
                let line: u32 = (element.index / self._columns as usize) as u32;
                let column: u32 = (element.index % self._columns as usize) as u32;
                let y: u32 = line * self.character_height;
                let x: u32 = column * self.character_width;

                approxed_img.copy_from(&cluster.centroid, x, y);
                k += 1;
            }
            j += 1;
        }
        approxed_img
    }

    /// The block in which a pixel is white if it is bright in more than
    /// half of the elements, and black otherwise.
    pub fn determine_monochrome_centroid(&self, elements: &Vec<&PixelBlock>) -> (centroid:
        PixelBlock)
        requires
            elements@.len() > 0,
            forall|i: int| 0 <= i < elements@.len() ==> self.accepts(#[trigger] elements@[i]@),
        ensures
            centroid@ == majority(views(elements@)),
            self.accepts(centroid@),
            is_monochrome(centroid@),
    {
        proof {
            use_type_invariant(self);
        }
        let ghost members = views(elements@);
        let ghost target = majority(members);
        let pixels: usize = self.character_width as usize * self.character_height as usize;
        let mut data: Vec<u8> = Vec::new();
        let mut p: usize = 0;
        while p < pixels
            invariant
                p <= pixels,
                pixels == self.width() * self.height(),
                pixels * 3 <= usize::MAX,
                elements@.len() > 0,
                forall|i: int| 0 <= i < elements@.len() ==> self.accepts(#[trigger] elements@[i]@),
                members == views(elements@),
                target == majority(members),
                target.data.len() == pixels * 3,
                data@ =~= target.data.take(p * 3),
            decreases pixels - p,
        {
            let mut pixels_set: usize = 0;
            let mut j: usize = 0;
            while j < elements.len()
                invariant
                    j <= elements@.len(),
                    p < pixels,
                    pixels == self.width() * self.height(),
                    pixels * 3 <= usize::MAX,
                    forall|i: int|
                        0 <= i < elements@.len() ==> self.accepts(#[trigger] elements@[i]@),
                    members == views(elements@),
                    pixels_set == bright_count(members.take(j as int), p as int),
                    pixels_set <= j,
                decreases elements@.len() - j,
            {
                let raw = elements[j].as_raw();
                proof {
                    assert(members.take(j + 1).drop_last() =~= members.take(j as int));
                }
                if is_bright(raw, p * 3) {
                    pixels_set += 1;
                }
                j += 1;
            }
            proof {
                assert(members.take(elements@.len() as int) =~= members);
            }
            let val: u8 = if pixels_set > elements.len() / 2 {
                0xff
            } else {
                0x00
            };
            data.push(val);
            data.push(val);
            data.push(val);
            p += 1;
        }
        assert(data@ =~= target.data);
        let centroid = PixelBlock::from_raw(
            self.character_width,
            self.character_height,
            data,
        ).unwrap();
        centroid
    }

    /// The block in which every channel of every pixel is the average of
    /// that channel over all elements, rounded down.
    pub fn determine_colored_centroid(&self, elements: &Vec<&PixelBlock>) -> (centroid: PixelBlock)
        requires
            elements@.len() > 0,
            forall|i: int| 0 <= i < elements@.len() ==> self.accepts(#[trigger] elements@[i]@),
        ensures
            centroid@ == average(views(elements@)),
            self.accepts(centroid@),
    {
        proof {
            use_type_invariant(self);
        }
        let ghost members = views(elements@);
        let ghost target = average(members);
        let len: usize = self.character_width as usize * self.character_height as usize * 3;
        let count: usize = elements.len();
        let mut data: Vec<u8> = Vec::new();
        let mut i: usize = 0;
        while i < len
            invariant
                i <= len,
                len == self.width() * self.height() * 3,
                count == elements@.len(),
                count > 0,
                forall|q: int| 0 <= q < elements@.len() ==> self.accepts(#[trigger] elements@[q]@),
                members == views(elements@),
                target == average(members),
                target.data.len() == len,
                data@ =~= target.data.take(i as int),
            decreases len - i,
        {
            let mut sum: u128 = 0;
            let mut j: usize = 0;
            while j < count
                invariant
                    j <= count,
                    i < len,
                    len == self.width() * self.height() * 3,
                    count == elements@.len(),
                    forall|q: int|
                        0 <= q < elements@.len() ==> self.accepts(#[trigger] elements@[q]@),
                    members == views(elements@),
                    sum == channel_sum(members.take(j as int), i as int),
                    sum <= 255 * j,
                decreases count - j,
            {
                let raw = elements[j].as_raw();
                proof {
                    assert(members.take(j + 1).drop_last() =~= members.take(j as int));
                }
                sum = sum + raw[i] as u128;
                j += 1;
            }
            proof {
                assert(members.take(count as int) =~= members);
            }
            let avg: u128 = sum / count as u128;
            data.push(avg as u8);
            i += 1;
        }
        assert(data@ =~= target.data);
        let centroid = PixelBlock::from_raw(
            self.character_width,
            self.character_height,
            data,
        ).unwrap();
        centroid
    }
}

impl KmeansContext<PixelBlock> for CharsetGeneratorContext {
    /// Blocks of the size of a glyph.
    open spec fn accepts(&self, element: Raster) -> bool {
        element.wf() && element.width == self.width() && element.height == self.height()
    }

    /// Every cluster is seeded with a block of black and white pixels.
    open spec fn is_seed(&self, k: usize, centroid: Raster) -> bool {
        is_monochrome(centroid)
    }

    open spec fn distance(&self, a: Raster, b: Raster) -> u32 {
        image_diff_spec(a, b) as u32
    }

    open spec fn centroid_of(&self, members: Seq<Raster>) -> Raster {
        average(members)
    }

    /// Charset generation never asks for an early end.
    open spec fn stops(&self, i: u32, clusters: Seq<ClusterView<Raster>>) -> bool {
        false
    }

    /// A block in which every pixel is black or white at random.
    fn initialize_centroid(&self, _k: usize) -> (centroid: PixelBlock) {
        proof {
            use_type_invariant(self);
        }
        let bits = random_bits(self.character_width as usize * self.character_height as usize);
        monochrome_block(self.character_width, self.character_height, &bits)
    }

    fn determine_centroid(&self, elements: &Vec<&PixelBlock>) -> (centroid: PixelBlock) {
        self.determine_colored_centroid(elements)
    }

    fn iteration_callback(&self, _i: u32, _clusters: &Vec<Cluster<PixelBlock>>) -> (stop: bool) {
        false
    }

    fn diff(&self, a: &PixelBlock, b: &PixelBlock) -> (d: u32) {
        proof {
            use_type_invariant(self);
        }
        image_diff(a, b)
    }
}

/// The clusters that an optimization starts from when it is seeded with
/// the given centroids: one cluster for each, without elements.
pub open spec fn seeded(centroids: Seq<Raster>) -> Seq<ClusterView<Raster>> {
    Seq::new(
        centroids.len(),
        |j: int| ClusterView { centroid: centroids[j], elements: Seq::empty() },
    )
}

/// Cuts the image into the tiles of the screen, line by line.
pub fn initialize_tiles(profile: &ScreenProfile, input_img: &PixelBlock) -> (tiles: Vec<PixelBlock>)
    requires
        input_img@.wf(),
        profile.fits(input_img@),
    ensures
        views(tiles@) == profile.tiles(input_img@),
        forall|t: int| 0 <= t < tiles@.len() ==> profile.is_glyph((#[trigger] tiles@[t])@),
{
    let mut tiles: Vec<PixelBlock> = Vec::new();
    let mut row: u32 = 0;
    while row < profile.lines
        invariant
            row <= profile.lines,
            input_img@.wf(),
            profile.fits(input_img@),
            tiles@.len() == row * profile.columns,
            forall|t: int|
                0 <= t < tiles@.len() ==> (#[trigger] tiles@[t])@ == profile.tile(input_img@, t),
            forall|t: int| 0 <= t < tiles@.len() ==> profile.is_glyph((#[trigger] tiles@[t])@),
        decreases profile.lines - row,
    {
        let mut column: u32 = 0;
        while column < profile.columns
            invariant
                column <= profile.columns,
                row < profile.lines,
                input_img@.wf(),
                profile.fits(input_img@),
                tiles@.len() == row * profile.columns + column,
                forall|t: int|
                    0 <= t < tiles@.len() ==> (#[trigger] tiles@[t])@ == profile.tile(
                        input_img@,
                        t,
                    ),
                forall|t: int| 0 <= t < tiles@.len() ==> profile.is_glyph((#[trigger] tiles@[t])@),
            decreases profile.columns - column,
        {
            let ghost t = row * profile.columns + column;
            proof {
                assert(0 <= t < profile.tile_count()) by (nonlinear_arith)
                    requires
                        t == row * profile.columns + column,
                        0 <= column < profile.columns,
                        0 <= row < profile.lines,
                        profile.tile_count() == profile.lines * profile.columns,
                ;
                lemma_tile_in_image(*profile, input_img@, t);
                vstd::arithmetic::div_mod::lemma_fundamental_div_mod_converse(
                    t,
                    profile.columns as int,
                    row as int,
                    column as int,
                );
                input_img.lemma_view_bounds();
            }
            let tile = input_img.crop(
                column * profile.character_width,
                row * profile.character_height,
                profile.character_width,
                profile.character_height,
            );
            tiles.push(tile);
            column += 1;
        }
        proof {
            assert(row * profile.columns + profile.columns == (row + 1) * profile.columns)
                by (nonlinear_arith);
        }
        row += 1;
    }
    tiles
}

/// The centroids of the clusters, in their order.
fn centroids_of(clusters: &Vec<Cluster<PixelBlock>>) -> (glyphs: Vec<PixelBlock>)
    ensures
        views(glyphs@) == centroids(views(clusters@)),
        glyphs@.len() == clusters@.len(),
{
    let mut glyphs: Vec<PixelBlock> = Vec::new();
    let mut j: usize = 0;
    while j < clusters.len()
        invariant
            j <= clusters@.len(),
            glyphs@.len() == j,
            forall|q: int| 0 <= q < j ==> (#[trigger] glyphs@[q])@ == clusters@[q].centroid@,
        decreases clusters@.len() - j,
    {
        glyphs.push(clusters[j].centroid.clone());
        j += 1;
    }
    glyphs
}

/// `glyphs` is a charset that can be generated for the image: the
/// centroids that the optimization of the image's tiles leads to from some
/// seeding of `profile.chars` clusters with blocks of black and white
/// pixels.
pub open spec fn is_generated(profile: ScreenProfile, img: Raster, glyphs: Seq<Raster>) -> bool {
    exists|seeds: Seq<ClusterView<Raster>>|
        #[trigger] is_seeding::<PixelBlock, CharsetGeneratorContext>(
            &CharsetGeneratorContext::of(profile),
            seeds,
            profile.chars as nat,
        ) && glyphs == centroids(
            run::<PixelBlock, CharsetGeneratorContext>(
                &CharsetGeneratorContext::of(profile),
                seeds,
                profile.tiles(img),
                0,
                50,
                5,
            ),
        )
}

/// Generate an optimized charset for representing the passed image
///
/// The tiles of the image are grouped into `profile.chars` clusters, in at
/// most 50 iterations, with the empty clusters filled every fifth; the
/// glyphs are the centroids of the clusters. The clusters are seeded at
/// random, so the glyphs are those that some seeding leads to.
pub fn generate_charset(profile: &ScreenProfile, img: &PixelBlock) -> (glyphs: Vec<PixelBlock>)
    requires
        img@.wf(),
        profile.fits(img@),
        profile.character_width > 0,
        profile.character_height > 0,
        profile.character_width * profile.character_height * 3 <= usize::MAX,
        profile.chars > 0,
    ensures
        glyphs@.len() == profile.chars,
        forall|i: int| 0 <= i < glyphs@.len() ==> profile.is_glyph((#[trigger] glyphs@[i])@),
        is_generated(*profile, img@, views(glyphs@)),
{
    let tiles = initialize_tiles(&profile, &img);

    let context = CharsetGeneratorContext::new(profile);

    let clusters = kmeans(&context, profile.chars, &tiles, 50, 5);

    let glyphs = centroids_of(&clusters);
    proof {
        assert forall|i: int| 0 <= i < glyphs@.len() implies profile.is_glyph(
            (#[trigger] glyphs@[i])@,
        ) by {
            assert(views(glyphs@)[i] == views(clusters@)[i].centroid);
        }
    }
    glyphs
}

/// Generates a charset for the image from the given seeds, one cluster
/// for each seed: what [`generate_charset`] does once the seeds are drawn.
pub fn generate_charset_from(
    profile: &ScreenProfile,
    img: &PixelBlock,
    seeds: &Vec<PixelBlock>,
) -> (glyphs: Vec<PixelBlock>)
    requires
        img@.wf(),
        profile.fits(img@),
        profile.character_width > 0,
        profile.character_height > 0,
        profile.character_width * profile.character_height * 3 <= usize::MAX,
        seeds@.len() > 0,
        forall|j: int| 0 <= j < seeds@.len() ==> profile.is_glyph((#[trigger] seeds@[j])@),
    ensures
        glyphs@.len() == seeds@.len(),
        forall|i: int| 0 <= i < glyphs@.len() ==> profile.is_glyph((#[trigger] glyphs@[i])@),
        views(glyphs@) == centroids(
            run::<PixelBlock, CharsetGeneratorContext>(
                &CharsetGeneratorContext::of(*profile),
                seeded(views(seeds@)),
                profile.tiles(img@),
                0,
                50,
                5,
            ),
        ),
{
    let tiles = initialize_tiles(&profile, &img);
    let context = CharsetGeneratorContext::new(profile);
    let ghost centers = views(seeds@);
    let mut clusters: Vec<Cluster<PixelBlock>> = Vec::new();
    let mut j: usize = 0;
    while j < seeds.len()
        invariant
            j <= seeds@.len(),
            centers == views(seeds@),
            clusters@.len() == j,
            forall|q: int| 0 <= q < j ==> (#[trigger] clusters@[q])@ == seeded(centers)[q],
        decreases seeds@.len() - j,
    {
        clusters.push(Cluster { centroid: seeds[j].clone(), elements: Vec::new() });
        j += 1;
    }
    proof {
        assert(views(clusters@) =~= seeded(centers));
    }
    let clusters = optimize(&context, clusters, &tiles, 50, 5);
    let glyphs = centroids_of(&clusters);
    proof {
        assert forall|i: int| 0 <= i < glyphs@.len() implies profile.is_glyph(
            (#[trigger] glyphs@[i])@,
        ) by {
            assert(views(glyphs@)[i] == views(clusters@)[i].centroid);
        }
    }
    glyphs
}

/// `tile` is equal, pixel by pixel, to the centroid of some cluster.
pub open spec fn is_centroid(clusters: Seq<ClusterView<Raster>>, tile: Raster) -> bool {
    exists|j: int| 0 <= j < clusters.len() && (#[trigger] clusters[j]).centroid == tile
}

/// Tiles that are all found among the centroids end the generation of a
/// charset.
///
/// If, at the start of an iteration in which the empty clusters are due
/// to be filled, every tile is equal, pixel by pixel, to the centroid of
/// some cluster, and there are more tiles than clusters, that iteration
/// finds the approximation perfect and is the last that is carried out,
/// however many are allowed.
pub proof fn lemma_identical_tiles_stop(
    profile: ScreenProfile,
    clusters: Seq<ClusterView<Raster>>,
    tiles: Seq<Raster>,
    i: u32,
    max_iterations: u32,
    every: u32,
)
    requires
        profile.character_width > 0,
        profile.character_height > 0,
        0 < clusters.len() < tiles.len() <= usize::MAX,
        i < max_iterations,
        every > 0,
        i % every == 0,
        forall|t: int| 0 <= t < tiles.len() ==> profile.is_glyph(#[trigger] tiles[t]),
        forall|t: int| 0 <= t < tiles.len() ==> is_centroid(clusters, #[trigger] tiles[t]),
    ensures
        iterations::<PixelBlock, CharsetGeneratorContext>(
            &CharsetGeneratorContext::of(profile),
            clusters,
            tiles,
            i,
            max_iterations,
            every,
        ) == 1,
        perfect(
            run::<PixelBlock, CharsetGeneratorContext>(
                &CharsetGeneratorContext::of(profile),
                clusters,
                tiles,
                i,
                max_iterations,
                every,
            ),
        ),
{
    let context = CharsetGeneratorContext::of(profile);
    assert forall|t: int| 0 <= t < tiles.len() implies #[trigger] has_exact_centroid::<
        PixelBlock,
        CharsetGeneratorContext,
    >(&context, clusters, tiles[t]) by {
        lemma_image_diff_self(tiles[t]);
    }
    lemma_perfect_tiling_of_many_stops::<PixelBlock, CharsetGeneratorContext>(
        &context,
        clusters,
        tiles,
        i,
        max_iterations,
        every,
    );
}

} // verus!
