use vstd::prelude::*;
use vstd::string::StringSliceAdditionalSpecFns;

use embedded_graphics::mock_display::MockDisplay;
use embedded_graphics::mono_font::ascii::FONT_5X8;
use embedded_graphics::mono_font::MonoTextStyle;
use embedded_graphics::pixelcolor::{BinaryColor, Rgb888, RgbColor};
use embedded_graphics::prelude::Point;
use embedded_graphics::text::{Baseline, Text, TextStyleBuilder};
use embedded_graphics::Drawable;
use tinybmp::Bmp;

use crate::display::{draw_all, filled, lemma_draw_all_at, FrameBuffer, ImagePixel};
use crate::lights::Pixel;
use crate::mapping::{index_of, point_for_index, point_of_index, LogicalPoint, SURFACE_PIXELS};

verus! {

/// Frames of one cross-fade pulse.
pub const FADE_FRAMES: u32 = 100;

/// Width in pixels of one glyph of the scrolling font.
pub const GLYPH_WIDTH: usize = 5;

/// A channel of the cross-fade at frame `i`: scaled by `i / 50` on the way up
/// and by `(100 - i) / 50` on the way down, truncating.
pub open spec fn fade_channel(v: int, i: int) -> int {
    if i < 50 {
        v * i / 50
    } else {
        v * (100 - i) / 50
    }
}

pub open spec fn fade_pixel(c: Pixel, i: int) -> Pixel {
    Pixel {
        r: fade_channel(c.r as int, i) as u8,
        g: fade_channel(c.g as int, i) as u8,
        b: fade_channel(c.b as int, i) as u8,
    }
}

/// The image with every color faded for frame `i`.
pub open spec fn faded(image: Seq<ImagePixel>, i: int) -> Seq<ImagePixel> {
    Seq::new(
        image.len(),
        |k: int| ImagePixel { point: image[k].point, color: fade_pixel(image[k].color, i) },
    )
}

/// Scales one channel for cross-fade frame `alpha`.
pub fn apply_alpha(value: u8, alpha: u32) -> (r: u8)
    requires
        alpha <= 100,
    ensures
        r == fade_channel(value as int, alpha as int),
{
    let v = value as u32;
    proof {
        assert(v * alpha <= 255 * 100) by (nonlinear_arith)
            requires
                v <= 255,
                alpha <= 100,
        ;
        assert(v * (100 - alpha) <= 255 * 100) by (nonlinear_arith)
            requires
                v <= 255,
                alpha <= 100,
        ;
    }
    let scaled = if alpha < 50 {
        v * alpha / 50
    } else {
        v * (100 - alpha) / 50
    };
    proof {
        lemma_fade_fits(v as int, alpha as int);
    }
    scaled as u8
}

proof fn lemma_fade_fits(v: int, i: int)
    requires
        0 <= v <= 255,
        0 <= i <= 100,
    ensures
        0 <= fade_channel(v, i) <= v,
{
    if i < 50 {
        assert(0 <= v * i <= v * 50) by (nonlinear_arith)
            requires
                0 <= v,
                0 <= i < 50,
        ;
    } else {
        assert(0 <= v * (100 - i) <= v * 50) by (nonlinear_arith)
            requires
                0 <= v,
                50 <= i <= 100,
        ;
    }
}

/// A color scaled for cross-fade frame `alpha`, channel by channel.
pub fn convert_color(color: Pixel, alpha: u32) -> (r: Pixel)
    requires
        alpha <= 100,
    ensures
        r == fade_pixel(color, alpha as int),
{
    Pixel {
        r: apply_alpha(color.r, alpha),
        g: apply_alpha(color.g, alpha),
        b: apply_alpha(color.b, alpha),
    }
}

/// Draws frame `frame` of the cross-fade of `image`: the buffer is cleared to
/// black, then every pixel of the image is drawn faded, out-of-bounds ones
/// clipped.
pub fn render_fade_frame(fb: &mut FrameBuffer, image: &[ImagePixel], frame: u32)
    requires
        old(fb).wf(),
        frame < FADE_FRAMES,
    ensures
        final(fb).wf(),
        final(fb)@ == draw_all(filled(Pixel { r: 0, g: 0, b: 0 }), faded(image@, frame as int)),
{
    let mut pixels: Vec<ImagePixel> = Vec::new();
    let mut k: usize = 0;
    while k < image.len()
        invariant
            k <= image@.len(),
            frame < 100,
            pixels@ == faded(image@, frame as int).subrange(0, k as int),
        decreases image@.len() - k,
    {
        let p = image[k];
        pixels.push(ImagePixel { point: p.point, color: convert_color(p.color, frame) });
        k = k + 1;
        assert(pixels@ =~= faded(image@, frame as int).subrange(0, k as int));
    }
    assert(pixels@ =~= faded(image@, frame as int));
    fb.clear(Pixel::black());
    fb.draw_iter(pixels.as_slice());
}

/// Once frame `i` of the cross-fade is drawn, each in-bounds point holds the
/// color of the last image pixel at that point, every channel scaled for frame
/// `i`; a point that the image does not name is black.
pub proof fn lemma_fade_frame_pixel(image: Seq<ImagePixel>, i: int, q: LogicalPoint)
    requires
        0 <= i < 100,
        q.in_bounds(),
    ensures
        forall|k: int|
            0 <= k < image.len() && image[k].point == q && (forall|m: int|
                k < m < image.len() ==> (#[trigger] image[m]).point != q) ==> draw_all(
                filled(Pixel { r: 0, g: 0, b: 0 }),
                faded(image, i),
            )[index_of(q)] == fade_pixel(#[trigger] image[k].color, i),
        (forall|m: int| 0 <= m < image.len() ==> (#[trigger] image[m]).point != q) ==> draw_all(
            filled(Pixel { r: 0, g: 0, b: 0 }),
            faded(image, i),
        )[index_of(q)] == (Pixel { r: 0, g: 0, b: 0 }),
{
    let black = Pixel { r: 0, g: 0, b: 0 };
    let f = faded(image, i);
    lemma_draw_all_at(filled(black), f, q);
    crate::mapping::lemma_physical_valid(q);
    assert forall|k: int|
        0 <= k < image.len() && image[k].point == q && (forall|m: int|
            k < m < image.len() ==> (#[trigger] image[m]).point != q) implies draw_all(
        filled(black),
        f,
    )[index_of(q)] == fade_pixel(#[trigger] image[k].color, i) by {
        assert(f[k].point == q && f[k].color == fade_pixel(image[k].color, i));
        assert forall|m: int| k < m < f.len() implies (#[trigger] f[m]).point != q by {
            assert(f[m].point == image[m].point);
        }
    }
    if forall|m: int| 0 <= m < image.len() ==> (#[trigger] image[m]).point != q {
        assert forall|m: int| 0 <= m < f.len() implies (#[trigger] f[m]).point != q by {
            assert(f[m].point == image[m].point);
        }
    }
}

/// The pixels of a BMP image read as 24-bit color, in the order the decoder
/// yields them, as `(x, y, r, g, b)`; `None` when the decoder refuses the data
/// (it takes 24- and 32-bit images, and 1- and 8-bit images with a color table).
pub uninterp spec fn bmp_rgb888_pixels(data: Seq<u8>) -> Option<Seq<(i32, i32, u8, u8, u8)>>;

pub open spec fn image_pixel_of(t: (i32, i32, u8, u8, u8)) -> ImagePixel {
    ImagePixel { point: LogicalPoint { x: t.0, y: t.1 }, color: Pixel { r: t.2, g: t.3, b: t.4 } }
}

/// The little-endian 32-bit word at byte `i` of `s`.
pub open spec fn le_u32_at(s: Seq<u8>, i: int) -> int {
    s[i] + s[i + 1] * 256 + s[i + 2] * 65536 + s[i + 3] * 16777216
}

/// Whether a BMP header keeps within what the decoder handles without
/// panicking or overflowing, with a `usize` of 32 bits or more: a pixel data
/// offset inside the data, a width and a height (the latter signed) of at most
/// 4096, and a colors-used count below 2^30. Data too short to hold a field is
/// rejected by the decoder before it reads that field.
pub open spec fn bmp_within_limits(s: Seq<u8>) -> bool {
    s.len() < 26 || (le_u32_at(s, 10) <= s.len() && le_u32_at(s, 18) <= 4096 && (le_u32_at(s, 22)
        <= 4096 || le_u32_at(s, 22) >= 4294967296 - 4096) && (s.len() < 50 || le_u32_at(s, 46)
        < 1073741824))
}

fn read_le_u32(data: &[u8], i: usize) -> (r: u64)
    requires
        i + 4 <= data@.len(),
    ensures
        r == le_u32_at(data@, i as int),
{
    data[i] as u64 + data[i + 1] as u64 * 256 + data[i + 2] as u64 * 65536 + data[i + 3] as u64
        * 16777216
}

/// Relies on tinybmp's `Bmp::<Rgb888>::from_slice` and `Bmp::pixels`: the parse
/// fails or yields the image's pixels, as a function of the bytes alone. Outside
/// `bmp_within_limits` the decoder can panic (a data offset past the end, a
/// height of `i32::MIN`, row offsets or a color table length that overflow).
#[verifier::external_body]
fn bmp_pixels(data: &[u8]) -> (r: Option<Vec<ImagePixel>>)
    requires
        bmp_within_limits(data@),
    ensures
        bmp_rgb888_pixels(data@) is None ==> r is None,
        bmp_rgb888_pixels(data@) is Some ==> r is Some && r->Some_0@.len()
            == bmp_rgb888_pixels(data@)->Some_0.len() && forall|k: int|
            0 <= k < r->Some_0@.len() ==> r->Some_0@[k] == image_pixel_of(
                #[trigger] bmp_rgb888_pixels(data@)->Some_0[k],
            ),
{
    let bmp = Bmp::<Rgb888>::from_slice(data).ok()?;
    let mut out: Vec<ImagePixel> = Vec::new();
    for p in bmp.pixels() {
        let point = LogicalPoint { x: p.0.x, y: p.0.y };
        out.push(ImagePixel { point, color: Pixel { r: p.1.r(), g: p.1.g(), b: p.1.b() } });
    }
    Some(out)
}

/// Decodes a BMP image into the pixels to draw; `None` when the decoder refuses
/// the data, or its header is beyond the decoder's limits.
pub fn decode_image(data: &[u8]) -> (r: Option<Vec<ImagePixel>>)
    ensures
        !bmp_within_limits(data@) ==> r is None,
        bmp_within_limits(data@) && bmp_rgb888_pixels(data@) is None ==> r is None,
        bmp_within_limits(data@) && bmp_rgb888_pixels(data@) is Some ==> r is Some && r->Some_0@ == Seq::new(
            bmp_rgb888_pixels(data@)->Some_0.len(),
            |k: int| image_pixel_of(bmp_rgb888_pixels(data@)->Some_0[k]),
        ),
{
    if data.len() >= 26 {
        let offset = read_le_u32(data, 10);
        let width = read_le_u32(data, 18);
        let height = read_le_u32(data, 22);
        if offset > data.len() as u64 || width > 4096 || (height > 4096 && height < 4294967296
            - 4096) {
            return None;
        }
        if data.len() >= 50 && read_le_u32(data, 46) >= 1073741824 {
            return None;
        }
    }
    let r = bmp_pixels(data);
    proof {
        if bmp_rgb888_pixels(data@) is Some {
            let s = bmp_rgb888_pixels(data@)->Some_0;
            assert(r->Some_0@ =~= Seq::new(s.len(), |k: int| image_pixel_of(s[k])));
        }
    }
    r
}

/// Milliseconds each cross-fade frame is shown when the pulse lasts `total_ms`.
pub fn fade_frame_delay(total_ms: u32) -> (r: u32)
    ensures
        r == total_ms / 100,
{
    total_ms / FADE_FRAMES
}

/// The cross-fade is symmetric about frame 50: frames `i` and `100 - i` get the
/// same scale, `i / 50` (truncating); frame 0 is off and frame 50 is full.
pub proof fn lemma_fade_symmetry(v: int, i: int)
    requires
        0 <= v <= 255,
        0 < i < 50,
    ensures
        fade_channel(v, i) == v * i / 50,
        fade_channel(v, 100 - i) == v * i / 50,
        fade_channel(v, 0) == 0,
        fade_channel(v, 50) == v,
{
    assert(v * 0 == 0);
    assert(v * 50 / 50 == v) by (nonlinear_arith);
}

/// Surface row that the bottom of the scrolling text's first line sits on.
pub const TEXT_BOTTOM_ROW: i32 = 7;

/// Whether the 5x8 ASCII font lights the surface pixel `(x, y)` when `text` is
/// drawn with its left edge at column `left` and the bottom of its first line
/// on row `bottom`.
pub uninterp spec fn font_5x8_lit(text: Seq<char>, left: int, bottom: int, x: int, y: int) -> bool;

/// Relies on embedded_graphics' `Text` drawing with `FONT_5X8` (bottom baseline,
/// no background): whether pixel `(x, y)` comes out lit. The result depends on
/// the arguments alone. Glyph columns and line rows are `i32` sums (5 per
/// character, 8 per line), so both must stay within `i32`.
#[verifier::external_body]
fn text_pixel_lit(text: &str, left: i32, bottom: i32, x: i32, y: i32) -> (r: bool)
    requires
        left + 5 * text@.len() <= i32::MAX,
        0 <= bottom < 8,
        8 * text@.len() + 7 <= i32::MAX,
        0 <= x < 8,
        0 <= y < 8,
    ensures
        r == font_5x8_lit(text@, left as int, bottom as int, x as int, y as int),
{
    let mut target: MockDisplay<BinaryColor> = MockDisplay::new();
    target.set_allow_out_of_bounds_drawing(true);
    target.set_allow_overdraw(true);
    let style = MonoTextStyle::new(&FONT_5X8, BinaryColor::On);
    let text_style = TextStyleBuilder::new().baseline(Baseline::Bottom).build();
    let _ = Text::with_text_style(text, Point::new(left, bottom), style, text_style).draw(&mut target);
    matches!(target.get_pixel(Point::new(x, y)), Some(BinaryColor::On))
}

/// The surface showing `text` scrolled left by `offset` columns: lit font pixels
/// white, the rest black.
pub open spec fn scroll_frame(text: Seq<char>, offset: int) -> Seq<Pixel> {
    Seq::new(
        64,
        |i: int|
            if font_5x8_lit(
                text,
                -offset,
                TEXT_BOTTOM_ROW as int,
                point_of_index(i).x as int,
                point_of_index(i).y as int,
            ) {
                Pixel { r: 255, g: 255, b: 255 }
            } else {
                Pixel { r: 0, g: 0, b: 0 }
            },
    )
}

/// Number of scroll positions of `text`: one per column of its glyphs.
pub fn scroll_frame_count(text: &str) -> (r: usize)
    requires
        text.spec_bytes().len() * 5 <= i32::MAX,
    ensures
        r == text.spec_bytes().len() * 5,
{
    text.len() * GLYPH_WIDTH
}

/// Draws `text` scrolled left by `offset` columns.
pub fn render_scroll_frame(fb: &mut FrameBuffer, text: &str, offset: usize)
    requires
        old(fb).wf(),
        offset <= i32::MAX,
        8 * text@.len() + 7 <= i32::MAX,
    ensures
        final(fb).wf(),
        final(fb)@ == scroll_frame(text@, offset as int),
{
    let left: i32 = -(offset as i32);
    let black = Pixel::black();
    let white = Pixel::white();
    fb.clear(black);
    let mut i: usize = 0;
    while i < SURFACE_PIXELS
        invariant
            i <= 64,
            left == -offset,
            8 * text@.len() + 7 <= i32::MAX,
            white == (Pixel { r: 255, g: 255, b: 255 }),
            black == (Pixel { r: 0, g: 0, b: 0 }),
            fb.wf(),
            forall|j: int| 0 <= j < i ==> fb@[j] == #[trigger] scroll_frame(text@, offset as int)[j],
            forall|j: int| i <= j < 64 ==> fb@[j] == black,
        decreases 64 - i,
    {
        let p: LogicalPoint = point_for_index(i);
        let lit = text_pixel_lit(text, left, TEXT_BOTTOM_ROW, p.x, p.y);
        if lit {
            fb.set(p, white);
        }
        assert(point_of_index(i as int) == p);
        i = i + 1;
    }
    assert(fb@ =~= scroll_frame(text@, offset as int));
}

/// Position of a scrolling text: the current offset among `frames` positions,
/// back to 0 after the last.
pub struct ScrollState {
    frames: usize,
    offset: usize,
}

/// The offset after one tick among `frames` positions.
pub open spec fn next_offset(offset: int, frames: int) -> int {
    if offset + 1 >= frames {
        0
    } else {
        offset + 1
    }
}

/// The offset after `k` ticks from 0.
pub open spec fn offset_after(frames: int, k: nat) -> int
    decreases k,
{
    if k == 0 {
        0
    } else {
        next_offset(offset_after(frames, (k - 1) as nat), frames)
    }
}

impl ScrollState {
    pub closed spec fn frames(&self) -> int {
        self.frames as int
    }

    pub closed spec fn offset_spec(&self) -> int {
        self.offset as int
    }

    /// The offset is one of the positions, or 0 when there are none.
    pub open spec fn wf(&self) -> bool {
        self.frames() <= i32::MAX && 0 <= self.offset_spec() && (self.offset_spec() < self.frames()
            || self.offset_spec() == 0)
    }

    /// A scroll of `text`, at offset 0. An empty text has no positions, and its
    /// offset stays 0.
    pub fn new(text: &str) -> (r: ScrollState)
        requires
            text.spec_bytes().len() * 5 <= i32::MAX,
        ensures
            r.wf(),
            r.frames() == text.spec_bytes().len() * 5,
            r.offset_spec() == 0,
    {
        ScrollState { frames: scroll_frame_count(text), offset: 0 }
    }

    pub fn offset(&self) -> (r: usize)
        ensures
            r == self.offset_spec(),
    {
        self.offset
    }

    /// Moves one column on, restarting at 0 after the last position; with no
    /// positions the offset stays 0.
    pub fn advance(&mut self)
        requires
            old(self).wf(),
        ensures
            final(self).wf(),
            final(self).frames() == old(self).frames(),
            final(self).offset_spec() == next_offset(old(self).offset_spec(), old(self).frames()),
    {
        if self.offset + 1 >= self.frames {
            self.offset = 0;
        } else {
            self.offset = self.offset + 1;
        }
    }
}

/// A scroll over `frames` positions visits the offsets `0, 1, ..., frames - 1`
/// in turn, each once, and the tick after the last is back at offset 0, where
/// the frame drawn is the same as the first.
pub proof fn lemma_scroll_wraps(text: Seq<char>, frames: int)
    requires
        frames > 0,
    ensures
        forall|k: nat| k < frames ==> #[trigger] offset_after(frames, k) == k,
        offset_after(frames, frames as nat) == 0,
        scroll_frame(text, offset_after(frames, frames as nat)) == scroll_frame(text, 0),
{
    assert forall|k: nat| k < frames implies #[trigger] offset_after(frames, k) == k by {
        lemma_offset_counts(frames, k);
    }
    lemma_offset_counts(frames, (frames - 1) as nat);
    assert(offset_after(frames, frames as nat) == next_offset(
        offset_after(frames, (frames - 1) as nat),
        frames,
    ));
}

proof fn lemma_offset_counts(frames: int, k: nat)
    requires
        k < frames,
    ensures
        offset_after(frames, k) == k,
    decreases k,
{
    if k > 0 {
        lemma_offset_counts(frames, (k - 1) as nat);
    }
}

} // verus!
