use vstd::prelude::*;

use crate::lights::Pixel;
use crate::mapping::{
    index_for_coordinate, index_for_device_and_pixel, index_of, lemma_mapping_bijective,
    physical_of, LogicalPoint,
    SURFACE_PIXELS, SURFACE_SIZE,
};

verus! {

/// Offset added to a buffer index to make a key's scan code.
pub const SCAN_CODE_OFFSET: u8 = 4;

/// A button transition reported by a tile.
#[derive(Clone, Copy, Debug, PartialEq, Eq, Structural)]
pub enum Edge {
    Rising,
    Falling,
}

/// An edge event as a tile reports it: which of its pixels, and which edge.
#[derive(Clone, Copy, Debug, PartialEq, Eq, Structural)]
pub struct RawEdgeEvent {
    pub device: u32,
    pub pixel: u32,
    pub edge: Edge,
}

#[derive(Clone, Copy, Debug, PartialEq, Eq, Structural)]
pub enum EventType {
    KeyDown,
    KeyUp,
}

/// A logical key transition.
#[derive(Clone, Copy, Debug, PartialEq, Eq, Structural)]
pub struct KeyEvent {
    pub usb_scan_code: u8,
    pub event_type: EventType,
}

pub open spec fn event_type_of(edge: Edge) -> EventType {
    match edge {
        Edge::Falling => EventType::KeyUp,
        Edge::Rising => EventType::KeyDown,
    }
}

impl From<Edge> for EventType {
    fn from(edge: Edge) -> (r: EventType)
        ensures
            r == event_type_of(edge),
    {
        match edge {
            Edge::Falling => EventType::KeyUp,
            Edge::Rising => EventType::KeyDown,
        }
    }
}

impl vstd::std_specs::convert::FromSpecImpl<Edge> for EventType {
    open spec fn obeys_from_spec() -> bool {
        true
    }

    open spec fn from_spec(edge: Edge) -> EventType {
        event_type_of(edge)
    }
}

/// A pixel to draw: where, and in which color.
#[derive(Clone, Copy, Debug, PartialEq, Eq, Structural)]
pub struct ImagePixel {
    pub point: LogicalPoint,
    pub color: Pixel,
}

/// The buffer after drawing `c` at `p`: out-of-bounds points are clipped.
pub open spec fn draw_point(buf: Seq<Pixel>, p: LogicalPoint, c: Pixel) -> Seq<Pixel> {
    if p.in_bounds() {
        buf.update(index_of(p), c)
    } else {
        buf
    }
}

/// The buffer after drawing `pixels` in order, later ones over earlier ones.
pub open spec fn draw_all(buf: Seq<Pixel>, pixels: Seq<ImagePixel>) -> Seq<Pixel>
    decreases pixels.len(),
{
    if pixels.len() == 0 {
        buf
    } else {
        draw_point(draw_all(buf, pixels.drop_last()), pixels.last().point, pixels.last().color)
    }
}

/// A buffer of 64 pixels filled with `c`.
pub open spec fn filled(c: Pixel) -> Seq<Pixel> {
    Seq::new(64, |i: int| c)
}

/// The color a key's pixel takes on an edge: white when pressed, black when released.
pub open spec fn feedback_color(edge: Edge) -> Pixel {
    match edge {
        Edge::Rising => Pixel { r: 255, g: 255, b: 255 },
        Edge::Falling => Pixel { r: 0, g: 0, b: 0 },
    }
}

/// The 64 pixels of the surface, stored device by device (`device * 16 + pixel`)
/// so that each tile's 16 pixels are contiguous, with a flag telling whether
/// anything was written since the last flush.
pub struct FrameBuffer {
    pixels: Vec<Pixel>,
    dirty: bool,
}

impl View for FrameBuffer {
    type V = Seq<Pixel>;

    closed spec fn view(&self) -> Seq<Pixel> {
        self.pixels@
    }
}

impl FrameBuffer {
    pub open spec fn wf(&self) -> bool {
        self@.len() == 64
    }

    /// Whether the buffer changed since the last flush.
    pub closed spec fn is_dirty(&self) -> bool {
        self.dirty
    }

    /// A buffer with every pixel off, to be flushed once.
    pub fn new() -> (r: FrameBuffer)
        ensures
            r.wf(),
            r@ == filled(Pixel { r: 0, g: 0, b: 0 }),
            r.is_dirty(),
    {
        let black = Pixel::black();
        let mut pixels: Vec<Pixel> = Vec::new();
        let mut i: usize = 0;
        while i < SURFACE_PIXELS
            invariant
                i <= SURFACE_PIXELS,
                pixels@ == Seq::new(i as nat, |j: int| black),
            decreases SURFACE_PIXELS - i,
        {
            pixels.push(black);
            i = i + 1;
            assert(pixels@ =~= Seq::new(i as nat, |j: int| black));
        }
        assert(pixels@ =~= filled(black));
        FrameBuffer { pixels, dirty: true }
    }

    /// Width and height of the surface.
    pub fn size(&self) -> (r: (u32, u32))
        ensures
            r == (8u32, 8u32),
    {
        (SURFACE_SIZE, SURFACE_SIZE)
    }

    /// The pixel at buffer index `index`.
    pub fn get(&self, index: usize) -> (r: Pixel)
        requires
            self.wf(),
            index < 64,
        ensures
            r == self@[index as int],
    {
        self.pixels[index]
    }

    /// The pixel shown at `p`, or `None` when `p` is out of bounds.
    pub fn pixel_at(&self, p: LogicalPoint) -> (r: Option<Pixel>)
        requires
            self.wf(),
        ensures
            p.in_bounds() ==> r == Some(self@[index_of(p)]),
            !p.in_bounds() ==> r is None,
    {
        match index_for_coordinate::<()>(p) {
            Ok(i) => Some(self.pixels[i]),
            Err(_) => None,
        }
    }

    /// Writes `c` at `p`; a point out of bounds is ignored.
    pub fn set(&mut self, p: LogicalPoint, c: Pixel)
        requires
            old(self).wf(),
        ensures
            final(self).wf(),
            final(self)@ == draw_point(old(self)@, p, c),
            final(self).is_dirty() == (old(self).is_dirty() || p.in_bounds()),
    {
        if let Ok(i) = index_for_coordinate::<()>(p) {
            self.pixels.set(i, c);
            self.dirty = true;
        }
    }

    /// Sets every pixel to `c`.
    pub fn clear(&mut self, c: Pixel)
        requires
            old(self).wf(),
        ensures
            final(self).wf(),
            final(self)@ == filled(c),
            final(self).is_dirty(),
    {
        let mut i: usize = 0;
        while i < SURFACE_PIXELS
            invariant
                i <= SURFACE_PIXELS,
                self.pixels@.len() == 64,
                forall|j: int| 0 <= j < i ==> self.pixels@[j] == c,
            decreases SURFACE_PIXELS - i,
        {
            self.pixels.set(i, c);
            i = i + 1;
        }
        self.dirty = true;
        assert(self.pixels@ =~= filled(c));
    }

    /// Draws `pixels` in order, clipping those out of bounds.
    pub fn draw_iter(&mut self, pixels: &[ImagePixel])
        requires
            old(self).wf(),
        ensures
            final(self).wf(),
            final(self)@ == draw_all(old(self)@, pixels@),
            final(self).is_dirty() == (old(self).is_dirty() || exists|k: int|
                0 <= k < pixels@.len() && (#[trigger] pixels@[k]).point.in_bounds()),
    {
        let ghost start = self@;
        let ghost dirty0 = self.dirty;
        let mut k: usize = 0;
        while k < pixels.len()
            invariant
                k <= pixels@.len(),
                self.wf(),
                self@ == draw_all(start, pixels@.subrange(0, k as int)),
                self.dirty == (dirty0 || exists|m: int|
                    0 <= m < k && (#[trigger] pixels@[m]).point.in_bounds()),
            decreases pixels@.len() - k,
        {
            let px = pixels[k];
            self.set(px.point, px.color);
            proof {
                let pre = pixels@.subrange(0, k as int);
                let post = pixels@.subrange(0, k + 1);
                assert(post.drop_last() =~= pre);
                assert(post.last() == px);
                if self.dirty {
                    if !dirty0 && !px.point.in_bounds() {
                        let m = choose|m: int| 0 <= m < k && (#[trigger] pixels@[m]).point.in_bounds();
                        assert(0 <= m < k + 1 && pixels@[m].point.in_bounds());
                    }
                }
            }
            k = k + 1;
        }
        assert(pixels@.subrange(0, pixels@.len() as int) =~= pixels@);
    }

    /// The 16 pixels of tile `device`, in its own pixel order.
    pub fn device_pixels(&self, device: u32) -> (r: Vec<Pixel>)
        requires
            self.wf(),
            device < 4,
        ensures
            r@ == self@.subrange(device * 16, device * 16 + 16),
    {
        let start = index_for_device_and_pixel(device, 0);
        let mut r: Vec<Pixel> = Vec::new();
        let mut i: usize = 0;
        while i < 16
            invariant
                i <= 16,
                device < 4,
                start == device * 16,
                self.wf(),
                r@ == self@.subrange(start as int, start + i),
            decreases 16 - i,
        {
            r.push(self.pixels[start + i]);
            i = i + 1;
            assert(r@ =~= self@.subrange(start as int, start + i));
        }
        r
    }

    /// Applies a key edge of tile `ev.device`: the buffer entry at
    /// `device * 16 + pixel` turns white on a press and black on a release.
    /// Returns the logical key event, whose scan code is `device * 16 + pixel + 4`.
    pub fn apply_key_event(&mut self, ev: RawEdgeEvent) -> (r: KeyEvent)
        requires
            old(self).wf(),
            ev.device * 16 + ev.pixel < 64,
        ensures
            final(self).wf(),
            final(self)@ == old(self)@.update(ev.device * 16 + ev.pixel, feedback_color(ev.edge)),
            final(self).is_dirty(),
            r == (KeyEvent {
                usb_scan_code: (ev.device * 16 + ev.pixel + 4) as u8,
                event_type: event_type_of(ev.edge),
            }),
    {
        let index = index_for_device_and_pixel(ev.device, ev.pixel);
        let color = match ev.edge {
            Edge::Falling => Pixel::black(),
            Edge::Rising => Pixel::white(),
        };
        self.pixels.set(index, color);
        self.dirty = true;
        KeyEvent { usb_scan_code: index as u8 + SCAN_CODE_OFFSET, event_type: EventType::from(ev.edge) }
    }

    /// Records that the buffer was pushed to the tiles.
    pub fn mark_flushed(&mut self)
        ensures
            final(self)@ == old(self)@,
            !final(self).is_dirty(),
    {
        self.dirty = false;
    }

    /// Whether a flush is needed.
    pub fn needs_flush(&self) -> (r: bool)
        ensures
            r == self.is_dirty(),
    {
        self.dirty
    }
}

/// Writing an in-bounds point and reading the buffer back at that point's
/// physical address gives the color written.
pub proof fn lemma_set_then_read(buf: Seq<Pixel>, p: LogicalPoint, c: Pixel)
    requires
        buf.len() == 64,
        p.in_bounds(),
    ensures
        draw_point(buf, p, c)[physical_of(p).index()] == c,
        draw_point(buf, p, c).len() == 64,
{
    crate::mapping::lemma_physical_valid(p);
}

/// Writing an out-of-bounds point leaves the whole buffer as it was, while the
/// mapper itself reports such a point as out of bounds.
pub proof fn lemma_clipping(buf: Seq<Pixel>, p: LogicalPoint, c: Pixel)
    requires
        !p.in_bounds(),
    ensures
        draw_point(buf, p, c) == buf,
{
}

proof fn lemma_draw_all_len(buf: Seq<Pixel>, pixels: Seq<ImagePixel>)
    requires
        buf.len() == 64,
    ensures
        draw_all(buf, pixels).len() == 64,
    decreases pixels.len(),
{
    if pixels.len() > 0 {
        lemma_draw_all_len(buf, pixels.drop_last());
        let p = pixels.last().point;
        if p.in_bounds() {
            crate::mapping::lemma_physical_valid(p);
        }
    }
}

/// After drawing `pixels` in order, an in-bounds point holds the color of the
/// last pixel drawn there, and a point that no pixel names keeps its color.
pub proof fn lemma_draw_all_at(buf: Seq<Pixel>, pixels: Seq<ImagePixel>, q: LogicalPoint)
    requires
        buf.len() == 64,
        q.in_bounds(),
    ensures
        forall|k: int|
            0 <= k < pixels.len() && pixels[k].point == q && (forall|m: int|
                k < m < pixels.len() ==> (#[trigger] pixels[m]).point != q) ==> draw_all(
                buf,
                pixels,
            )[index_of(q)] == #[trigger] pixels[k].color,
        (forall|m: int| 0 <= m < pixels.len() ==> (#[trigger] pixels[m]).point != q) ==> draw_all(
            buf,
            pixels,
        )[index_of(q)] == buf[index_of(q)],
    decreases pixels.len(),
{
    lemma_mapping_bijective();
    crate::mapping::lemma_physical_valid(q);
    if pixels.len() > 0 {
        let init = pixels.drop_last();
        let last = pixels.last();
        lemma_draw_all_at(buf, init, q);
        lemma_draw_all_len(buf, init);
        let before = draw_all(buf, init);
        if last.point.in_bounds() && last.point != q {
            crate::mapping::lemma_physical_valid(last.point);
            assert(index_of(last.point) != index_of(q));
        }
        assert forall|k: int|
            0 <= k < pixels.len() && pixels[k].point == q && (forall|m: int|
                k < m < pixels.len() ==> (#[trigger] pixels[m]).point != q) implies draw_all(
            buf,
            pixels,
        )[index_of(q)] == #[trigger] pixels[k].color by {
            if k < pixels.len() - 1 {
                assert(pixels[pixels.len() - 1].point != q);
                assert(init[k] == pixels[k]);
                assert forall|m: int| k < m < init.len() implies (#[trigger] init[m]).point != q by {
                    assert(init[m] == pixels[m]);
                }
            }
        }
        if forall|m: int| 0 <= m < pixels.len() ==> (#[trigger] pixels[m]).point != q {
            assert(pixels[pixels.len() - 1].point != q);
            assert forall|m: int| 0 <= m < init.len() implies (#[trigger] init[m]).point != q by {
                assert(init[m] == pixels[m]);
            }
        }
    }
}

} // verus!
