use vstd::prelude::*;

verus! {

/// Width and height of the logical surface.
pub const SURFACE_SIZE: u32 = 8;

/// Number of pixels on the whole surface.
pub const SURFACE_PIXELS: usize = 64;

/// Errors of the logical surface; `E` is the error of the device transport.
#[derive(Debug)]
pub enum Error<E> {
    Device(E),
    OutOfBoundsCoordinate,
}

/// A point of the unified surface, origin top-left. Only points with both axes
/// in `0..=7` address a pixel.
#[derive(Clone, Copy, Debug, PartialEq, Eq, Structural)]
pub struct LogicalPoint {
    pub x: i32,
    pub y: i32,
}

/// A pixel of one tile: `device` in `0..4`, `pixel` in `0..16`.
#[derive(Clone, Copy, Debug, PartialEq, Eq, Structural)]
pub struct PhysicalAddress {
    pub device: u32,
    pub pixel: u32,
}

impl LogicalPoint {
    pub open spec fn in_bounds(self) -> bool {
        0 <= self.x < 8 && 0 <= self.y < 8
    }
}

impl PhysicalAddress {
    pub open spec fn valid(self) -> bool {
        self.device < 4 && self.pixel < 16
    }

    /// Position of this address in a buffer laid out device by device.
    pub open spec fn index(self) -> int {
        self.device * 16 + self.pixel
    }
}

/// The tile that holds logical point `(x, y)`. The tiles are mirrored along both
/// axes relative to a row-major tiling, as the panels are wired.
pub open spec fn device_of(x: int, y: int) -> int {
    (1 - x / 4) * 1 + (1 - y / 4) * 2
}

/// The pixel within its tile of logical point `(x, y)`: row-major in a 4x4 block.
pub open spec fn pixel_of(x: int, y: int) -> int {
    x % 4 + (y % 4) * 4
}

/// The physical address of an in-bounds logical point.
pub open spec fn physical_of(p: LogicalPoint) -> PhysicalAddress {
    PhysicalAddress {
        device: device_of(p.x as int, p.y as int) as u32,
        pixel: pixel_of(p.x as int, p.y as int) as u32,
    }
}

/// Buffer index of an in-bounds logical point.
pub open spec fn index_of(p: LogicalPoint) -> int {
    device_of(p.x as int, p.y as int) * 16 + pixel_of(p.x as int, p.y as int)
}

/// The logical point shown by buffer index `i` (`0 <= i < 64`).
pub open spec fn point_of_index(i: int) -> LogicalPoint {
    let d = i / 16;
    let pix = i % 16;
    LogicalPoint { x: (pix % 4 + 4 * (1 - d % 2)) as i32, y: (pix / 4 + 4 * (1 - d / 2)) as i32 }
}

/// Buffer index of a device's pixel.
pub fn index_for_device_and_pixel(device_idx: u32, pix_idx: u32) -> (r: usize)
    requires
        device_idx * 16 + pix_idx <= u32::MAX,
    ensures
        r == device_idx * 16 + pix_idx,
{
    (device_idx * 16 + pix_idx) as usize
}

/// The logical point shown by buffer index `i`.
pub fn point_for_index(i: usize) -> (r: LogicalPoint)
    requires
        i < 64,
    ensures
        r == point_of_index(i as int),
        r.in_bounds(),
        index_of(r) == i,
{
    let d = i / 16;
    let pix = i % 16;
    let x = pix % 4 + 4 * (1 - d % 2);
    let y = pix / 4 + 4 * (1 - d / 2);
    LogicalPoint { x: x as i32, y: y as i32 }
}

/// Maps a logical point to the tile and pixel that show it.
pub fn to_physical<E>(p: LogicalPoint) -> (r: Result<PhysicalAddress, Error<E>>)
    ensures
        p.in_bounds() ==> r == Ok::<PhysicalAddress, Error<E>>(physical_of(p)),
        !p.in_bounds() ==> r is Err && r->Err_0 is OutOfBoundsCoordinate,
{
    if 0 <= p.x && p.x <= 7 && 0 <= p.y && p.y <= 7 {
        let device = (1 - p.x / 4) * 1 + (1 - p.y / 4) * 2;
        let pixel = p.x % 4 + (p.y % 4) * 4;
        Ok(PhysicalAddress { device: device as u32, pixel: pixel as u32 })
    } else {
        Err(Error::OutOfBoundsCoordinate)
    }
}

/// Buffer index of a logical point.
pub fn index_for_coordinate<E>(p: LogicalPoint) -> (r: Result<usize, Error<E>>)
    ensures
        p.in_bounds() ==> r is Ok && r->Ok_0 == index_of(p),
        !p.in_bounds() ==> r is Err && r->Err_0 is OutOfBoundsCoordinate,
{
    match to_physical::<E>(p) {
        Ok(a) => {
            proof { lemma_physical_valid(p); }
            Ok(index_for_device_and_pixel(a.device, a.pixel))
        },
        Err(e) => Err(e),
    }
}

/// Every in-bounds point maps to a valid address, at the index `index_of` gives.
pub proof fn lemma_physical_valid(p: LogicalPoint)
    requires
        p.in_bounds(),
    ensures
        physical_of(p).valid(),
        physical_of(p).index() == index_of(p),
        0 <= index_of(p) < 64,
{
}

/// The mapping is a bijection between the 64 in-bounds logical points and the
/// 64 device/pixel pairs: distinct points give distinct addresses, and every
/// valid address is the image of exactly the point `point_of_index` names.
pub proof fn lemma_mapping_bijective()
    ensures
        forall|p: LogicalPoint, q: LogicalPoint|
            p.in_bounds() && q.in_bounds() && #[trigger] physical_of(p) == #[trigger] physical_of(q)
                ==> p == q,
        forall|a: PhysicalAddress|
            #![trigger a.valid()]
            a.valid() ==> point_of_index(a.index()).in_bounds()
                && physical_of(point_of_index(a.index())) == a,
        forall|p: LogicalPoint| #[trigger] p.in_bounds() ==> point_of_index(index_of(p)) == p,
{
    assert forall|p: LogicalPoint| #[trigger] p.in_bounds() implies point_of_index(index_of(p)) == p by {
        lemma_round_trip_point(p);
    }
    assert forall|p: LogicalPoint, q: LogicalPoint|
        p.in_bounds() && q.in_bounds() && #[trigger] physical_of(p) == #[trigger] physical_of(q)
            implies p == q by {
        lemma_round_trip_point(p);
        lemma_round_trip_point(q);
    }
    assert forall|a: PhysicalAddress|
        #![trigger a.valid()]
        a.valid() implies point_of_index(a.index()).in_bounds()
            && physical_of(point_of_index(a.index())) == a by {
        let i = a.index();
        assert(i / 16 == a.device as int && i % 16 == a.pixel as int);
    }
}

proof fn lemma_round_trip_point(p: LogicalPoint)
    requires
        p.in_bounds(),
    ensures
        point_of_index(index_of(p)) == p,
{
    let i = index_of(p);
    assert(i / 16 == device_of(p.x as int, p.y as int));
    assert(i % 16 == pixel_of(p.x as int, p.y as int));
}

} // verus!
