use trellis_core::display::{Edge, EventType, FrameBuffer, ImagePixel, KeyEvent, RawEdgeEvent};
use trellis_core::lights::Pixel;
use trellis_core::mapping::{index_for_coordinate, LogicalPoint};

fn pt(x: i32, y: i32) -> LogicalPoint {
    LogicalPoint { x, y }
}

fn snapshot(fb: &FrameBuffer) -> Vec<Pixel> {
    (0..64).map(|i| fb.get(i)).collect()
}

#[test]
fn new_buffer_is_black_and_dirty() {
    let fb = FrameBuffer::new();
    assert!(snapshot(&fb).iter().all(|p| *p == Pixel::black()));
    assert!(fb.needs_flush());
    assert_eq!(fb.size(), (8, 8));
}

#[test]
fn set_then_read_back_every_point() {
    let mut fb = FrameBuffer::new();
    for y in 0..8 {
        for x in 0..8 {
            let c = Pixel { r: x as u8, g: y as u8, b: 7 };
            fb.set(pt(x, y), c);
            let i = match index_for_coordinate::<()>(pt(x, y)) {
                Ok(i) => i,
                Err(_) => panic!("in-bounds point rejected"),
            };
            assert_eq!(fb.get(i), c);
            assert_eq!(fb.pixel_at(pt(x, y)), Some(c));
        }
    }
}

#[test]
fn out_of_bounds_set_changes_nothing() {
    let mut fb = FrameBuffer::new();
    fb.set(pt(1, 1), Pixel::white());
    fb.mark_flushed();
    let before = snapshot(&fb);
    for p in [pt(8, 0), pt(-1, 0), pt(0, 8), pt(0, -1), pt(20, 20)] {
        fb.set(p, Pixel { r: 9, g: 9, b: 9 });
        assert_eq!(fb.pixel_at(p), None);
    }
    assert_eq!(snapshot(&fb), before);
    assert!(!fb.needs_flush());
}

#[test]
fn clear_fills_and_marks_dirty() {
    let mut fb = FrameBuffer::new();
    fb.mark_flushed();
    let c = Pixel { r: 1, g: 2, b: 3 };
    fb.clear(c);
    assert!(snapshot(&fb).iter().all(|p| *p == c));
    assert!(fb.needs_flush());
}

#[test]
fn device_slices_are_contiguous() {
    let mut fb = FrameBuffer::new();
    fb.set(pt(7, 7), Pixel::white());
    fb.set(pt(0, 0), Pixel { r: 5, g: 0, b: 0 });
    let d0 = fb.device_pixels(0);
    assert_eq!(d0.len(), 16);
    assert_eq!(d0[15], Pixel::white());
    let d3 = fb.device_pixels(3);
    assert_eq!(d3[0], Pixel { r: 5, g: 0, b: 0 });
    assert!(fb.device_pixels(1).iter().all(|p| *p == Pixel::black()));
}

#[test]
fn draw_iter_clips_and_later_pixels_win() {
    let mut fb = FrameBuffer::new();
    let red = Pixel { r: 255, g: 0, b: 0 };
    let blue = Pixel { r: 0, g: 0, b: 255 };
    let pixels = [
        ImagePixel { point: pt(2, 2), color: red },
        ImagePixel { point: pt(9, 2), color: red },
        ImagePixel { point: pt(2, 2), color: blue },
        ImagePixel { point: pt(3, 2), color: red },
    ];
    fb.draw_iter(&pixels);
    assert_eq!(fb.pixel_at(pt(2, 2)), Some(blue));
    assert_eq!(fb.pixel_at(pt(3, 2)), Some(red));
    assert_eq!(fb.pixel_at(pt(4, 2)), Some(Pixel::black()));
}

#[test]
fn key_edges_light_pixels_and_make_events() {
    let mut fb = FrameBuffer::new();
    let down = fb.apply_key_event(RawEdgeEvent { device: 2, pixel: 5, edge: Edge::Rising });
    assert_eq!(down, KeyEvent { usb_scan_code: 41, event_type: EventType::KeyDown });
    assert_eq!(fb.get(37), Pixel::white());
    let up = fb.apply_key_event(RawEdgeEvent { device: 2, pixel: 5, edge: Edge::Falling });
    assert_eq!(up, KeyEvent { usb_scan_code: 41, event_type: EventType::KeyUp });
    assert_eq!(fb.get(37), Pixel::black());
    let last = fb.apply_key_event(RawEdgeEvent { device: 3, pixel: 15, edge: Edge::Rising });
    assert_eq!(last.usb_scan_code, 67);
}

#[test]
fn key_index_past_its_tile_addresses_the_next_entry() {
    let mut fb = FrameBuffer::new();
    let ev = fb.apply_key_event(RawEdgeEvent { device: 1, pixel: 20, edge: Edge::Rising });
    assert_eq!(ev.usb_scan_code, 40);
    assert_eq!(fb.get(36), Pixel::white());
}

#[test]
fn edge_converts_to_event_type() {
    assert_eq!(EventType::from(Edge::Rising), EventType::KeyDown);
    assert_eq!(EventType::from(Edge::Falling), EventType::KeyUp);
}
