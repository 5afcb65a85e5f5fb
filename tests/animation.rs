use trellis_core::animation::{
    apply_alpha, convert_color, decode_image, fade_frame_delay, render_fade_frame,
    render_scroll_frame, scroll_frame_count, ScrollState,
};
use trellis_core::display::{FrameBuffer, ImagePixel};
use trellis_core::lights::{BreathingLights, Pixel};
use trellis_core::mapping::LogicalPoint;

fn snapshot(fb: &FrameBuffer) -> Vec<Pixel> {
    (0..64).map(|i| fb.get(i)).collect()
}

#[test]
fn breathing_rises_then_falls_with_step_26() {
    let mut b = BreathingLights::new(26);
    assert_eq!(b.value(), 0);
    let mut values = Vec::new();
    for _ in 0..20 {
        b.calculate_next_state();
        values.push(b.value());
    }
    assert_eq!(
        values,
        vec![26, 52, 78, 104, 130, 156, 182, 208, 234, 255, 229, 203, 177, 151, 125, 99, 73, 47, 21, 0]
    );
    b.calculate_next_state();
    assert_eq!(b.value(), 26);
}

#[test]
fn breathing_cycle_length_is_twice_ceil_of_255_over_step() {
    for step in [1u8, 2, 5, 17, 26, 100, 128, 254, 255] {
        let n = (255 + step as u32 - 1) / step as u32;
        let mut b = BreathingLights::new(step);
        for k in 1..=2 * n {
            b.calculate_next_state();
            if k == n {
                assert_eq!(b.value(), 255);
            }
            if k < 2 * n {
                assert!(b.value() > 0);
            }
        }
        assert_eq!(b.value(), 0);
        b.calculate_next_state();
        assert_eq!(b.value(), step);
    }
}

#[test]
fn show_next_fills_a_tile_with_the_new_gray() {
    let mut b = BreathingLights::new(100);
    let m = b.show_next();
    assert_eq!(m.len(), 16);
    assert!(m.iter().all(|p| *p == Pixel { r: 100, g: 100, b: 100 }));
    let m = b.show_next();
    assert!(m.iter().all(|p| *p == Pixel::gray(200)));
}

#[test]
fn cross_fade_scales_with_truncation() {
    assert_eq!(apply_alpha(200, 25), 100);
    assert_eq!(apply_alpha(200, 75), 100);
    assert_eq!(apply_alpha(255, 0), 0);
    assert_eq!(apply_alpha(255, 50), 255);
    assert_eq!(apply_alpha(255, 49), 249);
    assert_eq!(apply_alpha(255, 99), 5);
    for v in [0u8, 1, 77, 200, 255] {
        for i in 1..50u32 {
            assert_eq!(apply_alpha(v, i), apply_alpha(v, 100 - i));
            assert_eq!(apply_alpha(v, i) as u32, v as u32 * i / 50);
        }
    }
}

#[test]
fn cross_fade_color_and_frame() {
    assert_eq!(convert_color(Pixel { r: 200, g: 100, b: 50 }, 25), Pixel { r: 100, g: 50, b: 25 });
    let image = [
        ImagePixel { point: LogicalPoint { x: 1, y: 1 }, color: Pixel { r: 200, g: 0, b: 100 } },
        ImagePixel { point: LogicalPoint { x: 12, y: 1 }, color: Pixel { r: 200, g: 0, b: 100 } },
    ];
    let mut fb = FrameBuffer::new();
    fb.clear(Pixel::white());
    render_fade_frame(&mut fb, &image, 25);
    assert_eq!(fb.pixel_at(LogicalPoint { x: 1, y: 1 }), Some(Pixel { r: 100, g: 0, b: 50 }));
    assert_eq!(fb.pixel_at(LogicalPoint { x: 2, y: 1 }), Some(Pixel::black()));
    render_fade_frame(&mut fb, &image, 0);
    assert!(snapshot(&fb).iter().all(|p| *p == Pixel::black()));
    assert_eq!(fade_frame_delay(1000), 10);
}

#[test]
fn scroll_hi_has_ten_offsets_and_wraps() {
    assert_eq!(scroll_frame_count("HI"), 10);
    let mut s = ScrollState::new("HI");
    let mut offsets = Vec::new();
    for _ in 0..10 {
        offsets.push(s.offset());
        s.advance();
    }
    assert_eq!(offsets, (0..10).collect::<Vec<usize>>());
    assert_eq!(s.offset(), 0);

    let mut first = FrameBuffer::new();
    render_scroll_frame(&mut first, "HI", 0);
    let mut wrapped = FrameBuffer::new();
    render_scroll_frame(&mut wrapped, "HI", s.offset());
    assert_eq!(snapshot(&first), snapshot(&wrapped));
}

#[test]
fn scroll_frames_show_the_font() {
    let mut fb = FrameBuffer::new();
    render_scroll_frame(&mut fb, "HI", 0);
    let first = snapshot(&fb);
    let lit = first.iter().filter(|p| **p == Pixel::white()).count();
    assert!(lit > 0 && lit < 64);
    assert!(first.iter().all(|p| *p == Pixel::white() || *p == Pixel::black()));
    render_scroll_frame(&mut fb, "HI", 5);
    assert_ne!(snapshot(&fb), first);
    render_scroll_frame(&mut fb, " ", 0);
    assert!(snapshot(&fb).iter().all(|p| *p == Pixel::black()));
}

fn tiny_bmp() -> Vec<u8> {
    let mut b = Vec::new();
    b.extend_from_slice(b"BM");
    b.extend_from_slice(&70u32.to_le_bytes());
    b.extend_from_slice(&[0, 0, 0, 0]);
    b.extend_from_slice(&54u32.to_le_bytes());
    b.extend_from_slice(&40u32.to_le_bytes());
    b.extend_from_slice(&2i32.to_le_bytes());
    b.extend_from_slice(&2i32.to_le_bytes());
    b.extend_from_slice(&1u16.to_le_bytes());
    b.extend_from_slice(&24u16.to_le_bytes());
    b.extend_from_slice(&0u32.to_le_bytes());
    b.extend_from_slice(&16u32.to_le_bytes());
    b.extend_from_slice(&2835u32.to_le_bytes());
    b.extend_from_slice(&2835u32.to_le_bytes());
    b.extend_from_slice(&0u32.to_le_bytes());
    b.extend_from_slice(&0u32.to_le_bytes());
    // bottom row: blue, white; top row: red, green (bytes are B, G, R)
    b.extend_from_slice(&[255, 0, 0, 255, 255, 255, 0, 0]);
    b.extend_from_slice(&[0, 0, 255, 0, 255, 0, 0, 0]);
    b
}

#[test]
fn decode_small_bmp() {
    let pixels = decode_image(&tiny_bmp()).expect("valid image");
    let at = |x: i32, y: i32| {
        pixels.iter().find(|p| p.point == LogicalPoint { x, y }).map(|p| p.color)
    };
    assert_eq!(pixels.len(), 4);
    assert_eq!(at(0, 0), Some(Pixel { r: 255, g: 0, b: 0 }));
    assert_eq!(at(1, 0), Some(Pixel { r: 0, g: 255, b: 0 }));
    assert_eq!(at(0, 1), Some(Pixel { r: 0, g: 0, b: 255 }));
    assert_eq!(at(1, 1), Some(Pixel { r: 255, g: 255, b: 255 }));
}

#[test]
fn decode_rejects_bad_data() {
    assert!(decode_image(b"not an image").is_none());
    let mut bad_offset = tiny_bmp();
    bad_offset[10..14].copy_from_slice(&500u32.to_le_bytes());
    assert!(decode_image(&bad_offset).is_none());
    let mut huge = tiny_bmp();
    huge[18..22].copy_from_slice(&1_000_000u32.to_le_bytes());
    assert!(decode_image(&huge).is_none());
    let mut wide = tiny_bmp();
    wide[18..22].copy_from_slice(&4097u32.to_le_bytes());
    assert!(decode_image(&wide).is_none());
    let mut tall = tiny_bmp();
    tall[22..26].copy_from_slice(&(-4097i32).to_le_bytes());
    assert!(decode_image(&tall).is_none());
    let mut lowest = tiny_bmp();
    lowest[22..26].copy_from_slice(&i32::MIN.to_le_bytes());
    assert!(decode_image(&lowest).is_none());
    let mut many_colors = tiny_bmp();
    many_colors[46..50].copy_from_slice(&(1u32 << 30).to_le_bytes());
    assert!(decode_image(&many_colors).is_none());
}

#[test]
fn decode_top_down_bmp() {
    let mut top_down = tiny_bmp();
    top_down[22..26].copy_from_slice(&(-2i32).to_le_bytes());
    let pixels = decode_image(&top_down).expect("valid image");
    let at = |x: i32, y: i32| {
        pixels.iter().find(|p| p.point == LogicalPoint { x, y }).map(|p| p.color)
    };
    assert_eq!(at(0, 0), Some(Pixel { r: 0, g: 0, b: 255 }));
    assert_eq!(at(0, 1), Some(Pixel { r: 255, g: 0, b: 0 }));
}

#[test]
fn empty_text_has_no_scroll_positions() {
    assert_eq!(scroll_frame_count(""), 0);
    let mut s = ScrollState::new("");
    assert_eq!(s.offset(), 0);
    s.advance();
    assert_eq!(s.offset(), 0);
    let mut fb = FrameBuffer::new();
    render_scroll_frame(&mut fb, "", 0);
    assert!(snapshot(&fb).iter().all(|p| *p == Pixel::black()));
}

#[test]
fn fade_frame_keeps_last_pixel_at_a_point() {
    let image = [
        ImagePixel { point: LogicalPoint { x: 3, y: 4 }, color: Pixel { r: 100, g: 100, b: 100 } },
        ImagePixel { point: LogicalPoint { x: 3, y: 4 }, color: Pixel { r: 200, g: 50, b: 0 } },
    ];
    let mut fb = FrameBuffer::new();
    render_fade_frame(&mut fb, &image, 60);
    assert_eq!(fb.pixel_at(LogicalPoint { x: 3, y: 4 }), Some(Pixel { r: 160, g: 40, b: 0 }));
}
