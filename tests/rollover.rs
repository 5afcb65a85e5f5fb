use trellis_core::display::{EventType, KeyEvent};
use trellis_core::rollover::RolloverBuffer;

#[test]
fn seventh_key_is_dropped_until_one_is_released() {
    let codes = [4u8, 5, 6, 7, 8, 9, 10];
    let mut rb = RolloverBuffer::new();
    for c in &codes[..6] {
        assert!(rb.press(*c));
    }
    assert!(!rb.press(codes[6]));
    assert_eq!(rb.len(), 6);
    for c in &codes[..6] {
        assert!(rb.contains(*c));
    }
    assert!(!rb.contains(codes[6]));
    for j in 0..6 {
        let mut again = RolloverBuffer::new();
        for c in &codes {
            again.press(*c);
        }
        again.release(codes[j]);
        assert!(again.press(codes[6]));
        assert_eq!(again.len(), 6);
        assert!(again.contains(codes[6]));
        assert!(!again.contains(codes[j]));
    }
}

#[test]
fn pressing_a_held_key_keeps_one_copy() {
    let mut rb = RolloverBuffer::new();
    assert!(rb.press(30));
    assert!(rb.press(30));
    assert_eq!(rb.len(), 1);
}

#[test]
fn releasing_an_absent_key_is_a_no_op() {
    let mut rb = RolloverBuffer::new();
    rb.press(30);
    rb.release(31);
    assert_eq!(rb.len(), 1);
    assert!(rb.contains(30));
    rb.release(30);
    assert_eq!(rb.len(), 0);
}

#[test]
fn report_lists_held_keys_then_zeros() {
    let mut rb = RolloverBuffer::new();
    rb.apply(KeyEvent { usb_scan_code: 40, event_type: EventType::KeyDown });
    rb.apply(KeyEvent { usb_scan_code: 11, event_type: EventType::KeyDown });
    rb.apply(KeyEvent { usb_scan_code: 12, event_type: EventType::KeyDown });
    rb.apply(KeyEvent { usb_scan_code: 11, event_type: EventType::KeyUp });
    let report = rb.report();
    assert_eq!(report.modifier, 0);
    assert_eq!(report.reserved, 0);
    assert_eq!(report.keycodes, [40, 12, 0, 0, 0, 0]);
}

#[test]
fn empty_report_is_all_zero() {
    let rb = RolloverBuffer::new();
    assert_eq!(rb.report().keycodes, [0; 6]);
}
