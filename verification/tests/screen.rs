use qmk_oled_api::device::{FailingSink, MemSink, ScreenError};
use qmk_oled_api::packet::DataPacket;
use qmk_oled_api::screen::OledScreen;

#[test]
fn test_display_oled_screen() {
    let mock_device = MemSink::new();
    let mut screen = OledScreen::from_device(mock_device, 32, 128).unwrap();
    for i in 0..128 {
        screen.set_pixel(0, i, true);
        screen.set_pixel(31, i, true);
    }
    println!("{}", screen.render())
}

#[test]
fn test_to_packets() {
    let mock_device = MemSink::new();
    let screen = OledScreen::from_device(mock_device, 32, 128).unwrap();
    screen.to_packets();
}

#[test]
fn test_packet_filtering() {
    let mock_device = MemSink::new();
    let mut screen = OledScreen::from_device(mock_device, 32, 128).unwrap();
    screen.fill_all();
    screen.send().unwrap();
    screen.fill_all();
    screen.send().unwrap();

    assert_eq!(18, screen.device().count_writes());
}

#[test]
fn test_to_packets_fresh_canvas() {
    let screen = OledScreen::from_device(MemSink::new(), 32, 128).unwrap();
    let packets = screen.to_packets();
    assert_eq!(packets.len(), 18);
    for (k, packet) in packets.iter().enumerate() {
        let bytes = packet.to_bytes();
        assert_eq!(bytes.len(), 32);
        assert_eq!(bytes[0], 1);
        assert_eq!(bytes[1], k as u8);
        for b in &bytes[2..] {
            assert_eq!(*b, 0);
        }
    }
}

#[test]
fn test_set_then_get_pixel() {
    let mut screen = OledScreen::from_device(MemSink::new(), 32, 128).unwrap();
    screen.set_pixel(5, 7, true);
    assert!(screen.get_pixel(5, 7));
    screen.set_pixel(5, 7, false);
    assert!(!screen.get_pixel(5, 7));
    screen.set_pixel(0, 0, true);
    screen.set_pixel(31, 127, true);
    assert!(screen.get_pixel(0, 0));
    assert!(screen.get_pixel(31, 127));
    assert!(!screen.get_pixel(1, 0));
}

#[test]
fn test_out_of_range_set_pixel_is_noop() {
    let mut screen = OledScreen::from_device(MemSink::new(), 32, 128).unwrap();
    screen.set_pixel(3, 9, true);
    let before = screen.buffer().clone();
    screen.set_pixel(32, 0, true);
    screen.set_pixel(0, 128, true);
    screen.set_pixel(5000, 5000, true);
    assert_eq!(&before, screen.buffer());
}

#[test]
fn test_paint_region_exact_and_idempotent() {
    let mut screen = OledScreen::from_device(MemSink::new(), 32, 128).unwrap();
    screen.paint_region(2, 3, 5, 10, true);
    for x in 0..32 {
        for y in 0..128 {
            let inside = (2..5).contains(&x) && (3..10).contains(&y);
            assert_eq!(screen.get_pixel(x, y), inside);
        }
    }
    let after_first = screen.buffer().clone();
    screen.paint_region(2, 3, 5, 10, true);
    assert_eq!(&after_first, screen.buffer());
}

#[test]
fn test_paint_region_clips() {
    let mut screen = OledScreen::from_device(MemSink::new(), 32, 128).unwrap();
    screen.paint_region(30, 126, 40, 140, true);
    assert!(screen.get_pixel(31, 127));
    assert!(screen.get_pixel(30, 126));
    assert!(!screen.get_pixel(29, 126));
    assert!(!screen.get_pixel(30, 125));
}

#[test]
fn test_fill_all_and_clear() {
    let mut screen = OledScreen::from_device(MemSink::new(), 32, 128).unwrap();
    screen.fill_all();
    assert_eq!(screen.buffer().len(), 512);
    assert!(screen.buffer().iter().all(|b| *b == 0xFF));
    screen.clear();
    assert_eq!(screen.buffer().len(), 512);
    assert!(screen.buffer().iter().all(|b| *b == 0));
}

#[test]
fn test_send_records_wire_format() {
    let mut screen = OledScreen::from_device(MemSink::new(), 32, 128).unwrap();
    screen.send().unwrap();
    assert_eq!(screen.device().count_writes(), 18);
    let first = screen.device().write_at(0);
    assert_eq!(first.len(), 32);
    assert_eq!(first[0], 1);
    assert_eq!(first[1], 0);
    let last = screen.device().write_at(17);
    assert_eq!(last[1], 17);
}

#[test]
fn test_send_diffs_changed_packets_only() {
    let mut screen = OledScreen::from_device(MemSink::new(), 32, 128).unwrap();
    screen.send().unwrap();
    assert_eq!(screen.device().count_writes(), 18);
    // One lit pixel in byte 0 touches only the packet with index 0.
    screen.set_pixel(0, 0, true);
    screen.send().unwrap();
    assert_eq!(screen.device().count_writes(), 19);
    let changed = screen.device().write_at(18);
    assert_eq!(changed[0], 1);
    assert_eq!(changed[1], 0);
    assert_eq!(changed[2], 0x80);
}

#[test]
fn test_failed_send_still_advances_baseline() {
    let mut screen = OledScreen::from_device(FailingSink, 32, 128).unwrap();
    screen.fill_all();
    assert_eq!(screen.send(), Err(ScreenError::WriteFailure));
    // The baseline was replaced by the full frame even though no write
    // succeeded, so an unchanged frame has nothing left to transmit.
    assert_eq!(screen.send(), Ok(()));
}

#[test]
fn test_packet_to_bytes() {
    let payload: Vec<u8> = (0..30).collect();
    let packet = DataPacket::new(3, payload.clone());
    let bytes = packet.to_bytes();
    assert_eq!(bytes.len(), 32);
    assert_eq!(bytes[0], 1);
    assert_eq!(bytes[1], 3);
    assert_eq!(&bytes[2..], &payload[..]);
}

#[test]
fn test_same_packet() {
    let a = DataPacket::new(3, vec![7; 30]);
    let b = DataPacket::new(3, vec![7; 30]);
    assert!(a.same_packet(&b));
    let c = DataPacket::new(4, vec![7; 30]);
    assert!(!a.same_packet(&c));
    let mut bytes = vec![7; 30];
    bytes[29] = 8;
    let d = DataPacket::new(3, bytes);
    assert!(!a.same_packet(&d));
}

#[test]
fn test_packet_send_records_write() {
    let packet = DataPacket::new(2, vec![9; 30]);
    let mut sink = MemSink::new();
    packet.send(&mut sink).unwrap();
    assert_eq!(sink.count_writes(), 1);
    let written = sink.write_at(0);
    assert_eq!(written[0], 1);
    assert_eq!(written[1], 2);
    assert_eq!(written[2], 9);
}

#[test]
fn test_render_small_screen() {
    let mut screen = OledScreen::from_device(MemSink::new(), 8, 8).unwrap();
    screen.set_pixel(0, 0, true);
    let mut expected = String::from("▓░░░░░░░");
    for _ in 0..7 {
        expected.push('\n');
        expected.push_str("░░░░░░░░");
    }
    assert_eq!(screen.render(), expected);
}
