use breach_solver::bitmap::{parse_bitmap, BitmapFileHeader, BitmapInfoHeader, RgbQuad};
use breach_solver::messages::{
    action_for, binds_window, ends_run, MessageAction, WM_DESTROY, WM_NCCREATE, WM_PAINT,
    WM_QUIT, WM_USER,
};

/// A bitmap of two by two pixels with 24 bits each, stored top down.
fn small_bitmap() -> Vec<u8> {
    let mut bytes: Vec<u8> = Vec::new();
    // file header
    bytes.extend_from_slice(b"BM");
    bytes.extend_from_slice(&70u32.to_le_bytes());
    bytes.extend_from_slice(&0x1234u16.to_le_bytes());
    bytes.extend_from_slice(&0u16.to_le_bytes());
    bytes.extend_from_slice(&54u32.to_le_bytes());
    // info header
    bytes.extend_from_slice(&40u32.to_le_bytes());
    bytes.extend_from_slice(&2i32.to_le_bytes());
    bytes.extend_from_slice(&(-2i32).to_le_bytes());
    bytes.extend_from_slice(&1u16.to_le_bytes());
    bytes.extend_from_slice(&24u16.to_le_bytes());
    bytes.extend_from_slice(&0u32.to_le_bytes());
    bytes.extend_from_slice(&16u32.to_le_bytes());
    bytes.extend_from_slice(&2835i32.to_le_bytes());
    bytes.extend_from_slice(&i32::MIN.to_le_bytes());
    bytes.extend_from_slice(&0xfedc_ba98u32.to_le_bytes());
    bytes.extend_from_slice(&0u32.to_le_bytes());
    // pixels, rows padded to four bytes
    bytes.extend_from_slice(&[1, 2, 3, 4, 5, 6, 0, 0]);
    bytes.extend_from_slice(&[7, 8, 9, 10, 11, 12, 0, 0]);
    bytes
}

#[test]
fn bitmap_is_taken_apart() {
    let bytes = small_bitmap();
    assert_eq!(bytes.len(), 70);
    let bitmap = parse_bitmap(&bytes).unwrap();
    assert_eq!(
        bitmap.file,
        BitmapFileHeader {
            file_type: 0x4d42,
            size: 70,
            reserved1: 0x1234,
            reserved2: 0,
            off_bits: 54,
        }
    );
    assert_eq!(
        bitmap.info,
        BitmapInfoHeader {
            size: 40,
            width: 2,
            height: -2,
            planes: 1,
            bit_count: 24,
            compression: 0,
            size_image: 16,
            x_pels_per_meter: 2835,
            y_pels_per_meter: i32::MIN,
            clr_used: 0xfedc_ba98,
            clr_important: 0,
        }
    );
    assert_eq!(bitmap.colors, RgbQuad { blue: 1, green: 2, red: 3, reserved: 4 });
    assert_eq!(
        bitmap.pixels,
        vec![1, 2, 3, 4, 5, 6, 0, 0, 7, 8, 9, 10, 11, 12, 0, 0]
    );
}

#[test]
fn bitmap_pixels_begin_where_the_header_says() {
    let mut bytes = small_bitmap();
    bytes[10] = 62;
    let bitmap = parse_bitmap(&bytes).unwrap();
    assert_eq!(bitmap.file.off_bits, 62);
    assert_eq!(bitmap.pixels, vec![7, 8, 9, 10, 11, 12, 0, 0]);
    bytes[10] = 70;
    let bitmap = parse_bitmap(&bytes).unwrap();
    assert!(bitmap.pixels.is_empty());
}

#[test]
fn short_bitmaps_are_refused() {
    let bytes = small_bitmap();
    assert!(parse_bitmap(&bytes[..57]).is_none());
    assert!(parse_bitmap(&bytes[..58]).is_some());
    assert!(parse_bitmap(&[]).is_none());
    let mut beyond = small_bitmap();
    beyond[10] = 71;
    assert!(parse_bitmap(&beyond).is_none());
    let mut far = small_bitmap();
    far[13] = 1;
    assert!(parse_bitmap(&far).is_none());
}

#[test]
fn messages_are_told_apart() {
    assert_eq!(action_for(WM_DESTROY), MessageAction::Quit);
    assert_eq!(action_for(WM_PAINT), MessageAction::Paint);
    assert_eq!(action_for(15), MessageAction::Paint);
    assert_eq!(action_for(WM_QUIT), MessageAction::Default);
    assert_eq!(action_for(0), MessageAction::Default);
    assert!(ends_run(WM_QUIT));
    assert!(ends_run(WM_USER));
    assert!(!ends_run(WM_PAINT));
    assert!(binds_window(WM_NCCREATE));
    assert!(!binds_window(WM_DESTROY));
    assert_eq!((WM_DESTROY, WM_PAINT, WM_QUIT, WM_NCCREATE, WM_USER), (2, 15, 18, 129, 1024));
}
