use pixel_text::font::{get_char_bitmap, get_pixel, CHAR_HEIGHT, CHAR_WIDTH};

#[test]
fn known_characters_have_their_bitmaps() {
    assert_eq!(get_char_bitmap(b'A'), 0x00e8fe31);
    assert_eq!(get_char_bitmap(b'Z'), 0x01f1111f);
    assert_eq!(get_char_bitmap(b'0'), 0x00e9d72e);
    assert_eq!(get_char_bitmap(b'!'), 0x00421004);
    assert_eq!(get_char_bitmap(b' '), 0);
}

#[test]
fn unknown_characters_are_blank() {
    assert_eq!(get_char_bitmap(1), 0);
    assert_eq!(get_char_bitmap(b'a'), 0);
    assert_eq!(get_char_bitmap(b'@'), 0);
    for x in 0..CHAR_WIDTH {
        for y in 0..CHAR_HEIGHT {
            assert!(!get_pixel(get_char_bitmap(1), x, y));
        }
    }
}

#[test]
fn pixel_bit_order_is_bottom_right_first() {
    // the period's single bit is the least significant: bottom-right corner
    assert_eq!(get_char_bitmap(b'.'), 0x00000004);
    assert!(get_pixel(0x00000004, 2, 4));
    assert!(!get_pixel(0x00000004, 4, 4));
    // the exclamation mark: a centered column with a gap above the dot
    let bang = get_char_bitmap(b'!');
    assert!(get_pixel(bang, 2, 0));
    assert!(get_pixel(bang, 2, 1));
    assert!(get_pixel(bang, 2, 2));
    assert!(!get_pixel(bang, 2, 3));
    assert!(get_pixel(bang, 2, 4));
    assert!(!get_pixel(bang, 0, 0));
}
