use pixel_text::config::Config;
use pixel_text::layout::{line_placement, render_pixels};

#[test]
fn single_line_canvas_has_exact_dimensions() {
    // two characters, spacing 1: width 2*(5+1)-1 = 11, height 5
    let cfg = Config::default();
    let canvas = render_pixels(1, b"HI", &cfg);
    assert_eq!(canvas.width, 11);
    assert_eq!(canvas.height, 5);
}

#[test]
fn empty_text_gives_a_defined_blank_canvas() {
    let cfg = Config::default();
    let canvas = render_pixels(1, b"", &cfg);
    assert_eq!(canvas.width, 1);
    assert_eq!(canvas.height, 1);
    assert!(!canvas.get(0, 0));
}

#[test]
fn lines_fill_columns_top_to_bottom() {
    // four lines over two columns: two lines per column
    assert_eq!(line_placement(0, 2), (0, 0));
    assert_eq!(line_placement(1, 2), (0, 1));
    assert_eq!(line_placement(2, 2), (1, 0));
    assert_eq!(line_placement(3, 2), (1, 1));
}

#[test]
fn glyph_pixels_land_on_the_canvas() {
    let cfg = Config::default();
    let canvas = render_pixels(1, b"!", &cfg);
    assert_eq!(canvas.width, 5);
    assert_eq!(canvas.height, 5);
    // the exclamation mark is a centered column with a gap above its dot
    assert!(canvas.get(2, 0));
    assert!(canvas.get(2, 1));
    assert!(canvas.get(2, 2));
    assert!(!canvas.get(2, 3));
    assert!(canvas.get(2, 4));
    assert!(!canvas.get(0, 0));
}

#[test]
fn spaces_occupy_room_without_ink() {
    let cfg = Config::default();
    // an unknown byte renders blank but still advances the cursor
    let canvas = render_pixels(1, &[1, b'!'], &cfg);
    assert_eq!(canvas.width, 11);
    for x in 0..6 {
        for y in 0..5 {
            assert!(!canvas.get(x, y), "blank glyph painted at ({x}, {y})");
        }
    }
    assert!(canvas.get(8, 0));
}

#[test]
fn unknown_bytes_render_exactly_as_spaces() {
    let cfg = Config::default();
    let with_blank = render_pixels(1, &[b'A', 1, b'B'], &cfg);
    let with_space = render_pixels(1, &[b'A', b' ', b'B'], &cfg);
    assert_eq!(with_blank.width, with_space.width);
    assert_eq!(with_blank.height, with_space.height);
    assert_eq!(with_blank.pixels, with_space.pixels);
}

#[test]
fn margins_move_the_text() {
    let mut cfg = Config::default();
    cfg.margin_top = 2;
    cfg.margin_left = 3;
    cfg.margin_right = 1;
    cfg.margin_bottom = 4;
    let canvas = render_pixels(1, b"!", &cfg);
    assert_eq!(canvas.width, 5 + 3 + 1);
    assert_eq!(canvas.height, 5 + 2 + 4);
    assert!(canvas.get(2 + 3, 2));
    assert!(!canvas.get(2, 0));
}

#[test]
fn two_columns_place_lines_side_by_side() {
    let mut cfg = Config::default();
    cfg.column_count = 2;
    cfg.column_width = 1;
    // two one-character lines: one per column
    let canvas = render_pixels(2, b"!\n!", &cfg);
    // column block is 1*(5+1)-1 = 5; width 2*(5+4)-4 = 14, height 5
    assert_eq!(canvas.width, 14);
    assert_eq!(canvas.height, 5);
    // the bang appears in both columns, at x = 2 and x = 2 + 9
    assert!(canvas.get(2, 0));
    assert!(canvas.get(11, 0));
    assert!(!canvas.get(6, 0));
}
