use pixel_text::config::Config;
use pixel_text::render::{create_image, RenderError};

#[test]
fn renders_a_valid_indexed_image() {
    let cfg = Config::default();
    let bytes = create_image(b"HI", &cfg).unwrap();
    assert_eq!(&bytes[..8], &[137, 80, 78, 71, 13, 10, 26, 10]);

    let decoder = png::Decoder::new(std::io::Cursor::new(bytes.as_slice()));
    let mut reader = decoder.read_info().unwrap();
    let info = reader.info();
    assert_eq!(info.width, 11);
    assert_eq!(info.height, 5);
    assert_eq!(
        info.palette.as_deref(),
        Some(&[255u8, 255, 255, 0, 0, 0][..])
    );
    assert_eq!(info.trns.as_deref(), Some(&[0u8, 255][..]));

    let mut buf = vec![0u8; reader.output_buffer_size().unwrap()];
    let out = reader.next_frame(&mut buf).unwrap();
    let data = &buf[..out.buffer_size()];
    assert_eq!(data.len(), 11 * 5);
    // H paints its top-left corner, the inter-letter gap stays background
    assert_eq!(data[0], 1);
    assert_eq!(data[5], 0);
}

#[test]
fn scaling_scales_the_output_image() {
    let mut cfg = Config::default();
    cfg.scaling = 3;
    let bytes = create_image(b"!", &cfg).unwrap();
    let decoder = png::Decoder::new(std::io::Cursor::new(bytes.as_slice()));
    let mut reader = decoder.read_info().unwrap();
    assert_eq!(reader.info().width, 15);
    assert_eq!(reader.info().height, 15);
    let mut buf = vec![0u8; reader.output_buffer_size().unwrap()];
    let out = reader.next_frame(&mut buf).unwrap();
    let data = &buf[..out.buffer_size()];
    // the bang's center column becomes a 3-wide block of foreground indices
    for dx in 0..3 {
        for dy in 0..3 {
            assert_eq!(data[dy * 15 + 6 + dx], 1);
        }
    }
    assert_eq!(data[0], 0);
}

#[test]
fn rejects_degenerate_configurations() {
    let mut cfg = Config::default();
    cfg.scaling = 0;
    assert!(matches!(create_image(b"A", &cfg), Err(RenderError::InvalidConfig)));

    let mut cfg = Config::default();
    cfg.column_width = 1;
    assert!(matches!(create_image(b"A", &cfg), Err(RenderError::InvalidConfig)));

    let mut cfg = Config::default();
    cfg.column_count = 0;
    assert!(matches!(create_image(b"A", &cfg), Err(RenderError::InvalidConfig)));
}

#[test]
fn rejects_oversized_canvases() {
    let mut cfg = Config::default();
    cfg.margin_top = u32::MAX;
    cfg.margin_bottom = u32::MAX;
    assert!(matches!(create_image(b"A", &cfg), Err(RenderError::CanvasTooLarge)));
}

#[test]
fn empty_text_renders_a_minimal_image() {
    let cfg = Config::default();
    let bytes = create_image(b"", &cfg).unwrap();
    let decoder = png::Decoder::new(std::io::Cursor::new(bytes.as_slice()));
    let reader = decoder.read_info().unwrap();
    assert_eq!(reader.info().width, 1);
    assert_eq!(reader.info().height, 1);
}

#[test]
fn wrapped_text_spans_all_columns() {
    let mut cfg = Config::default();
    cfg.column_count = 2;
    cfg.column_width = 5;
    let bytes = create_image(b"HELLO WORLD AGAIN NOW", &cfg).unwrap();
    let decoder = png::Decoder::new(std::io::Cursor::new(bytes.as_slice()));
    let reader = decoder.read_info().unwrap();
    // four lines of five characters over two columns, two lines each:
    // block = 5*6-1 = 29, width = 2*(29+4)-4 = 62, height = 2*6-1 = 11
    assert_eq!(reader.info().width, 62);
    assert_eq!(reader.info().height, 11);
}
