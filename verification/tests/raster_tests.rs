use pixel_text::layout::PixelCanvas;
use pixel_text::raster::scale_pixels;

#[test]
fn scaling_replicates_each_pixel_into_a_block() {
    let canvas = PixelCanvas { width: 1, height: 1, pixels: vec![true] };
    let data = scale_pixels(&canvas, 3);
    assert_eq!(data, vec![1u8; 9]);
}

#[test]
fn scaling_keeps_row_structure() {
    // one row: foreground then background
    let canvas = PixelCanvas { width: 2, height: 1, pixels: vec![true, false] };
    let data = scale_pixels(&canvas, 2);
    assert_eq!(data, vec![1, 1, 0, 0, 1, 1, 0, 0]);
}

#[test]
fn identity_scaling_maps_pixels_to_indices() {
    let canvas = PixelCanvas {
        width: 2,
        height: 2,
        pixels: vec![true, false, false, true],
    };
    let data = scale_pixels(&canvas, 1);
    assert_eq!(data, vec![1, 0, 0, 1]);
}
