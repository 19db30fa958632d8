//! The raster encoder: nearest-neighbor upscaling of the boolean canvas to
//! palette indices, and serialization as an indexed-color image.

use vstd::prelude::*;
use vstd::arithmetic::div_mod::lemma_fundamental_div_mod_converse;
use crate::config::Config;
use crate::layout::PixelCanvas;

verus! {

/// The palette index byte of output pixel `i` (row-major in the scaled
/// image): each canvas pixel becomes a `scaling x scaling` block, a
/// foreground pixel gets index 1, a background pixel index 0.
pub open spec fn scaled_index(grid: Seq<bool>, wd: int, scaling: int, i: int) -> u8 {
    let ws = wd * scaling;
    let x = (i % ws) / scaling;
    let y = (i / ws) / scaling;
    if grid[y * wd + x] {
        1
    } else {
        0
    }
}

/// The complete index data of the scaled image.
pub open spec fn scaled_data(grid: Seq<bool>, wd: int, ht: int, scaling: int) -> Seq<u8> {
    Seq::new(((wd * scaling) * (ht * scaling)) as nat, |i: int| scaled_index(grid, wd, scaling, i))
}

/// The two-entry palette: index 0 carries the background color, index 1 the
/// foreground color.
pub open spec fn palette_spec(cfg: Config) -> Seq<u8> {
    seq![
        cfg.bg_color.r,
        cfg.bg_color.g,
        cfg.bg_color.b,
        cfg.fg_color.r,
        cfg.fg_color.g,
        cfg.fg_color.b,
    ]
}

/// The per-entry opacities, aligned to the two palette entries.
pub open spec fn trns_spec(cfg: Config) -> Seq<u8> {
    seq![cfg.bg_color.a, cfg.fg_color.a]
}

/// The serialized image bytes the indexed-color container format assigns to
/// the given dimensions, palette, transparency table and pixel data.
pub uninterp spec fn png_encoding(
    width: u32,
    height: u32,
    palette: Seq<u8>,
    trns: Seq<u8>,
    data: Seq<u8>,
) -> Seq<u8>;

/// Relies on png::Encoder with 8-bit indexed color, writing into an
/// in-memory buffer: with nonzero dimensions, a palette of two RGB entries,
/// a two-entry transparency table and one byte per pixel, the header, data
/// and end chunks are written without error, and the emitted bytes depend on
/// the arguments alone.
#[verifier::external_body]
fn encode_png(width: u32, height: u32, palette: &Vec<u8>, trns: &Vec<u8>, data: &Vec<u8>) -> (out:
    Vec<u8>)
    requires
        1 <= width,
        1 <= height,
        palette@.len() == 6,
        trns@.len() == 2,
        data@.len() == width * height,
    ensures
        out@ == png_encoding(width, height, palette@, trns@, data@),
{
    let mut buf: Vec<u8> = Vec::new();
    let mut encoder = png::Encoder::new(&mut buf, width, height);
    encoder.set_color(png::ColorType::Indexed);
    encoder.set_depth(png::BitDepth::Eight);
    encoder.set_palette(palette.as_slice());
    encoder.set_trns(trns.as_slice());
    let mut writer = encoder.write_header().unwrap();
    writer.write_image_data(data).unwrap();
    writer.finish().unwrap();
    buf
}

/// Expands the canvas to one palette-index byte per output pixel,
/// replicating each canvas pixel into a `scaling x scaling` block
/// (nearest neighbor, no interpolation).
pub fn scale_pixels(canvas: &PixelCanvas, scaling: u32) -> (data: Vec<u8>)
    requires
        canvas.wf(),
        1 <= scaling,
        canvas.width * scaling <= u32::MAX,
        canvas.height * scaling <= u32::MAX,
        (canvas.width * scaling) * (canvas.height * scaling) <= usize::MAX,
    ensures
        data@ == scaled_data(
            canvas.pixels@,
            canvas.width as int,
            canvas.height as int,
            scaling as int,
        ),
{
    let w = canvas.width;
    let h = canvas.height;
    let s = scaling as usize;
    let ghost ws = w as int * s as int;
    let ghost hs = h as int * s as int;
    let ghost target = scaled_data(canvas.pixels@, w as int, h as int, s as int);
    let mut data: Vec<u8> = Vec::new();
    let mut y: usize = 0;
    while y < h
        invariant
            y <= h,
            w == canvas.width,
            h == canvas.height,
            1 <= s,
            s == scaling,
            canvas.wf(),
            ws == w as int * s as int,
            hs == h as int * s as int,
            ws <= u32::MAX,
            hs <= u32::MAX,
            ws * hs <= usize::MAX,
            target == scaled_data(canvas.pixels@, w as int, h as int, s as int),
            data@.len() == (y as int * s as int) * ws,
            forall|i: int| 0 <= i < data@.len() ==> #[trigger] data@[i] == target[i],
        decreases h - y,
    {
        let mut ry: usize = 0;
        while ry < s
            invariant
                y < h,
                ry <= s,
                w == canvas.width,
                h == canvas.height,
                1 <= s,
                canvas.wf(),
                ws == w as int * s as int,
                hs == h as int * s as int,
                ws <= u32::MAX,
                hs <= u32::MAX,
                ws * hs <= usize::MAX,
                target == scaled_data(canvas.pixels@, w as int, h as int, s as int),
                data@.len() == (y as int * s as int + ry as int) * ws,
                forall|i: int| 0 <= i < data@.len() ==> #[trigger] data@[i] == target[i],
            decreases s - ry,
        {
            let mut x: usize = 0;
            while x < w
                invariant
                    y < h,
                    ry < s,
                    x <= w,
                    w == canvas.width,
                    h == canvas.height,
                    1 <= s,
                    canvas.wf(),
                    ws == w as int * s as int,
                    hs == h as int * s as int,
                    ws <= u32::MAX,
                    hs <= u32::MAX,
                    ws * hs <= usize::MAX,
                    target == scaled_data(canvas.pixels@, w as int, h as int, s as int),
                    data@.len() == (y as int * s as int + ry as int) * ws + x as int * s as int,
                    forall|i: int| 0 <= i < data@.len() ==> #[trigger] data@[i] == target[i],
                decreases w - x,
            {
                let p = canvas.get(x, y);
                let v: u8 = if p {
                    1
                } else {
                    0
                };
                let mut rx: usize = 0;
                while rx < s
                    invariant
                        y < h,
                        ry < s,
                        x < w,
                        rx <= s,
                        w == canvas.width,
                        h == canvas.height,
                        1 <= s,
                        canvas.wf(),
                        v == (if canvas.pixel_at(x as int, y as int) {
                            1u8
                        } else {
                            0u8
                        }),
                        ws == w as int * s as int,
                        hs == h as int * s as int,
                        ws <= u32::MAX,
                        hs <= u32::MAX,
                        ws * hs <= usize::MAX,
                        target == scaled_data(canvas.pixels@, w as int, h as int, s as int),
                        data@.len() == (y as int * s as int + ry as int) * ws + x as int * s as int
                            + rx as int,
                        forall|i: int| 0 <= i < data@.len() ==> #[trigger] data@[i] == target[i],
                    decreases s - rx,
                {
                    proof {
                        lemma_scale_index(
                            w as int,
                            h as int,
                            s as int,
                            x as int,
                            y as int,
                            rx as int,
                            ry as int,
                        );
                        assert(data@.len() < ws * hs);
                    }
                    data.push(v);
                    rx = rx + 1;
                }
                x = x + 1;
                proof {
                    assert((y as int * s as int + ry as int) * ws + (x as int - 1) * s as int
                        + s as int == (y as int * s as int + ry as int) * ws + x as int * s as int)
                        by (nonlinear_arith);
                }
            }
            ry = ry + 1;
            proof {
                assert((y as int * s as int + (ry as int - 1)) * ws + w as int * s as int == (
                y as int * s as int + ry as int) * ws) by (nonlinear_arith)
                    requires
                        ws == w as int * s as int,
                ;
            }
        }
        y = y + 1;
        proof {
            assert(((y as int - 1) * s as int + s as int) * ws == (y as int * s as int) * ws)
                by (nonlinear_arith);
        }
    }
    proof {
        assert((h as int * s as int) * ws == ws * hs) by (nonlinear_arith)
            requires
                ws == w as int * s as int,
                hs == h as int * s as int,
        ;
        assert(data@ =~= target);
    }
    data
}

proof fn lemma_scale_index(w: int, h: int, s: int, x: int, y: int, rx: int, ry: int)
    requires
        1 <= s,
        0 <= x < w,
        0 <= y < h,
        0 <= rx < s,
        0 <= ry < s,
    ensures
        ({
            let ws = w * s;
            let i = (y * s + ry) * ws + x * s + rx;
            &&& 0 <= i < ws * (h * s)
            &&& i % ws == x * s + rx
            &&& i / ws == y * s + ry
            &&& (x * s + rx) / s == x
            &&& ((y * s + ry) / s) == y
        }),
{
    let ws = w * s;
    let i = (y * s + ry) * ws + x * s + rx;
    assert(0 <= x * s + rx < ws) by (nonlinear_arith)
        requires
            0 <= x < w,
            0 <= rx < s,
            1 <= s,
            ws == w * s,
    ;
    assert(0 <= y * s + ry < h * s) by (nonlinear_arith)
        requires
            0 <= y < h,
            0 <= ry < s,
            1 <= s,
    ;
    assert(i == (y * s + ry) * ws + (x * s + rx));
    lemma_fundamental_div_mod_converse(i, ws, y * s + ry, x * s + rx);
    lemma_fundamental_div_mod_converse(x * s + rx, s, x, rx);
    lemma_fundamental_div_mod_converse(y * s + ry, s, y, ry);
    assert(i < ws * (h * s)) by (nonlinear_arith)
        requires
            i == (y * s + ry) * ws + (x * s + rx),
            y * s + ry <= h * s - 1,
            0 <= x * s + rx < ws,
            0 <= ws,
    ;
    assert(0 <= i) by (nonlinear_arith)
        requires
            i == (y * s + ry) * ws + (x * s + rx),
            0 <= y * s + ry,
            0 <= x * s + rx,
            0 <= ws,
    ;
}

/// Serializes the canvas as an indexed-color image: every canvas pixel
/// becomes a `scaling x scaling` block of palette indices, index 0 carrying
/// the background color and opacity, index 1 the foreground.
pub fn render_image(canvas: &PixelCanvas, cfg: &Config) -> (out: Vec<u8>)
    requires
        canvas.wf(),
        1 <= cfg.scaling,
        1 <= canvas.width,
        1 <= canvas.height,
        canvas.width * cfg.scaling <= u32::MAX,
        canvas.height * cfg.scaling <= u32::MAX,
        (canvas.width * cfg.scaling) * (canvas.height * cfg.scaling) <= usize::MAX,
    ensures
        out@ == png_encoding(
            (canvas.width * cfg.scaling) as u32,
            (canvas.height * cfg.scaling) as u32,
            palette_spec(*cfg),
            trns_spec(*cfg),
            scaled_data(canvas.pixels@, canvas.width as int, canvas.height as int, cfg.scaling as int),
        ),
{
    let data = scale_pixels(canvas, cfg.scaling);
    let mut palette: Vec<u8> = Vec::new();
    palette.push(cfg.bg_color.r);
    palette.push(cfg.bg_color.g);
    palette.push(cfg.bg_color.b);
    palette.push(cfg.fg_color.r);
    palette.push(cfg.fg_color.g);
    palette.push(cfg.fg_color.b);
    let mut trns: Vec<u8> = Vec::new();
    trns.push(cfg.bg_color.a);
    trns.push(cfg.fg_color.a);
    proof {
        assert(palette@ =~= palette_spec(*cfg));
        assert(trns@ =~= trns_spec(*cfg));
    }
    let ws64: u64 = canvas.width as u64 * cfg.scaling as u64;
    let hs64: u64 = canvas.height as u64 * cfg.scaling as u64;
    let ws: u32 = ws64 as u32;
    let hs: u32 = hs64 as u32;
    proof {
        assert(ws * hs == (canvas.width as int * cfg.scaling as int) * (canvas.height as int
            * cfg.scaling as int)) by (nonlinear_arith)
            requires
                ws == canvas.width as int * cfg.scaling as int,
                hs == canvas.height as int * cfg.scaling as int,
        ;
        assert(1 * 1 <= ws64) by (nonlinear_arith)
            requires
                1 <= canvas.width as int,
                1 <= cfg.scaling as int,
                ws64 == canvas.width as int * cfg.scaling as int,
        ;
        assert(1 * 1 <= hs64) by (nonlinear_arith)
            requires
                1 <= canvas.height as int,
                1 <= cfg.scaling as int,
                hs64 == canvas.height as int * cfg.scaling as int,
        ;
    }
    encode_png(ws, hs, &palette, &trns, &data)
}

} // verus!
