//! The render entry point: raw byte text in, a complete encoded image out,
//! under an explicit configuration snapshot.

use vstd::prelude::*;
use crate::config::Config;
use crate::formatter::{
    format_spec, format_text, lemma_formatted_lines_fit, lemma_line_count_matches,
};
use crate::layout::{
    blank_grid, canvas_height_spec, canvas_width_spec, lemma_ceil_div, render_pixels,
    render_spec,
};
use crate::raster::{palette_spec, png_encoding, render_image, scaled_data, trns_spec};

verus! {

/// Why a render request is refused.
#[derive(Clone, Copy, PartialEq, Eq, Structural, Debug)]
pub enum RenderError {
    /// The configuration cannot drive the pipeline: rendering needs at
    /// least one column, a column width of at least two, and a scaling
    /// factor of at least one.
    InvalidConfig,
    /// The canvas this request would need exceeds the machine's limits.
    CanvasTooLarge,
}

impl RenderError {
    /// A human-readable description of the failure.
    pub fn message(&self) -> (m: &'static str) {
        match self {
            RenderError::InvalidConfig => "config needs column_count >= 1, column_width >= 2 and scaling >= 1",
            RenderError::CanvasTooLarge => "the canvas would exceed the machine's limits",
        }
    }
}

/// A configuration the pipeline accepts.
pub open spec fn config_ok(cfg: Config) -> bool {
    cfg.column_count >= 1 && cfg.column_width >= 2 && cfg.scaling >= 1
}

/// The canvas the pipeline draws for `text` under `cfg`: the pixel grid,
/// its width and its height. Empty formatted output yields the defined
/// 1x1 blank canvas.
pub open spec fn rendered_grid(cfg: Config, text: Seq<u8>) -> (Seq<bool>, int, int) {
    let r = format_spec(text, cfg.column_width as int);
    if r.1.len() == 0 {
        (blank_grid(1), 1, 1)
    } else {
        (
            render_spec(cfg, r.1, r.0),
            canvas_width_spec(cfg, r.0, r.1.len() as int),
            canvas_height_spec(cfg, r.0),
        )
    }
}

/// Whether the canvas for `text`, before and after scaling, fits the
/// machine's limits.
pub open spec fn dims_fit(cfg: Config, text: Seq<u8>) -> bool {
    let wd = rendered_grid(cfg, text).1;
    let ht = rendered_grid(cfg, text).2;
    &&& wd <= u32::MAX
    &&& ht <= u32::MAX
    &&& wd * ht <= usize::MAX
    &&& wd * cfg.scaling <= u32::MAX
    &&& ht * cfg.scaling <= u32::MAX
    &&& (wd * cfg.scaling) * (ht * cfg.scaling) <= usize::MAX
}

/// Renders raw byte text as a complete encoded image: the text is
/// uppercased and word-wrapped at the configured column width, laid out
/// into the configured column grid on a boolean canvas, and the canvas is
/// serialized as a scaled, palette-indexed image.
pub fn create_image(text: &[u8], cfg: &Config) -> (r: Result<Vec<u8>, RenderError>)
    ensures
        r is Ok <==> config_ok(*cfg) && dims_fit(*cfg, text@),
        !config_ok(*cfg) ==> r == Err::<Vec<u8>, RenderError>(RenderError::InvalidConfig),
        config_ok(*cfg) && !dims_fit(*cfg, text@) ==> r == Err::<Vec<u8>, RenderError>(
            RenderError::CanvasTooLarge,
        ),
        r matches Ok(bytes) ==> bytes@ == png_encoding(
            (rendered_grid(*cfg, text@).1 * cfg.scaling) as u32,
            (rendered_grid(*cfg, text@).2 * cfg.scaling) as u32,
            palette_spec(*cfg),
            trns_spec(*cfg),
            scaled_data(
                rendered_grid(*cfg, text@).0,
                rendered_grid(*cfg, text@).1,
                rendered_grid(*cfg, text@).2,
                cfg.scaling as int,
            ),
        ),
{
    if !(cfg.column_count >= 1 && cfg.column_width >= 2 && cfg.scaling >= 1) {
        return Err(RenderError::InvalidConfig);
    }
    let (line_count, formatted) = format_text(text, cfg.column_width as usize);
    proof {
        lemma_formatted_lines_fit(text@, cfg.column_width as int);
        lemma_line_count_matches(text@, cfg.column_width as int);
    }
    // the exact canvas dimensions this request needs
    let s128: u128 = cfg.scaling as u128;
    let wd128: u128;
    let ht128: u128;
    if formatted.len() == 0 {
        wd128 = 1;
        ht128 = 1;
    } else {
        let cs128: u128 = cfg.char_spacing as u128;
        let sx128: u128 = 5 + cs128;
        let n128: u128 = formatted.len() as u128;
        proof {
            assert(n128 as int * sx128 as int <= 0x10000000000000000 * 0x100000005)
                by (nonlinear_arith)
                requires
                    n128 as int <= 0x10000000000000000,
                    sx128 as int <= 0x100000005,
            ;
            assert(n128 as int * sx128 as int >= 1 * sx128 as int) by (nonlinear_arith)
                requires
                    n128 as int >= 1,
                    sx128 as int >= 0,
            ;
            assert(cfg.column_width as int * sx128 as int >= 1 * sx128 as int)
                by (nonlinear_arith)
                requires
                    cfg.column_width as int >= 1,
                    sx128 as int >= 0,
            ;
            assert(cfg.column_width as int * sx128 as int <= 0x100000000 * 0x100000005)
                by (nonlinear_arith)
                requires
                    cfg.column_width as int <= 0x100000000,
                    sx128 as int <= 0x100000005,
            ;
            let b1 = cfg.column_width as int * sx128 as int - cs128 as int
                + cfg.column_spacing as int;
            assert(cfg.column_count as int * b1 >= 1 * b1) by (nonlinear_arith)
                requires
                    cfg.column_count as int >= 1,
                    b1 >= 0,
            ;
            assert(cfg.column_count as int * b1 <= 0x100000000 * 0x20000000000000000)
                by (nonlinear_arith)
                requires
                    cfg.column_count as int <= 0x100000000,
                    0 <= b1 <= 0x20000000000000000,
            ;
        }
        if line_count == 1 {
            wd128 = n128 * sx128 - cs128 + cfg.margin_right as u128 + cfg.margin_left as u128;
        } else {
            wd128 = cfg.column_count as u128 * (cfg.column_width as u128 * sx128 - cs128
                + cfg.column_spacing as u128) - cfg.column_spacing as u128
                + cfg.margin_right as u128 + cfg.margin_left as u128;
        }
        let ls128: u128 = cfg.line_spacing as u128;
        let lpc128: u128 = (line_count as u128 + cfg.column_count as u128 - 1)
            / cfg.column_count as u128;
        proof {
            lemma_ceil_div(line_count as int, cfg.column_count as int);
            assert(lpc128 as int * (5 + ls128 as int) == 5 * lpc128 as int + ls128 as int
                * lpc128 as int) by (nonlinear_arith);
            assert(ls128 as int * lpc128 as int >= ls128 as int * 1) by (nonlinear_arith)
                requires
                    lpc128 as int >= 1,
                    ls128 as int >= 0,
            ;
            assert(lpc128 as int <= 0x10000000100000000) by (nonlinear_arith)
                requires
                    lpc128 as int == (line_count as int + cfg.column_count as int - 1)
                        / cfg.column_count as int,
                    1 <= cfg.column_count as int,
                    line_count as int + cfg.column_count as int - 1 <= 0x10000000100000000,
            ;
            assert(lpc128 as int * (5 + ls128 as int) <= 0x10000000100000000 * 0x100000005)
                by (nonlinear_arith)
                requires
                    0 <= lpc128 as int <= 0x10000000100000000,
                    0 <= 5 + ls128 as int <= 0x100000005,
            ;
        }
        ht128 = lpc128 * (5 + ls128) - ls128 + cfg.margin_top as u128 + cfg.margin_bottom as u128;
        proof {
            assert(wd128 == canvas_width_spec(*cfg, line_count as int, formatted@.len() as int));
            assert(ht128 == canvas_height_spec(*cfg, line_count as int));
        }
    }
    proof {
        assert(wd128 == rendered_grid(*cfg, text@).1);
        assert(ht128 == rendered_grid(*cfg, text@).2);
    }
    // refuse a canvas that does not fit the machine
    let fits: bool;
    if wd128 > u32::MAX as u128 || ht128 > u32::MAX as u128 {
        fits = false;
    } else {
        proof {
            assert(wd128 as int * ht128 as int <= 0x100000000 * 0x100000000) by (nonlinear_arith)
                requires
                    0 <= wd128 as int <= 0x100000000,
                    0 <= ht128 as int <= 0x100000000,
            ;
            assert(wd128 as int * s128 as int <= 0x100000000 * 0x100000000) by (nonlinear_arith)
                requires
                    0 <= wd128 as int <= 0x100000000,
                    0 <= s128 as int <= 0x100000000,
            ;
            assert(ht128 as int * s128 as int <= 0x100000000 * 0x100000000) by (nonlinear_arith)
                requires
                    0 <= ht128 as int <= 0x100000000,
                    0 <= s128 as int <= 0x100000000,
            ;
        }
        let area = wd128 * ht128;
        let wsc = wd128 * s128;
        let hsc = ht128 * s128;
        if area > usize::MAX as u128 || wsc > u32::MAX as u128 || hsc > u32::MAX as u128 {
            fits = false;
        } else {
            proof {
                assert(wsc as int * hsc as int <= 0x100000000 * 0x100000000) by (nonlinear_arith)
                    requires
                        0 <= wsc as int <= 0x100000000,
                        0 <= hsc as int <= 0x100000000,
                ;
            }
            fits = wsc * hsc <= usize::MAX as u128;
        }
    }
    proof {
        assert(fits == dims_fit(*cfg, text@));
    }
    if !fits {
        return Err(RenderError::CanvasTooLarge);
    }
    let canvas = render_pixels(line_count, formatted.as_slice(), cfg);
    proof {
        assert(canvas.width == rendered_grid(*cfg, text@).1);
        assert(canvas.height == rendered_grid(*cfg, text@).2);
        assert(canvas.pixels@ == rendered_grid(*cfg, text@).0);
    }
    let out = render_image(&canvas, cfg);
    Ok(out)
}

} // verus!
