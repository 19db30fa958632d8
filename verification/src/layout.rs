//! The layout engine: multi-column line placement geometry and glyph
//! blitting onto a boolean pixel canvas.

use vstd::prelude::*;
use vstd::arithmetic::div_mod::{lemma_fundamental_div_mod, lemma_mod_division_less_than_divisor};
use vstd::arithmetic::div_mod::lemma_fundamental_div_mod_converse;
use crate::config::Config;
use crate::font::{CHAR_WIDTH, CHAR_HEIGHT, glyph_bits, glyph_pixel, get_char_bitmap, get_pixel};
use crate::formatter::{NL, SP, lines_of, first_nl};

verus! {

/// A boolean pixel grid in row-major order; `true` is a foreground pixel.
pub struct PixelCanvas {
    pub width: usize,
    pub height: usize,
    pub pixels: Vec<bool>,
}

impl PixelCanvas {
    /// The grid holds exactly one boolean per pixel.
    pub open spec fn wf(self) -> bool {
        self.pixels@.len() == self.width * self.height
    }

    /// The pixel at `(x, y)`.
    pub open spec fn pixel_at(self, x: int, y: int) -> bool
        recommends
            0 <= x < self.width,
            0 <= y < self.height,
    {
        self.pixels@[y * self.width + x]
    }

    /// Reads the pixel at `(x, y)`.
    pub fn get(&self, x: usize, y: usize) -> (b: bool)
        requires
            self.wf(),
            x < self.width,
            y < self.height,
        ensures
            b == self.pixel_at(x as int, y as int),
    {
        proof {
            assert(self.pixels.len() <= usize::MAX);
            assert((y + 1) * self.width == y * self.width + self.width) by (nonlinear_arith);
            assert((y + 1) * self.width <= self.height * self.width) by (nonlinear_arith)
                requires
                    y + 1 <= self.height,
                    self.width >= 0,
            ;
            assert(self.height * self.width == self.width * self.height) by (nonlinear_arith);
        }
        self.pixels[y * self.width + x]
    }
}

/// Horizontal advance from one character cell to the next.
pub open spec fn step_x(cfg: Config) -> int {
    CHAR_WIDTH + cfg.char_spacing
}

/// Vertical advance from one text line to the next.
pub open spec fn step_y(cfg: Config) -> int {
    CHAR_HEIGHT + cfg.line_spacing
}

/// Pixel width of one full text column.
pub open spec fn column_block_width(cfg: Config) -> int {
    cfg.column_width * step_x(cfg) - cfg.char_spacing
}

/// How many lines one column holds: the line count divided by the column
/// count, rounded up.
pub open spec fn lines_per_column_spec(cfg: Config, line_count: int) -> int {
    (line_count + cfg.column_count - 1) / (cfg.column_count as int)
}

/// Canvas width in pixels: a single line is rendered at exactly its own
/// width, more lines span all configured columns; margins are added.
pub open spec fn canvas_width_spec(cfg: Config, line_count: int, first_len: int) -> int {
    (if line_count == 1 {
        first_len * step_x(cfg) - cfg.char_spacing
    } else {
        cfg.column_count * (column_block_width(cfg) + cfg.column_spacing) - cfg.column_spacing
    }) + cfg.margin_right + cfg.margin_left
}

/// Canvas height in pixels.
pub open spec fn canvas_height_spec(cfg: Config, line_count: int) -> int {
    lines_per_column_spec(cfg, line_count) * step_y(cfg) - cfg.line_spacing + cfg.margin_top
        + cfg.margin_bottom
}

/// An all-background grid of `n` pixels.
pub open spec fn blank_grid(n: int) -> Seq<bool> {
    Seq::new(n as nat, |i: int| false)
}

/// Marks pixel `(x, y)` of a row-major grid of width `wd` as foreground.
/// A position outside the grid leaves it unchanged; the layout engine only
/// ever paints inside.
pub open spec fn paint_pixel(g: Seq<bool>, wd: int, x: int, y: int) -> Seq<bool> {
    if 0 <= y * wd + x < g.len() {
        g.update(y * wd + x, true)
    } else {
        g
    }
}

/// Paints the first `k` pixels (row-major within the 5x5 cell) of the glyph
/// whose top-left corner sits at `(x0, y0)`.
pub open spec fn paint_glyph_upto(g: Seq<bool>, wd: int, bm: u32, x0: int, y0: int, k: int) -> Seq<
    bool,
>
    decreases k,
{
    if k <= 0 {
        g
    } else {
        let k1 = k - 1;
        let sy = k1 / 5;
        let sx = k1 % 5;
        let g1 = paint_glyph_upto(g, wd, bm, x0, y0, k1);
        if glyph_pixel(bm, sx as u32, sy as u32) {
            paint_pixel(g1, wd, x0 + sx, y0 + sy)
        } else {
            g1
        }
    }
}

/// Paints the first `k` characters of one line whose origin is
/// `(x_start, y_start)`: a space advances without ink, any other byte paints
/// its glyph and advances.
pub open spec fn paint_line_upto(
    g: Seq<bool>,
    cfg: Config,
    wd: int,
    line: Seq<u8>,
    x_start: int,
    y_start: int,
    k: int,
) -> Seq<bool>
    decreases k,
{
    if k <= 0 {
        g
    } else {
        let g1 = paint_line_upto(g, cfg, wd, line, x_start, y_start, k - 1);
        let c = line[k - 1];
        if c == SP {
            g1
        } else {
            paint_glyph_upto(g1, wd, glyph_bits(c), x_start + (k - 1) * step_x(cfg), y_start, 25)
        }
    }
}

/// Horizontal origin of line `line_idx`: lines fill one whole column before
/// moving to the next.
pub open spec fn line_origin_x(cfg: Config, line_idx: int, lpc: int) -> int {
    cfg.margin_left + (line_idx / lpc) * (column_block_width(cfg) + cfg.column_spacing)
}

/// Vertical origin of line `line_idx`.
pub open spec fn line_origin_y(cfg: Config, line_idx: int, lpc: int) -> int {
    cfg.margin_top + (line_idx % lpc) * step_y(cfg)
}

/// Paints the first `k` lines onto the grid.
pub open spec fn paint_lines_upto(
    g: Seq<bool>,
    cfg: Config,
    wd: int,
    lines: Seq<Seq<u8>>,
    lpc: int,
    k: int,
) -> Seq<bool>
    decreases k,
{
    if k <= 0 {
        g
    } else {
        let g1 = paint_lines_upto(g, cfg, wd, lines, lpc, k - 1);
        paint_line_upto(
            g1,
            cfg,
            wd,
            lines[k - 1],
            line_origin_x(cfg, k - 1, lpc),
            line_origin_y(cfg, k - 1, lpc),
            lines[k - 1].len() as int,
        )
    }
}

/// The full rendered canvas contents for formatted text with `line_count`
/// newline-delimited lines.
pub open spec fn render_spec(cfg: Config, text: Seq<u8>, line_count: int) -> Seq<bool> {
    let wd = canvas_width_spec(cfg, line_count, text.len() as int);
    let ht = canvas_height_spec(cfg, line_count);
    let lpc = lines_per_column_spec(cfg, line_count);
    paint_lines_upto(blank_grid(wd * ht), cfg, wd, lines_of(text), lpc, line_count)
}

/// What the layout stage demands of its input: at least one column, every
/// line within the configured column width (when more than one line is
/// placed), and canvas dimensions that fit the machine.
pub open spec fn geometry_ok(cfg: Config, text: Seq<u8>, line_count: int) -> bool {
    &&& cfg.column_count >= 1
    &&& line_count == lines_of(text).len()
    &&& (line_count > 1 ==> cfg.column_width >= 1 && (forall|i: int|
        0 <= i < lines_of(text).len() ==> #[trigger] lines_of(text)[i].len() <= cfg.column_width))
    &&& canvas_width_spec(cfg, line_count, text.len() as int) <= u32::MAX
    &&& canvas_height_spec(cfg, line_count) <= u32::MAX
    &&& canvas_width_spec(cfg, line_count, text.len() as int) * canvas_height_spec(cfg, line_count)
        <= usize::MAX
}

pub(crate) proof fn lemma_ceil_div(total: int, cc: int)
    requires
        1 <= cc,
        0 <= total,
    ensures
        ({
            let lpc = (total + cc - 1) / cc;
            &&& total <= cc * lpc
            &&& 0 <= lpc
            &&& (total >= 1 ==> 1 <= lpc)
        }),
{
    lemma_fundamental_div_mod(total + cc - 1, cc);
    lemma_mod_division_less_than_divisor(total + cc - 1, cc);
    let lpc = (total + cc - 1) / cc;
    if lpc < 0 {
        assert(cc * lpc <= -cc) by (nonlinear_arith)
            requires
                lpc <= -1,
                cc >= 1,
        ;
        assert(false);
    }
    if total >= 1 && lpc < 1 {
        assert(cc * lpc <= 0) by (nonlinear_arith)
            requires
                lpc <= 0,
                cc >= 1,
        ;
        assert(false);
    }
}

proof fn lemma_col_row_bound(line_idx: int, lpc: int, cc: int, total: int)
    requires
        0 <= line_idx < total,
        1 <= lpc,
        1 <= cc,
        total <= cc * lpc,
    ensures
        0 <= line_idx / lpc < cc,
        0 <= line_idx % lpc < lpc,
{
    lemma_fundamental_div_mod(line_idx, lpc);
    lemma_mod_division_less_than_divisor(line_idx, lpc);
    let q = line_idx / lpc;
    if q < 0 {
        assert(lpc * q <= -lpc) by (nonlinear_arith)
            requires
                q <= -1,
                lpc >= 1,
        ;
        assert(false);
    }
    if q >= cc {
        assert(lpc * q >= cc * lpc) by (nonlinear_arith)
            requires
                q >= cc,
                lpc >= 1,
        ;
        assert(false);
    }
}

/// The column and row a line lands in: line `line_idx` fills row
/// `line_idx % lines_per_column` of column `line_idx / lines_per_column`,
/// so one whole column is filled top to bottom before the next begins.
pub fn line_placement(line_idx: u64, lines_per_column: u64) -> (cr: (u64, u64))
    requires
        lines_per_column >= 1,
    ensures
        cr.0 == line_idx as int / lines_per_column as int,
        cr.1 == line_idx as int % lines_per_column as int,
{
    (line_idx / lines_per_column, line_idx % lines_per_column)
}

/// Paints one glyph with its top-left corner at `(x0, y0)`.
fn blit_glyph(pixels: &mut Vec<bool>, wd: usize, bm: u32, x0: usize, y0: usize)
    requires
        1 <= wd,
        x0 + CHAR_WIDTH <= wd,
        (y0 + CHAR_HEIGHT) * wd <= old(pixels)@.len(),
    ensures
        final(pixels)@ == paint_glyph_upto(old(pixels)@, wd as int, bm, x0 as int, y0 as int, 25),
        final(pixels)@.len() == old(pixels)@.len(),
{
    let ghost g0 = pixels@;
    proof {
        assert(pixels.len() <= usize::MAX);
        assert((y0 + CHAR_HEIGHT) * wd >= (y0 + CHAR_HEIGHT) * 1) by (nonlinear_arith)
            requires
                wd >= 1,
                y0 + CHAR_HEIGHT >= 0,
        ;
    }
    let mut sy: u32 = 0;
    while sy < CHAR_HEIGHT
        invariant
            sy <= CHAR_HEIGHT,
            1 <= wd,
            x0 + CHAR_WIDTH <= wd,
            g0.len() <= usize::MAX,
            y0 + CHAR_HEIGHT <= g0.len(),
            (y0 + CHAR_HEIGHT) * wd <= g0.len(),
            pixels@.len() == g0.len(),
            pixels@ == paint_glyph_upto(g0, wd as int, bm, x0 as int, y0 as int, 5 * sy),
        decreases CHAR_HEIGHT - sy,
    {
        let mut sx: u32 = 0;
        while sx < CHAR_WIDTH
            invariant
                sy < CHAR_HEIGHT,
                sx <= CHAR_WIDTH,
                1 <= wd,
                x0 + CHAR_WIDTH <= wd,
                g0.len() <= usize::MAX,
                y0 + CHAR_HEIGHT <= g0.len(),
                (y0 + CHAR_HEIGHT) * wd <= g0.len(),
                pixels@.len() == g0.len(),
                pixels@ == paint_glyph_upto(g0, wd as int, bm, x0 as int, y0 as int, 5 * sy + sx),
            decreases CHAR_WIDTH - sx,
        {
            proof {
                lemma_fundamental_div_mod_converse(
                    5 * (sy as int) + sx as int,
                    5,
                    sy as int,
                    sx as int,
                );
            }
            if get_pixel(bm, sx, sy) {
                let py = y0 + sy as usize;
                let px = x0 + sx as usize;
                proof {
                    assert((py + 1) * wd == py * wd + wd) by (nonlinear_arith);
                    assert((py + 1) * wd <= (y0 + 5) * wd) by (nonlinear_arith)
                        requires
                            py + 1 <= y0 + 5,
                            0 <= wd,
                    ;
                }
                let idx = py * wd + px;
                pixels[idx] = true;
            }
            sx = sx + 1;
        }
        sy = sy + 1;
    }
}

/// Paints the characters of `text[start..end]` as one line whose origin is
/// `(x_start, y_start)`: spaces advance the cursor without ink.
fn blit_line(
    pixels: &mut Vec<bool>,
    wd: usize,
    text: &[u8],
    start: usize,
    end: usize,
    x_start: usize,
    y_start: usize,
    cfg: &Config,
)
    requires
        1 <= wd,
        start <= end <= text@.len(),
        end > start ==> x_start + (end - start - 1) * step_x(*cfg) + CHAR_WIDTH <= wd,
        (y_start + CHAR_HEIGHT) * wd <= old(pixels)@.len(),
    ensures
        final(pixels)@ == paint_line_upto(
            old(pixels)@,
            *cfg,
            wd as int,
            text@.subrange(start as int, end as int),
            x_start as int,
            y_start as int,
            end - start,
        ),
        final(pixels)@.len() == old(pixels)@.len(),
{
    let ghost g0 = pixels@;
    let ghost line = text@.subrange(start as int, end as int);
    let len = end - start;
    let sxs64: u64 = CHAR_WIDTH as u64 + cfg.char_spacing as u64;
    let mut j: usize = 0;
    while j < len
        invariant
            1 <= wd,
            j <= len,
            len == end - start,
            start <= end <= text@.len(),
            sxs64 == step_x(*cfg),
            len > 0 ==> x_start + (len - 1) * step_x(*cfg) + CHAR_WIDTH <= wd,
            (y_start + CHAR_HEIGHT) * wd <= g0.len(),
            line == text@.subrange(start as int, end as int),
            pixels@.len() == g0.len(),
            pixels@ == paint_line_upto(
                g0,
                *cfg,
                wd as int,
                line,
                x_start as int,
                y_start as int,
                j as int,
            ),
        decreases len - j,
    {
        let c = text[start + j];
        proof {
            assert(line[j as int] == c);
            assert(j as int * step_x(*cfg) <= (len - 1) as int * step_x(*cfg)) by (nonlinear_arith)
                requires
                    j as int <= len as int - 1,
                    0 <= step_x(*cfg),
            ;
        }
        if c != SP {
            let bm = get_char_bitmap(c);
            let gx64: u64 = x_start as u64 + j as u64 * sxs64;
            let gx = gx64 as usize;
            blit_glyph(pixels, wd, bm, gx, y_start);
        }
        j = j + 1;
    }
}

/// Lays the formatted text out as a fresh pixel canvas: computes the exact
/// canvas dimensions from the line count and the configuration, then blits
/// every character of every line at its place in the column grid. Empty text
/// yields a defined 1x1 blank canvas.
pub fn render_pixels(total_lines: usize, text: &[u8], cfg: &Config) -> (canvas: PixelCanvas)
    requires
        total_lines == lines_of(text@).len(),
        text@.len() > 0 ==> geometry_ok(*cfg, text@, total_lines as int),
    ensures
        canvas.wf(),
        1 <= canvas.width,
        1 <= canvas.height,
        text@.len() == 0 ==> canvas.width == 1 && canvas.height == 1 && canvas.pixels@
            == blank_grid(1),
        text@.len() > 0 ==> canvas.width == canvas_width_spec(
            *cfg,
            total_lines as int,
            text@.len() as int,
        ) && canvas.height == canvas_height_spec(*cfg, total_lines as int) && canvas.pixels@
            == render_spec(*cfg, text@, total_lines as int),
{
    let n = text.len();
    if n == 0 {
        let mut pixels: Vec<bool> = Vec::new();
        pixels.push(false);
        proof {
            assert(pixels@ =~= blank_grid(1));
            assert(pixels@.len() == 1usize * 1usize) by (nonlinear_arith)
                requires
                    pixels@.len() == 1,
            ;
        }
        return PixelCanvas { width: 1, height: 1, pixels };
    }
    let ghost t = text@;
    let ghost lc = total_lines as int;
    let cc = cfg.column_count;
    let cs = cfg.char_spacing;
    let ls = cfg.line_spacing;

    // the line count is the number of newline-delimited segments, so at least 1
    proof {
        crate::formatter::lemma_lines_nonempty(t);
    }
    // lines per column, rounded up
    let lpc128: u128 = (total_lines as u128 + cc as u128 - 1) / (cc as u128);
    proof {
        lemma_ceil_div(lc, cc as int);
        assert(lpc128 == lines_per_column_spec(*cfg, lc));
        // the height bound keeps lines_per_column small
        let lp = lpc128 as int;
        assert(lp * step_y(*cfg) == 5 * lp + ls * lp) by (nonlinear_arith)
            requires
                step_y(*cfg) == 5 + ls,
        ;
        assert(ls * lp >= ls * 1) by (nonlinear_arith)
            requires
                lp >= 1,
                ls >= 0,
        ;
        assert(lines_per_column_spec(*cfg, lc) * step_y(*cfg) <= u32::MAX as int + ls);
        assert(5 * lp <= u32::MAX as int);
    }
    let lpc: usize = lpc128 as usize;

    // canvas width
    let step_x64: u64 = CHAR_WIDTH as u64 + cs as u64;
    let width64: u64;
    let ghost block: int = column_block_width(*cfg);
    if total_lines == 1 {
        proof {
            assert((n as int) * step_x(*cfg) >= 1 * step_x(*cfg)) by (nonlinear_arith)
                requires
                    n as int >= 1,
                    step_x(*cfg) >= 0,
            ;
            assert((n as int) * step_x(*cfg) <= u32::MAX as int + cs) by (nonlinear_arith)
                requires
                    (n as int) * step_x(*cfg) - cs + cfg.margin_right + cfg.margin_left <= u32::MAX
                        as int,
                    cs >= 0,
                    cfg.margin_right >= 0,
                    cfg.margin_left >= 0,
            ;
        }
        width64 = (n as u64) * step_x64 - cs as u64 + cfg.margin_right as u64
            + cfg.margin_left as u64;
    } else {
        proof {
            assert(cfg.column_width as int * step_x(*cfg) >= 1 * step_x(*cfg)) by (nonlinear_arith)
                requires
                    cfg.column_width >= 1,
                    step_x(*cfg) >= 0,
            ;
            let b1 = block + cfg.column_spacing;
            assert(cc as int * b1 >= 1 * b1) by (nonlinear_arith)
                requires
                    cc >= 1,
                    b1 >= 0,
            ;
            // so block + column_spacing is itself within the width bound
            assert(cfg.column_width as int * step_x(*cfg) <= u32::MAX as int + cfg.column_spacing
                + cs);
        }
        let block64: u64 = cfg.column_width as u64 * step_x64 - cs as u64;
        width64 = cc as u64 * (block64 + cfg.column_spacing as u64) - cfg.column_spacing as u64
            + cfg.margin_right as u64 + cfg.margin_left as u64;
    }
    proof {
        assert(width64 == canvas_width_spec(*cfg, lc, t.len() as int));
        assert(width64 >= 1);
    }

    // canvas height
    let step_y64: u64 = CHAR_HEIGHT as u64 + ls as u64;
    let height64: u64 = (lpc as u64) * step_y64 - ls as u64 + cfg.margin_top as u64
        + cfg.margin_bottom as u64;
    proof {
        assert(height64 == canvas_height_spec(*cfg, lc));
        assert(height64 >= 1);
    }
    let width: usize = width64 as usize;
    let height: usize = height64 as usize;

    // an all-background canvas
    let ghost total_px = canvas_width_spec(*cfg, lc, t.len() as int) * canvas_height_spec(*cfg, lc);
    proof {
        assert(width * height == total_px) by (nonlinear_arith)
            requires
                width == canvas_width_spec(*cfg, lc, t.len() as int),
                height == canvas_height_spec(*cfg, lc),
                total_px == canvas_width_spec(*cfg, lc, t.len() as int) * canvas_height_spec(
                    *cfg,
                    lc,
                ),
        ;
    }
    let npix = width * height;
    let mut pixels: Vec<bool> = Vec::new();
    let mut filled: usize = 0;
    while filled < npix
        invariant
            filled <= npix,
            pixels@ =~= blank_grid(filled as int),
        decreases npix - filled,
    {
        pixels.push(false);
        proof {
            assert(pixels@ =~= blank_grid(filled + 1));
        }
        filled = filled + 1;
    }

    // paint every line at its place in the column grid
    let ghost lines = lines_of(t);
    proof {
        assert(t.skip(0) =~= t);
        assert(lines.subrange(0, lc) =~= lines);
    }
    let mut line_idx: usize = 0;
    let mut start: usize = 0;
    while line_idx < total_lines
        invariant
            line_idx <= total_lines,
            start <= t.len(),
            t == text@,
            t.len() == n,
            n > 0,
            lc == total_lines as int,
            lines == lines_of(t),
            geometry_ok(*cfg, t, lc),
            lpc == lines_per_column_spec(*cfg, lc),
            1 <= lpc,
            lc <= cc as int * lpc as int,
            cc == cfg.column_count,
            cs == cfg.char_spacing,
            ls == cfg.line_spacing,
            step_x64 == step_x(*cfg),
            step_y64 == step_y(*cfg),
            1 <= width,
            width == canvas_width_spec(*cfg, lc, t.len() as int),
            height == canvas_height_spec(*cfg, lc),
            pixels@.len() == width * height,
            line_idx < total_lines ==> lines_of(t.skip(start as int)) == lines.subrange(
                line_idx as int,
                lc,
            ),
            pixels@ == paint_lines_upto(
                blank_grid(width as int * height as int),
                *cfg,
                width as int,
                lines,
                lpc as int,
                line_idx as int,
            ),
        decreases total_lines - line_idx,
    {
        // find the end of this line
        let mut end: usize = start;
        while end < n && text[end] != NL
            invariant
                t == text@,
                t.len() == n,
                start <= end <= n,
                forall|j: int| start <= j < end ==> t[j] != NL,
            decreases n - end,
        {
            end = end + 1;
        }
        let ghost line = t.subrange(start as int, end as int);
        proof {
            let tail = t.skip(start as int);
            crate::formatter::lemma_first_nl_is(tail, end - start);
            assert(forall|j: int|
                0 <= j < end - start ==> tail[j] == t[start + j] && t[start + j] != NL);
            if end < n {
                assert(tail[end - start] == t[end as int]);
            }
            assert(first_nl(tail) == end - start);
            crate::formatter::lemma_lines_head(tail, end - start);
            assert(tail.take(end - start) =~= line);
            assert(lines.subrange(line_idx as int, lc)[0] == lines[line_idx as int]);
            assert(lines[line_idx as int] == line);
            if end < n {
                assert(tail.skip(end - start + 1) =~= t.skip(end + 1));
            }
        }
        // where this line goes
        proof {
            lemma_col_row_bound(line_idx as int, lpc as int, cc as int, lc);
        }
        let col = line_idx / lpc;
        let row = line_idx % lpc;
        let ghost bs = column_block_width(*cfg) + cfg.column_spacing;
        let ghost x0 = line_origin_x(*cfg, line_idx as int, lpc as int);
        let ghost y0 = line_origin_y(*cfg, line_idx as int, lpc as int);
        proof {
            let sx0 = step_x(*cfg);
            let sy0 = step_y(*cfg);
            // horizontal bound: this column's block ends inside the canvas
            if lc == 1 {
                assert(col == 0) by {
                    lemma_fundamental_div_mod_converse(0, lpc as int, 0, 0);
                };
                assert((n as int) * sx0 >= 1 * sx0) by (nonlinear_arith)
                    requires
                        n as int >= 1,
                        sx0 >= 0,
                ;
                assert(x0 == cfg.margin_left) by (nonlinear_arith)
                    requires
                        x0 == cfg.margin_left + (0int) * bs,
                ;
            } else {
                // the configured column block is nonempty and within the width
                assert(cfg.column_width as int * sx0 >= 1 * sx0) by (nonlinear_arith)
                    requires
                        cfg.column_width >= 1,
                        sx0 >= 0,
                ;
                assert(bs >= 0);
                assert(cc as int * bs >= 1 * bs) by (nonlinear_arith)
                    requires
                        cc >= 1,
                        bs >= 0,
                ;
                assert(col as int * bs <= (cc - 1) * bs) by (nonlinear_arith)
                    requires
                        col as int <= cc - 1,
                        bs >= 0,
                ;
                assert((cc - 1) * bs == cc as int * bs - bs) by (nonlinear_arith);
                assert(col as int * bs >= 0) by (nonlinear_arith)
                    requires
                        col as int >= 0,
                        bs >= 0,
                ;
            }
            // vertical bound: this row's cell ends inside the canvas
            assert(row as int * sy0 <= (lpc - 1) as int * sy0) by (nonlinear_arith)
                requires
                    row as int <= lpc - 1,
                    sy0 >= 0,
            ;
            assert((lpc - 1) as int * sy0 == lpc as int * sy0 - sy0) by (nonlinear_arith);
            assert(row as int * sy0 >= 0) by (nonlinear_arith)
                requires
                    row as int >= 0,
                    sy0 >= 0,
            ;
            assert(y0 + CHAR_HEIGHT <= height);
            assert(x0 <= width);
        }
        let xs64: u64 = if total_lines == 1 {
            cfg.margin_left as u64
        } else {
            cfg.margin_left as u64 + (col as u64) * (cfg.column_width as u64 * step_x64
                - cs as u64 + cfg.column_spacing as u64)
        };
        let ys64: u64 = cfg.margin_top as u64 + (row as u64) * step_y64;
        proof {
            assert(xs64 == x0);
            assert(ys64 == y0);
            // the line's pixels all land inside the canvas
            let llen = line.len() as int;
            if llen > 0 {
                if lc == 1 {
                    crate::formatter::lemma_lines_head(t, first_nl(t) as int);
                    if first_nl(t) < t.len() {
                        crate::formatter::lemma_lines_nonempty(
                            t.skip(first_nl(t) as int + 1),
                        );
                        assert(false);
                    }
                    assert(line == t);
                } else {
                    assert(llen <= cfg.column_width as int);
                    assert(llen * step_x(*cfg) <= cfg.column_width as int * step_x(*cfg))
                        by (nonlinear_arith)
                        requires
                            llen <= cfg.column_width as int,
                            step_x(*cfg) >= 0,
                    ;
                }
                assert((llen - 1) * step_x(*cfg) == llen * step_x(*cfg) - step_x(*cfg))
                    by (nonlinear_arith);
            }
            assert((y0 + CHAR_HEIGHT) * width as int <= height as int * width as int)
                by (nonlinear_arith)
                requires
                    y0 + CHAR_HEIGHT <= height as int,
                    width as int >= 0,
            ;
            assert(height as int * width as int == width as int * height as int)
                by (nonlinear_arith);
        }
        let x_start: usize = xs64 as usize;
        let y_start: usize = ys64 as usize;
        blit_line(&mut pixels, width, text, start, end, x_start, y_start, cfg);
        proof {
            assert(pixels@ == paint_lines_upto(
                blank_grid(width as int * height as int),
                *cfg,
                width as int,
                lines,
                lpc as int,
                line_idx as int + 1,
            ));
            // step the line decomposition forward
            let tail = t.skip(start as int);
            if end < n {
                assert(lines_of(tail) == seq![line] + lines_of(t.skip(end + 1)));
                let rest = lines_of(t.skip(end + 1));
                assert(lines_of(tail) == lines.subrange(line_idx as int, lc));
                assert(lines_of(tail).len() == lc - line_idx);
                assert((seq![line] + rest).len() == 1 + rest.len());
                assert(1 + rest.len() == lc - line_idx);
                assert forall|j: int|
                    0 <= j < rest.len() implies rest[j] == lines.subrange(
                    line_idx as int + 1,
                    lc,
                )[j] by {
                    assert(rest[j] == (seq![line] + rest)[j + 1]);
                    assert(lines.subrange(line_idx as int, lc)[j + 1] == lines[line_idx + 1 + j]);
                }
                assert(rest =~= lines.subrange(line_idx as int + 1, lc));
            } else {
                assert(lines_of(tail).len() == 1);
                assert(lines.subrange(line_idx as int, lc).len() == 1);
                assert(line_idx as int + 1 == lc);
            }
        }
        line_idx = line_idx + 1;
        if end < n {
            start = end + 1;
        } else {
            start = end;
        }
    }
    PixelCanvas { width, height, pixels }
}

/// Whether `b2` stands in for `b` on the canvas: the same byte, or a space
/// in place of a byte that has no glyph (and is no line break).
pub open spec fn blank_as_space(b: u8, b2: u8) -> bool {
    b2 == b || (glyph_bits(b) == 0 && b != NL && b2 == SP)
}

proof fn lemma_paint_blank_glyph(g: Seq<bool>, wd: int, x0: int, y0: int, k: int)
    ensures
        paint_glyph_upto(g, wd, 0u32, x0, y0, k) == g,
    decreases k,
{
    if k > 0 {
        lemma_paint_blank_glyph(g, wd, x0, y0, k - 1);
        let sxu = (((k - 1) % 5) as u32);
        let syu = (((k - 1) / 5) as u32);
        let shift = (((CHAR_HEIGHT - 1 - syu) * CHAR_WIDTH + (CHAR_WIDTH - 1 - sxu)) as u32);
        assert(0u32 & (1u32 << shift) == 0) by (bit_vector);
        assert(!glyph_pixel(0u32, sxu, syu));
    }
}

proof fn lemma_paint_line_blanks(
    g: Seq<bool>,
    cfg: Config,
    wd: int,
    l1: Seq<u8>,
    l2: Seq<u8>,
    x_start: int,
    y_start: int,
    k: int,
)
    requires
        l1.len() == l2.len(),
        forall|p: int| 0 <= p < l1.len() ==> blank_as_space(l1[p], #[trigger] l2[p]),
        k <= l1.len(),
    ensures
        paint_line_upto(g, cfg, wd, l1, x_start, y_start, k) == paint_line_upto(
            g,
            cfg,
            wd,
            l2,
            x_start,
            y_start,
            k,
        ),
    decreases k,
{
    if k > 0 {
        lemma_paint_line_blanks(g, cfg, wd, l1, l2, x_start, y_start, k - 1);
        let g1 = paint_line_upto(g, cfg, wd, l1, x_start, y_start, k - 1);
        if l1[k - 1] != l2[k - 1] {
            lemma_paint_blank_glyph(g1, wd, x_start + (k - 1) * step_x(cfg), y_start, 25);
        }
    }
}

proof fn lemma_first_nl_agrees(t1: Seq<u8>, t2: Seq<u8>)
    requires
        t1.len() == t2.len(),
        forall|i: int| 0 <= i < t1.len() ==> (t1[i] == NL <==> #[trigger] t2[i] == NL),
    ensures
        first_nl(t1) == first_nl(t2),
    decreases t1.len(),
{
    if t1.len() > 0 && t1[0] != NL {
        assert forall|i: int| 0 <= i < t1.skip(1).len() implies (t1.skip(1)[i] == NL
            <==> #[trigger] t2.skip(1)[i] == NL) by {
            assert(t1.skip(1)[i] == t1[i + 1]);
            assert(t2.skip(1)[i] == t2[i + 1]);
        }
        lemma_first_nl_agrees(t1.skip(1), t2.skip(1));
    }
}

proof fn lemma_lines_of_blanks(t1: Seq<u8>, t2: Seq<u8>)
    requires
        t1.len() == t2.len(),
        forall|i: int| 0 <= i < t1.len() ==> blank_as_space(t1[i], #[trigger] t2[i]),
    ensures
        lines_of(t1).len() == lines_of(t2).len(),
        forall|j: int|
            0 <= j < lines_of(t1).len() ==> #[trigger] lines_of(t1)[j].len() == lines_of(
                t2,
            )[j].len() && (forall|p: int|
                0 <= p < lines_of(t1)[j].len() ==> blank_as_space(
                    lines_of(t1)[j][p],
                    #[trigger] lines_of(t2)[j][p],
                )),
    decreases t1.len(),
{
    assert forall|i: int| 0 <= i < t1.len() implies (t1[i] == NL <==> #[trigger] t2[i]
        == NL) by {}
    lemma_first_nl_agrees(t1, t2);
    let k = first_nl(t1);
    crate::formatter::lemma_lines_head(t1, k as int);
    crate::formatter::lemma_lines_head(t2, k as int);
    if k < t1.len() {
        assert forall|i: int| 0 <= i < t1.skip(k as int + 1).len() implies blank_as_space(
            t1.skip(k as int + 1)[i],
            #[trigger] t2.skip(k as int + 1)[i],
        ) by {
            assert(t1.skip(k as int + 1)[i] == t1[k + 1 + i]);
            assert(t2.skip(k as int + 1)[i] == t2[k + 1 + i]);
        }
        lemma_lines_of_blanks(t1.skip(k as int + 1), t2.skip(k as int + 1));
        let rest1 = lines_of(t1.skip(k as int + 1));
        let rest2 = lines_of(t2.skip(k as int + 1));
        assert forall|j: int|
            0 <= j < lines_of(t1).len() implies #[trigger] lines_of(t1)[j].len() == lines_of(
            t2,
        )[j].len() && (forall|p: int|
            0 <= p < lines_of(t1)[j].len() ==> blank_as_space(
                lines_of(t1)[j][p],
                #[trigger] lines_of(t2)[j][p],
            )) by {
            if j == 0 {
                assert(lines_of(t1)[0] == t1.take(k as int));
                assert(lines_of(t2)[0] == t2.take(k as int));
                assert forall|p: int| 0 <= p < lines_of(t1)[0].len() implies blank_as_space(
                    lines_of(t1)[0][p],
                    #[trigger] lines_of(t2)[0][p],
                ) by {
                    assert(t1.take(k as int)[p] == t1[p]);
                    assert(t2.take(k as int)[p] == t2[p]);
                }
            } else {
                assert(lines_of(t1)[j] == rest1[j - 1]);
                assert(lines_of(t2)[j] == rest2[j - 1]);
            }
        }
    } else {
        assert(lines_of(t1)[0] == t1);
        assert(lines_of(t2)[0] == t2);
    }
}

proof fn lemma_paint_lines_blanks(
    g: Seq<bool>,
    cfg: Config,
    wd: int,
    lines1: Seq<Seq<u8>>,
    lines2: Seq<Seq<u8>>,
    lpc: int,
    k: int,
)
    requires
        lines1.len() == lines2.len(),
        forall|j: int|
            0 <= j < lines1.len() ==> #[trigger] lines1[j].len() == lines2[j].len() && (forall|
                p: int,
            |
                0 <= p < lines1[j].len() ==> blank_as_space(
                    lines1[j][p],
                    #[trigger] lines2[j][p],
                )),
        k <= lines1.len(),
    ensures
        paint_lines_upto(g, cfg, wd, lines1, lpc, k) == paint_lines_upto(
            g,
            cfg,
            wd,
            lines2,
            lpc,
            k,
        ),
    decreases k,
{
    if k > 0 {
        lemma_paint_lines_blanks(g, cfg, wd, lines1, lines2, lpc, k - 1);
        lemma_paint_line_blanks(
            paint_lines_upto(g, cfg, wd, lines1, lpc, k - 1),
            cfg,
            wd,
            lines1[k - 1],
            lines2[k - 1],
            line_origin_x(cfg, k - 1, lpc),
            line_origin_y(cfg, k - 1, lpc),
            lines1[k - 1].len() as int,
        );
    }
}

/// A byte without a glyph occupies its cell without ink: replacing every
/// such byte (line breaks aside) by a space leaves the rendered canvas
/// unchanged, pixel for pixel.
pub proof fn lemma_blank_bytes_render_as_spaces(
    cfg: Config,
    text: Seq<u8>,
    text2: Seq<u8>,
    line_count: int,
)
    requires
        text.len() == text2.len(),
        forall|i: int| 0 <= i < text.len() ==> blank_as_space(text[i], #[trigger] text2[i]),
        line_count <= lines_of(text).len(),
    ensures
        render_spec(cfg, text, line_count) == render_spec(cfg, text2, line_count),
{
    lemma_lines_of_blanks(text, text2);
    let wd = canvas_width_spec(cfg, line_count, text.len() as int);
    let ht = canvas_height_spec(cfg, line_count);
    lemma_paint_lines_blanks(
        blank_grid(wd * ht),
        cfg,
        wd,
        lines_of(text),
        lines_of(text2),
        lines_per_column_spec(cfg, line_count),
        line_count,
    );
}

} // verus!
