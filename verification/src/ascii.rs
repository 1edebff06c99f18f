//! AsciiMapper — converts an rgb24 frame into a colored ASCII string.
//!
//!   1. Per-pixel gray intensity -> ASCII glyph via an intensity LUT.
//!   2. Per-pixel RGB -> ANSI 24-bit truecolor escape, with optional bit-depth
//!      quantization and run-length encoding (escape emitted only when the
//!      color changes).
//!
//! Gray is derived from RGB with the standard Rec.601 luma weights
//! (0.299 R + 0.587 G + 0.114 B).

use crate::mapper::{
    has_luma, law_coarser_merges_more, law_luma_weights, law_quantized_pixel, luma, luma_of, paint,
    pixel, pixel_at, quantize, quantized,
};
use crate::screen::{
    color_count, colored, frame_tokens, law_color_sent_only_on_change, law_frame_shows_every_cell,
    lemma_fewer_color_changes, paints, shown_rows, text_of, Cell, Rgb, Shown,
};
use crate::text::chars_of;
use vstd::math::min;
use vstd::prelude::*;

verus! {

/// Default 93-level intensity ramp (dark -> bright).
pub const DEFAULT_PALETTE: &'static str =
    " `.-':_,^=;><+!rc*/\\z?sLTv)J7(|Fi{C}fI31tlu[neoZ5Yxjya]2ESwqkP6h9d4VpOGbUAKXHm8RD#$Bg0MNWQ%&@";

/// The glyph ramp in use: the given one, or the default one where none or an
/// empty one is given.
pub open spec fn active_palette(palette: Option<Seq<char>>) -> Seq<char> {
    match palette {
        Some(p) => if p.len() > 0 {
            p
        } else {
            DEFAULT_PALETTE@
        },
        None => DEFAULT_PALETTE@,
    }
}

/// How many gray values share a glyph, in a ramp of `n`.
pub open spec fn bucket(n: int) -> int {
    if n <= 256 {
        256int / n
    } else {
        1
    }
}

/// The place of a gray value in a ramp of `n` glyphs.
pub open spec fn ramp_index(gray: int, n: int) -> int {
    min(gray / bucket(n), n - 1)
}

/// The cell of a pixel.
pub open spec fn ascii_cell(palette: Seq<char>, quantize_bits: nat, c: Rgb) -> Cell {
    let q = quantized(c, quantize_bits);
    Cell { color: q, glyph: palette[ramp_index(luma_of(q) as int, palette.len() as int)] }
}

/// The cells of a frame, in raster order.
pub open spec fn ascii_cells(
    palette: Seq<char>,
    quantize_bits: nat,
    rgb: Seq<u8>,
    width: nat,
    height: nat,
) -> Seq<Cell> {
    Seq::new(width * height, |i: int| ascii_cell(palette, quantize_bits, pixel(rgb, i)))
}

pub struct AsciiMapper {
    lut: Vec<char>,
    /// 256-entry table mapping a gray byte directly to a palette glyph,
    /// precomputed from the `gray / (256 / n)` + clamp bucketing.
    gray_to_glyph: [char; 256],
    quantize_bits: u32,
}

impl AsciiMapper {
    /// The table agrees with the ramp.
    #[verifier::type_invariant]
    spec fn table_matches_ramp(self) -> bool {
        &&& self.lut@.len() > 0
        &&& forall|g: int|
            0 <= g < 256 ==> #[trigger] self.gray_to_glyph@[g] == self.lut@[ramp_index(
                g,
                self.lut@.len() as int,
            )]
    }

    /// The glyph ramp, dark to bright.
    pub closed spec fn palette(&self) -> Seq<char> {
        self.lut@
    }

    /// How many low bits of each color channel are cleared.
    pub closed spec fn quantize_bits(&self) -> u32 {
        self.quantize_bits
    }

    pub fn new(palette: Option<Vec<char>>, quantize_bits: u32) -> (m: AsciiMapper)
        ensures
            m.palette() == active_palette(
                match palette {
                    Some(p) => Some(p@),
                    None => None,
                },
            ),
            palette is None || palette->0@.len() == 0 ==> m.palette().len() == 93,
            m.quantize_bits() == quantize_bits,
    {
        let lut: Vec<char> = match palette {
            Some(p) => if p.len() > 0 {
                p
            } else {
                chars_of(DEFAULT_PALETTE)
            },
            None => chars_of(DEFAULT_PALETTE),
        };
        proof {
            reveal_strlit(
                " `.-':_,^=;><+!rc*/\\z?sLTv)J7(|Fi{C}fI31tlu[neoZ5Yxjya]2ESwqkP6h9d4VpOGbUAKXHm8RD#$Bg0MNWQ%&@",
            );
        }
        let n: usize = lut.len();
        // index = clamp(gray / max(1, 256 / n), 0, n-1)
        let divisor: usize = if n <= 256 {
            256 / n
        } else {
            1
        };
        proof {
            if n <= 256 {
                assert(256int / n as int >= 1) by (nonlinear_arith)
                    requires
                        0 < n <= 256,
                ;
            }
        }
        let mut gray_to_glyph: [char; 256] = [' '; 256];
        for g in 0..256usize
            invariant
                n == lut@.len(),
                n > 0,
                divisor == bucket(n as int),
                divisor >= 1,
                forall|j: int|
                    0 <= j < g ==> #[trigger] gray_to_glyph@[j] == lut@[ramp_index(j, n as int)],
        {
            let place: usize = g / divisor;
            let idx: usize = if place <= n - 1 {
                place
            } else {
                n - 1
            };
            gray_to_glyph[g] = lut[idx];
        }
        AsciiMapper { lut, gray_to_glyph, quantize_bits }
    }

    /// How many low bits of each color channel are cleared.
    pub fn masked_bits(&self) -> (bits: u32)
        ensures
            bits == self.quantize_bits(),
    {
        self.quantize_bits
    }

    /// What `convert` gives for a frame.
    pub open spec fn converted(&self, rgb: Seq<u8>, width: nat, height: nat) -> Seq<char> {
        text_of(
            frame_tokens(
                ascii_cells(self.palette(), self.quantize_bits() as nat, rgb, width, height),
                width,
                height,
            ),
        )
    }

    /// Convert one `rgb24` frame (`width*height*3` bytes) into a colored ASCII
    /// string with rows joined by `\n` and wrapped in RESET on both ends.
    pub fn convert(&self, rgb: &[u8], width: usize, height: usize) -> (out: String)
        requires
            self.quantize_bits() < 8,
            rgb@.len() == width * height * 3,
        ensures
            out@ == self.converted(rgb@, width as nat, height as nat),
    {
        proof {
            use_type_invariant(self);
        }
        assert(rgb@.len() == rgb.len());
        assert(0 <= width * height <= width * height * 3) by (nonlinear_arith);
        let n: usize = width * height;
        let mut cells: Vec<Cell> = Vec::new();
        let ghost want = ascii_cells(
            self.palette(),
            self.quantize_bits() as nat,
            rgb@,
            width as nat,
            height as nat,
        );
        for i in 0..n
            invariant
                n == width * height,
                rgb@.len() == n * 3,
                self.table_matches_ramp(),
                self.quantize_bits < 8,
                want == ascii_cells(
                    self.palette(),
                    self.quantize_bits() as nat,
                    rgb@,
                    width as nat,
                    height as nat,
                ),
                cells@ == want.take(i as int),
        {
            let c = quantize(pixel_at(rgb, i), self.quantize_bits);
            // gray = luma(r,g,b) -> glyph
            let gray: u8 = luma(c.r, c.g, c.b);
            cells.push(Cell { color: c, glyph: self.gray_to_glyph[gray as usize] });
            assert(want.take(i + 1) =~= want.take(i as int).push(want[i as int]));
        }
        assert(cells@ =~= want);
        paint(cells.as_slice(), width, height)
    }

    /// Number of glyphs in the active palette (for the info screen).
    pub fn levels(&self) -> (n: usize)
        ensures
            n == self.palette().len(),
            n > 0,
    {
        proof {
            use_type_invariant(self);
        }
        self.lut.len()
    }
}

// ── Laws ────────────────────────────────────────────────────────────────

/// The built-in ramp has 93 levels, from blank to the densest glyph, and repeats
/// none of them.
pub proof fn law_default_ramp()
    ensures
        DEFAULT_PALETTE@.len() == 93,
        DEFAULT_PALETTE@.first() == ' ',
        DEFAULT_PALETTE@.last() == '@',
        DEFAULT_PALETTE@.no_duplicates(),
{
    reveal_strlit(
        " `.-':_,^=;><+!rc*/\\z?sLTv)J7(|Fi{C}fI31tlu[neoZ5Yxjya]2ESwqkP6h9d4VpOGbUAKXHm8RD#$Bg0MNWQ%&@",
    );
}

/// The ramp runs from dark to bright: a brighter gray never gets an earlier
/// glyph, and every gray gets a glyph of the ramp.
pub proof fn law_ramp_is_monotone(g1: int, g2: int, n: int)
    requires
        0 <= g1 <= g2 < 256,
        0 < n,
    ensures
        0 <= ramp_index(g1, n) <= ramp_index(g2, n) < n,
{
    let d = bucket(n);
    if n <= 256 {
        assert(256int / n >= 1) by (nonlinear_arith)
            requires
                0 < n <= 256,
        ;
    }
    assert(0 <= g1 / d <= g2 / d) by (nonlinear_arith)
        requires
            0 <= g1 <= g2,
            d >= 1,
    ;
}

/// Black gets the first glyph, and white the last one of any ramp with no more
/// glyphs than there are grays.
pub proof fn law_ramp_ends(n: int)
    requires
        0 < n,
    ensures
        ramp_index(0, n) == 0,
        n <= 256 ==> ramp_index(255, n) == n - 1,
{
    let d = bucket(n);
    if n <= 256 {
        assert(d >= 1 && d * n <= 256) by (nonlinear_arith)
            requires
                d == 256int / n,
                0 < n <= 256,
        ;
        assert((n - 1) * d <= 255) by (nonlinear_arith)
            requires
                d * n <= 256,
                d >= 1,
        ;
        assert(255int / d >= n - 1) by (nonlinear_arith)
            requires
                (n - 1) * d <= 255,
                d >= 1,
        ;
    }
    assert(0int / d == 0) by (nonlinear_arith)
        requires
            d >= 1,
    ;
}

/// Clearing more color bits sends no more color escapes.
pub proof fn law_coarser_colors_send_less(
    palette: Seq<char>,
    fine: nat,
    coarse: nat,
    rgb: Seq<u8>,
    width: nat,
    height: nat,
)
    requires
        fine <= coarse,
    ensures
        color_count(frame_tokens(ascii_cells(palette, coarse, rgb, width, height), width, height))
            <= color_count(
            frame_tokens(ascii_cells(palette, fine, rgb, width, height), width, height),
        ),
{
    let a = ascii_cells(palette, fine, rgb, width, height);
    let b = ascii_cells(palette, coarse, rgb, width, height);
    law_color_sent_only_on_change(a, width, height);
    law_color_sent_only_on_change(b, width, height);
    let n = height * width;
    assert(n == width * height) by (nonlinear_arith)
        requires
            n == height * width,
    ;
    assert forall|i: int| 0 < i < n && (#[trigger] a[i]).color == a[i - 1].color implies b[i].color
        == b[i - 1].color by {
        law_coarser_merges_more(pixel(rgb, i), pixel(rgb, i - 1), fine, coarse);
    }
    lemma_fewer_color_changes(a, b, n);
}

/// Whether the `i`-th of `n` glyphs stands for a gray: the grays are dealt out in
/// equal steps, dark ones first, and the last glyph takes what is left.
pub open spec fn stands_for(i: int, n: int, gray: int) -> bool {
    let step = if n <= 256 {
        256int / n
    } else {
        1
    };
    &&& 0 <= i < n
    &&& i * step <= gray
    &&& i == n - 1 || gray < (i + 1) * step
}

/// Whether a glyph of the palette fits a color's brightness.
pub open spec fn glyph_fits(glyph: char, palette: Seq<char>, c: Rgb) -> bool {
    exists|i: int, gray: int| #[trigger]
        stands_for(i, palette.len() as int, gray) && has_luma(c.r, c.g, c.b, gray) && glyph
            == palette[i]
}

/// Whether `rows` is the picture of a frame in glyphs: at column `x` of row `y` the
/// pixel at that place, in its color, with a glyph of its brightness.
pub open spec fn is_ascii_picture(
    rows: Seq<Seq<Shown>>,
    palette: Seq<char>,
    rgb: Seq<u8>,
    width: nat,
    height: nat,
    bits: nat,
) -> bool {
    &&& rows.len() == height
    &&& forall|y: int| 0 <= y < height ==> (#[trigger] rows[y]).len() == width
    &&& forall|y: int, x: int|
        #![trigger rows[y][x]]
        0 <= y < height && 0 <= x < width ==> {
            &&& colored(rows[y][x].fg, rgb, 3 * (y * width + x), bits)
            &&& rows[y][x].bg is None
            &&& glyph_fits(rows[y][x].glyph, palette, rows[y][x].fg->0)
        }
}

/// A terminal that reads a converted frame shows every pixel where it is, in its
/// color and with a glyph of its brightness.
pub proof fn law_glyphs_show_the_frame(m: AsciiMapper, rgb: Seq<u8>, width: nat, height: nat)
    requires
        height > 0,
        m.palette().len() > 0,
    ensures
        exists|rows: Seq<Seq<Shown>>| #[trigger]
            paints(m.converted(rgb, width, height), rows) && is_ascii_picture(
                rows,
                m.palette(),
                rgb,
                width,
                height,
                m.quantize_bits() as nat,
            ),
{
    let bits = m.quantize_bits() as nat;
    let palette = m.palette();
    let cells = ascii_cells(palette, bits, rgb, width, height);
    let rows = shown_rows(cells, width, height);
    law_frame_shows_every_cell(cells, width, height);
    assert(paints(m.converted(rgb, width, height), rows)) by {
        assert(m.converted(rgb, width, height) == text_of(frame_tokens(cells, width, height)));
    }
    assert forall|y: int, x: int|
        #![trigger rows[y][x]]
        0 <= y < height && 0 <= x < width implies {
        &&& colored(rows[y][x].fg, rgb, 3 * (y * width + x), bits)
        &&& rows[y][x].bg is None
        &&& glyph_fits(rows[y][x].glyph, palette, rows[y][x].fg->0)
    } by {
        let i = y * width + x;
        assert(0 <= i < width * height) by (nonlinear_arith)
            requires
                i == y * width + x,
                0 <= y < height,
                0 <= x < width,
        ;
        law_quantized_pixel(rgb, i, bits);
        let q = quantized(pixel(rgb, i), bits);
        law_luma_weights(q);
        lemma_ramp_index_stands(luma_of(q) as int, palette.len() as int);
        assert(stands_for(
            ramp_index(luma_of(q) as int, palette.len() as int),
            palette.len() as int,
            luma_of(q) as int,
        ));
        assert(cells[i] == ascii_cell(palette, bits, pixel(rgb, i)));
    }
    assert(is_ascii_picture(rows, palette, rgb, width, height, bits));
}

proof fn lemma_ramp_index_stands(gray: int, n: int)
    requires
        0 <= gray < 256,
        0 < n,
    ensures
        stands_for(ramp_index(gray, n), n, gray),
{
    let d = bucket(n);
    if n <= 256 {
        assert(256int / n >= 1) by (nonlinear_arith)
            requires
                0 < n <= 256,
        ;
    }
    let k = gray / d;
    assert(0 <= k && k * d <= gray < (k + 1) * d) by (nonlinear_arith)
        requires
            k == gray / d,
            d >= 1,
            0 <= gray,
    ;
    if k > n - 1 {
        assert((n - 1) * d <= k * d) by (nonlinear_arith)
            requires
                n - 1 <= k,
                d >= 1,
        ;
    }
}

/// A palette that is given is used as it is, glyph by glyph; the built-in one only
/// where none is given, or an empty one.
pub proof fn law_given_palette_is_used(p: Seq<char>)
    ensures
        p.len() > 0 ==> active_palette(Some(p)) == p,
        p.len() == 0 ==> active_palette(Some(p)) == active_palette(None),
        active_palette(None)
            == " `.-':_,^=;><+!rc*/\\z?sLTv)J7(|Fi{C}fI31tlu[neoZ5Yxjya]2ESwqkP6h9d4VpOGbUAKXHm8RD#$Bg0MNWQ%&@"@,
{
}

} // verus!
