//! Mapper — dispatch over the available render modes, plus the shared ANSI
//! truecolor helpers every mapper uses.
//!
//! Each render mode lives in its own module (`ascii`, `braille`, `half_block`)
//! and turns one `rgb24` frame into a colored terminal string. This module owns
//! the enum that dispatches between them and the small primitives they share:
//! escape-sequence emission, Rec.601 luma, color quantization and cheap `u8`
//! formatting.

use crate::ascii::AsciiMapper;
use crate::braille::{BrailleMapper, BRAILLE_SUB_H, BRAILLE_SUB_W};
use crate::half_block::{HalfBlockMapper, HALF_SUB_H, HALF_SUB_W};
use crate::screen::{
    cell_tokens, colored, frame_tokens, lemma_text_of_add, lemma_text_of_push, rgb_text, rows_tokens,
    run_tokens, text_of, token_text, Cell, Rgb, Token, RESET,
};
use crate::text::decimal;
use vstd::arithmetic::power2::pow2;
use vstd::prelude::*;

verus! {

/// Active render mode, selected on the CLI.
pub enum Mapper {
    Ascii(AsciiMapper),
    Braille(BrailleMapper),
    HalfBlock(HalfBlockMapper),
}

impl Mapper {
    /// Sub-pixels per cell, across and down.
    pub open spec fn scale(&self) -> (nat, nat) {
        match self {
            Mapper::Ascii(_) => (1, 1),
            Mapper::Braille(_) => (2, 4),
            Mapper::HalfBlock(_) => (1, 2),
        }
    }

    /// How many low bits of each color channel are cleared.
    pub open spec fn quantize_bits(&self) -> u32 {
        match self {
            Mapper::Ascii(m) => m.quantize_bits(),
            Mapper::Braille(m) => m.quantize_bits(),
            Mapper::HalfBlock(m) => m.quantize_bits(),
        }
    }

    /// What `convert` gives for a frame.
    pub open spec fn converted(&self, rgb: Seq<u8>, cell_w: nat, cell_h: nat) -> Seq<char> {
        match self {
            Mapper::Ascii(m) => m.converted(rgb, cell_w, cell_h),
            Mapper::Braille(m) => m.converted(rgb, cell_w, cell_h),
            Mapper::HalfBlock(m) => m.converted(rgb, cell_w, cell_h),
        }
    }

    /// Sub-pixel multipliers (x, y) the decoder must scale to, relative to the
    /// terminal cell grid. ASCII is 1×1; braille is 2×4; half-block is 1×2.
    pub fn subpixel_scale(&self) -> (scale: (usize, usize))
        ensures
            scale.0 == self.scale().0,
            scale.1 == self.scale().1,
    {
        match self {
            Mapper::Ascii(_) => (1, 1),
            Mapper::Braille(_) => (BRAILLE_SUB_W, BRAILLE_SUB_H),
            Mapper::HalfBlock(_) => (HALF_SUB_W, HALF_SUB_H),
        }
    }

    /// How many low bits of each color channel are cleared.
    pub fn masked_bits(&self) -> (bits: u32)
        ensures
            bits == self.quantize_bits(),
    {
        match self {
            Mapper::Ascii(m) => m.masked_bits(),
            Mapper::Braille(m) => m.masked_bits(),
            Mapper::HalfBlock(m) => m.masked_bits(),
        }
    }

    /// Render one frame. `cell_w`/`cell_h` are the terminal cell dimensions;
    /// `rgb` is sized at `cell * subpixel_scale`.
    pub fn convert(&self, rgb: &[u8], cell_w: usize, cell_h: usize) -> (out: String)
        requires
            self.quantize_bits() < 8,
            cell_w * self.scale().0 <= usize::MAX,
            cell_h * self.scale().1 <= usize::MAX,
            rgb@.len() == (cell_w * self.scale().0) * (cell_h * self.scale().1) * 3,
        ensures
            out@ == self.converted(rgb@, cell_w as nat, cell_h as nat),
    {
        match self {
            Mapper::Ascii(m) => {
                assert((cell_w * self.scale().0) * (cell_h * self.scale().1) == cell_w * cell_h)
                    by (nonlinear_arith)
                    requires
                        self.scale().0 == 1,
                        self.scale().1 == 1,
                ;
                m.convert(rgb, cell_w, cell_h)
            },
            Mapper::Braille(m) => m.convert(rgb, cell_w, cell_h),
            Mapper::HalfBlock(m) => m.convert(rgb, cell_w, cell_h),
        }
    }
}

/// The `i`-th pixel of an `rgb24` frame.
pub open spec fn pixel(rgb: Seq<u8>, i: int) -> Rgb {
    Rgb { r: rgb[3 * i], g: rgb[3 * i + 1], b: rgb[3 * i + 2] }
}

/// The `i`-th pixel of an `rgb24` frame.
pub fn pixel_at(rgb: &[u8], i: usize) -> (c: Rgb)
    requires
        3 * i + 3 <= rgb@.len(),
    ensures
        c == pixel(rgb@, i as int),
{
    assert(rgb@.len() == rgb.len());
    let base: usize = i * 3;
    Rgb { r: rgb[base], g: rgb[base + 1], b: rgb[base + 2] }
}

/// Perceptual luma, Rec.601 weights.
pub open spec fn luma_of(c: Rgb) -> u8 {
    ((c.r * 299 + c.g * 587 + c.b * 114) / 1000) as u8
}

/// Perceptual luma (0..=255), Rec.601 weights.
pub fn luma(r: u8, g: u8, b: u8) -> (l: u8)
    ensures
        l == luma_of(Rgb { r, g, b }),
        l as int == (r * 299 + g * 587 + b * 114) / 1000,
{
    ((r as u32 * 299 + g as u32 * 587 + b as u32 * 114) / 1000) as u8
}

/// `v` with its low `bits` bits cleared: the greatest multiple of `2^bits` that
/// is not above it.
pub open spec fn quantized_byte(v: u8, bits: nat) -> u8 {
    (v - v as int % pow2(bits) as int) as u8
}

/// A color with the low `bits` bits of each channel cleared.
pub open spec fn quantized(c: Rgb, bits: nat) -> Rgb {
    Rgb {
        r: quantized_byte(c.r, bits),
        g: quantized_byte(c.g, bits),
        b: quantized_byte(c.b, bits),
    }
}

proof fn lemma_mask(v: u8, bits: u32)
    requires
        bits < 8,
    ensures
        v & (0xFFu8 << bits) == quantized_byte(v, bits as nat),
{
    assert(v & (0xFFu8 << bits) == v - v % (1u8 << bits)) by (bit_vector)
        requires
            bits < 8,
    ;
    assert(1u8 << bits == pow2(bits as nat)) by {
        assert(bits < 8 ==> (1u8 << bits) == (if bits == 0 {
            1u8
        } else if bits == 1 {
            2u8
        } else if bits == 2 {
            4u8
        } else if bits == 3 {
            8u8
        } else if bits == 4 {
            16u8
        } else if bits == 5 {
            32u8
        } else if bits == 6 {
            64u8
        } else {
            128u8
        })) by (bit_vector);
        vstd::arithmetic::power2::lemma2_to64();
    }
}

/// Clears the low `bits` bits of each channel.
pub fn quantize(c: Rgb, bits: u32) -> (q: Rgb)
    requires
        bits < 8,
    ensures
        q == quantized(c, bits as nat),
{
    let mask: u8 = 0xFFu8 << bits;
    proof {
        lemma_mask(c.r, bits);
        lemma_mask(c.g, bits);
        lemma_mask(c.b, bits);
    }
    Rgb { r: c.r & mask, g: c.g & mask, b: c.b & mask }
}

/// Append a u8 in decimal (0..=255) cheaply.
pub fn push_u8(out: &mut String, v: u8)
    ensures
        final(out)@ == old(out)@ + decimal(v as nat),
{
    proof {
        reveal_with_fuel(decimal, 3);
    }
    if v >= 100 {
        out.push((48u8 + v / 100) as char);
        out.push((48u8 + (v / 10) % 10) as char);
        out.push((48u8 + v % 10) as char);
    } else if v >= 10 {
        out.push((48u8 + v / 10) as char);
        out.push((48u8 + v % 10) as char);
    } else {
        out.push((48u8 + v) as char);
    }
    assert(final(out)@ =~= old(out)@ + decimal(v as nat));
}

/// Append `r;g;b`.
fn push_rgb(out: &mut String, c: Rgb)
    ensures
        final(out)@ == old(out)@ + rgb_text(c),
{
    push_u8(out, c.r);
    out.append(";");
    push_u8(out, c.g);
    out.append(";");
    push_u8(out, c.b);
    assert(final(out)@ =~= old(out)@ + rgb_text(c));
}

/// Append `\x1b[38;2;R;G;Bm`.
pub fn push_color_escape(out: &mut String, c: Rgb)
    ensures
        final(out)@ == old(out)@ + token_text(Token::Color(c)),
{
    out.append("\x1b[38;2;");
    push_rgb(out, c);
    out.append("m");
    assert(final(out)@ =~= old(out)@ + token_text(Token::Color(c)));
}

/// Append `\x1b[38;2;Rf;Gf;Bf;48;2;Rb;Gb;Bbm` — foreground + background in one
/// escape, for half-block rendering (top color = fg, bottom color = bg).
pub fn push_fg_bg_escape(out: &mut String, fg: Rgb, bg: Rgb)
    ensures
        final(out)@ == old(out)@ + token_text(Token::ColorPair(fg, bg)),
{
    out.append("\x1b[38;2;");
    push_rgb(out, fg);
    out.append(";48;2;");
    push_rgb(out, bg);
    out.append("m");
    assert(final(out)@ =~= old(out)@ + token_text(Token::ColorPair(fg, bg)));
}

/// Append what paints one cell after a cell of color `prev`: the color, if it is
/// another one, and the glyph.
fn push_cell(out: &mut String, prev: Option<Rgb>, cell: &Cell)
    ensures
        final(out)@ == old(out)@ + text_of(
            if prev == Some(cell.color) {
                seq![Token::Glyph(cell.glyph)]
            } else {
                seq![Token::Color(cell.color), Token::Glyph(cell.glyph)]
            },
        ),
{
    proof {
        reveal_with_fuel(text_of, 3);
        let both = seq![Token::Color(cell.color), Token::Glyph(cell.glyph)];
        assert(both.drop_last() =~= seq![Token::Color(cell.color)]);
        assert(both.drop_last().drop_last() =~= Seq::empty());
        assert(seq![Token::Glyph(cell.glyph)].drop_last() =~= Seq::empty());
    }
    let changed = match prev {
        Some(c) => c != cell.color,
        None => true,
    };
    if changed {
        push_color_escape(out, cell.color);
    }
    out.push(cell.glyph);
    assert(final(out)@ =~= old(out)@ + text_of(
        if prev == Some(cell.color) {
            seq![Token::Glyph(cell.glyph)]
        } else {
            seq![Token::Color(cell.color), Token::Glyph(cell.glyph)]
        },
    ));
}

/// The text of a frame of `height` rows of `width` cells, given in raster order.
/// Rows are joined by `\n`, the frame is wrapped in resets on both ends, and a
/// color escape is sent only where the color changes.
pub fn paint(cells: &[Cell], width: usize, height: usize) -> (out: String)
    requires
        cells@.len() == width * height,
    ensures
        out@ == text_of(frame_tokens(cells@, width as nat, height as nat)),
{
    let ghost start: Seq<Token> = seq![Token::Reset];
    let mut out = String::new();
    out.append(RESET);
    let mut prev: Option<Rgb> = None;
    let mut i: usize = 0;
    proof {
        reveal_with_fuel(text_of, 2);
        assert(start.drop_last() =~= Seq::empty());
        assert(out@ =~= text_of(start));
        assert(start + rows_tokens(cells@, width as nat, 0) =~= start);
        assert(0 * width == 0) by (nonlinear_arith);
    }
    for y in 0..height
        invariant
            cells@.len() == width * height,
            start == seq![Token::Reset],
            i == y * width,
            prev == (if i == 0 {
                None
            } else {
                Some(cells@[i - 1].color)
            }),
            out@ == text_of(start + rows_tokens(cells@, width as nat, y as nat)),
    {
        let ghost mut above: Seq<Token> = rows_tokens(cells@, width as nat, y as nat);
        if y > 0 {
            out.push('\n');
            proof {
                lemma_text_of_push(start + above, Token::Newline);
                assert((start + above).push(Token::Newline) =~= start + above.push(
                    Token::Newline,
                ));
                above = above.push(Token::Newline);
                assert(out@ =~= text_of(start + above));
            }
        }
        assert(start + above + run_tokens(cells@, y * width, 0) =~= start + above);
        assert((y + 1) * width == y * width + width) by (nonlinear_arith);
        assert((y + 1) * width <= width * height) by (nonlinear_arith)
            requires
                y < height,
        ;
        for x in 0..width
            invariant
                cells@.len() == width * height,
                y * width + width <= width * height,
                i == y * width + x,
                prev == (if i == 0 {
                    None
                } else {
                    Some(cells@[i - 1].color)
                }),
                out@ == text_of(start + above + run_tokens(cells@, y * width, x as nat)),
        {
            let cell = &cells[i];
            push_cell(&mut out, prev, cell);
            proof {
                let before = start + above + run_tokens(cells@, y * width, x as nat);
                lemma_text_of_add(before, cell_tokens(cells@, i as int));
                assert(before + cell_tokens(cells@, i as int) =~= start + above + run_tokens(
                    cells@,
                    y * width,
                    (x + 1) as nat,
                ));
            }
            prev = Some(cell.color);
            i = i + 1;
        }
        assert(start + above + run_tokens(cells@, y * width, width as nat) =~= start
            + rows_tokens(cells@, width as nat, (y + 1) as nat));
    }
    out.append(RESET);
    proof {
        lemma_text_of_push(
            start + rows_tokens(cells@, width as nat, height as nat),
            Token::Reset,
        );
    }
    out
}

// ── Laws ────────────────────────────────────────────────────────────────

/// The luma of a gray is that gray.
pub proof fn law_luma_of_gray(v: u8)
    ensures
        luma_of(Rgb { r: v, g: v, b: v }) == v,
{
}

/// A color with no smaller channels has no smaller luma.
pub proof fn law_luma_is_monotone(a: Rgb, b: Rgb)
    requires
        a.r <= b.r,
        a.g <= b.g,
        a.b <= b.b,
    ensures
        luma_of(a) <= luma_of(b),
{
}

/// Quantizing leaves a multiple of the step, at most one step below; doing it
/// again changes nothing, and clearing no bits changes nothing at all.
pub proof fn law_quantize(v: u8, bits: nat)
    ensures
        quantized_byte(v, bits) as int % pow2(bits) as int == 0,
        quantized_byte(v, bits) <= v < quantized_byte(v, bits) + pow2(bits),
        quantized_byte(quantized_byte(v, bits), bits) == quantized_byte(v, bits),
        quantized_byte(v, 0) == v,
{
    let step = pow2(bits) as int;
    vstd::arithmetic::power2::lemma_pow2_pos(bits);
    vstd::arithmetic::power2::lemma2_to64();
    let r = v as int % step;
    assert(0 <= r <= v && r < step) by (nonlinear_arith)
        requires
            r == v as int % step,
            step > 0,
            v >= 0,
    ;
    assert((v - r) % step == 0) by (nonlinear_arith)
        requires
            r == v as int % step,
            step > 0,
    ;
}

/// Colors that clearing fewer bits makes equal, clearing more bits makes equal
/// too.
pub proof fn law_coarser_merges_more(a: Rgb, b: Rgb, fine: nat, coarse: nat)
    requires
        fine <= coarse,
        quantized(a, fine) == quantized(b, fine),
    ensures
        quantized(a, coarse) == quantized(b, coarse),
{
    lemma_coarser_byte(a.r, fine, coarse);
    lemma_coarser_byte(a.g, fine, coarse);
    lemma_coarser_byte(a.b, fine, coarse);
    lemma_coarser_byte(b.r, fine, coarse);
    lemma_coarser_byte(b.g, fine, coarse);
    lemma_coarser_byte(b.b, fine, coarse);
}

proof fn lemma_coarser_byte(v: u8, fine: nat, coarse: nat)
    requires
        fine <= coarse,
    ensures
        quantized_byte(quantized_byte(v, fine), coarse) == quantized_byte(v, coarse),
{
    let s = pow2(fine) as int;
    let k = pow2((coarse - fine) as nat) as int;
    let t = pow2(coarse) as int;
    vstd::arithmetic::power2::lemma_pow2_pos(fine);
    vstd::arithmetic::power2::lemma_pow2_pos(coarse);
    vstd::arithmetic::power2::lemma_pow2_pos((coarse - fine) as nat);
    vstd::arithmetic::power2::lemma_pow2_adds(fine, (coarse - fine) as nat);
    assert(t == s * k);
    law_quantize(v, fine);
    law_quantize(v, coarse);
    let r = v as int % t;
    let q = v as int / t;
    vstd::arithmetic::div_mod::lemma_fundamental_div_mod(v as int, t);
    vstd::arithmetic::div_mod::lemma_mod_mod(v as int, s, k);
    assert(r % s == v as int % s);
    vstd::arithmetic::div_mod::lemma_mod_bound(v as int, t);
    vstd::arithmetic::div_mod::lemma_mod_bound(r, s);
    assert(r % s <= r) by (nonlinear_arith)
        requires
            0 <= r,
            s > 0,
    ;
    vstd::arithmetic::div_mod::lemma_fundamental_div_mod_converse(
        quantized_byte(v, fine) as int,
        t,
        q,
        r - r % s,
    );
}

/// Whether `gray` is the Rec.601 luma of three channels, rounded down.
pub open spec fn has_luma(r: u8, g: u8, b: u8, gray: int) -> bool {
    1000 * gray <= 299 * r + 587 * g + 114 * b < 1000 * gray + 1000
}

/// The luma weighs red by 0.299, green by 0.587 and blue by 0.114.
pub proof fn law_luma_weights(c: Rgb)
    ensures
        has_luma(c.r, c.g, c.b, luma_of(c) as int),
{
}

/// A pixel is three bytes, red first, and quantizing it clears the low bits of
/// each.
pub proof fn law_quantized_pixel(rgb: Seq<u8>, i: int, bits: nat)
    ensures
        pixel(rgb, i) == (Rgb { r: rgb[3 * i], g: rgb[3 * i + 1], b: rgb[3 * i + 2] }),
        colored(Some(quantized(pixel(rgb, i), bits)), rgb, 3 * i, bits),
{
    law_quantize(rgb[3 * i], bits);
    law_quantize(rgb[3 * i + 1], bits);
    law_quantize(rgb[3 * i + 2], bits);
}

/// Each mode does what its own mapper does, at its own resolution: one, eight or
/// two pixels in a cell.
pub proof fn law_modes_keep_apart(
    a: AsciiMapper,
    b: BrailleMapper,
    h: HalfBlockMapper,
    rgb: Seq<u8>,
    cell_w: nat,
    cell_h: nat,
)
    ensures
        Mapper::Ascii(a).converted(rgb, cell_w, cell_h) == a.converted(rgb, cell_w, cell_h),
        Mapper::Braille(b).converted(rgb, cell_w, cell_h) == b.converted(rgb, cell_w, cell_h),
        Mapper::HalfBlock(h).converted(rgb, cell_w, cell_h) == h.converted(rgb, cell_w, cell_h),
        Mapper::Ascii(a).scale() == (1nat, 1nat),
        Mapper::Braille(b).scale() == (2nat, 4nat),
        Mapper::HalfBlock(h).scale() == (1nat, 2nat),
        Mapper::Ascii(a).quantize_bits() == a.quantize_bits(),
        Mapper::Braille(b).quantize_bits() == b.quantize_bits(),
        Mapper::HalfBlock(h).quantize_bits() == h.quantize_bits(),
{
}

} // verus!
