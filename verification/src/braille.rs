//! BrailleMapper — 2×4 sub-pixel rendering via Unicode braille (U+2800..28FF).
//!
//! Each terminal cell becomes a 2×4 grid of dots. A dot is "on" when its source
//! sub-pixel's luma clears a threshold, or when error diffusion over the whole
//! frame says so; the cell is colored by the average color of its lit dots (or
//! all dots, if none are lit).
//!
//! Braille dot -> bit layout:
//!
//!     col0 col1
//!   ┌──────────
//!   │  d0   d3      bits: 0x01  0x08
//!   │  d1   d4            0x02  0x10
//!   │  d2   d5            0x04  0x20
//!   │  d6   d7            0x40  0x80

use crate::mapper::{
    has_luma, law_coarser_merges_more, law_luma_weights, law_quantize, law_quantized_pixel, luma,
    luma_of, paint, pixel, pixel_at, quantize, quantized, quantized_byte,
};
use crate::screen::{
    color_count, frame_tokens, keeps_high_bits, law_color_sent_only_on_change,
    law_frame_shows_every_cell, lemma_fewer_color_changes, paints, shown_rows, text_of, Cell, Rgb,
    Shown,
};
use vstd::arithmetic::div_mod::lemma_fundamental_div_mod_converse;
use vstd::prelude::*;

verus! {

/// Width of the sub-pixel block per terminal cell.
pub const BRAILLE_SUB_W: usize = 2;

/// Height of the sub-pixel block per terminal cell.
pub const BRAILLE_SUB_H: usize = 4;

const BRAILLE_BASE: u32 = 0x2800;

// ── Deciding the dots ───────────────────────────────────────────────────

/// The dots of a hard threshold: lit iff the sub-pixel's luma is at least
/// `threshold`.
pub open spec fn threshold_dots(rgb: Seq<u8>, n: nat, threshold: u8) -> Seq<bool> {
    Seq::new(n, |i: int| luma_of(pixel(rgb, i)) >= threshold)
}

/// Hard-threshold every sub-pixel: dot lit iff its luma ≥ `threshold`.
pub fn threshold_plane(rgb: &[u8], w: usize, h: usize, threshold: u8) -> (on: Vec<bool>)
    requires
        rgb@.len() == w * h * 3,
    ensures
        on@ == threshold_dots(rgb@, (w * h) as nat, threshold),
{
    assert(rgb@.len() == rgb.len());
    assert(w * h <= w * h * 3 && w * h >= 0) by (nonlinear_arith);
    let n: usize = w * h;
    let mut on: Vec<bool> = Vec::new();
    for i in 0..n
        invariant
            n == w * h,
            rgb@.len() == n * 3,
            on@ == threshold_dots(rgb@, i as nat, threshold),
    {
        let c = pixel_at(rgb, i);
        on.push(luma(c.r, c.g, c.b) >= threshold);
    }
    on
}

/// `weight` sixteenths of an error, rounded toward zero.
pub open spec fn share(error: int, weight: int) -> int {
    if error >= 0 {
        error * weight / 16
    } else {
        -((-error) * weight / 16)
    }
}

/// The level of the `k`-th sub-pixel in raster order once the errors of the
/// sub-pixels before it have reached it: 7/16 from the left, 3/16 from above
/// right, 5/16 from above and 1/16 from above left.
pub open spec fn level(rgb: Seq<u8>, w: int, threshold: u8, k: int) -> int
    decreases k, 0int,
{
    if k < 0 || w <= 0 {
        0
    } else {
        let x = k % w;
        luma_of(pixel(rgb, k)) + (if x > 0 && k >= 1 {
            share(error(rgb, w, threshold, k - 1), 7)
        } else {
            0
        }) + (if k >= w && x + 1 < w && w > 1 {
            share(error(rgb, w, threshold, k - w + 1), 3)
        } else {
            0
        }) + (if k >= w {
            share(error(rgb, w, threshold, k - w), 5)
        } else {
            0
        }) + (if k >= w + 1 && x > 0 {
            share(error(rgb, w, threshold, k - w - 1), 1)
        } else {
            0
        })
    }
}

/// What is lost when the `k`-th sub-pixel is rounded to white (255) at or above
/// the threshold, and to black (0) below it.
pub open spec fn error(rgb: Seq<u8>, w: int, threshold: u8, k: int) -> int
    decreases k, 1int,
{
    if k < 0 {
        0
    } else {
        let v = level(rgb, w, threshold, k);
        if v >= threshold {
            v - 255
        } else {
            v
        }
    }
}

/// The dots of a Floyd–Steinberg dither over the whole frame.
pub open spec fn dithered_dots(rgb: Seq<u8>, w: int, n: nat, threshold: u8) -> Seq<bool> {
    Seq::new(n, |k: int| level(rgb, w, threshold, k) >= threshold)
}

/// A share is no larger than its part of the error.
proof fn lemma_share_bound(e: int, weight: int)
    requires
        -255 <= e <= 255,
        0 <= weight <= 7,
    ensures
        16 * share(e, weight) <= 255 * weight,
        16 * share(e, weight) >= -255 * weight,
{
    assert(e >= 0 ==> 0 <= e * weight <= 255 * weight) by (nonlinear_arith)
        requires
            e <= 255,
            0 <= weight,
    ;
    assert(e < 0 ==> 0 <= (-e) * weight <= 255 * weight) by (nonlinear_arith)
        requires
            -255 <= e,
            0 <= weight,
    ;
}

/// Diffused errors stay within one byte's range, so levels stay within
/// -255..=510.
pub proof fn law_errors_stay_bounded(rgb: Seq<u8>, w: int, threshold: u8, k: int)
    ensures
        -255 <= error(rgb, w, threshold, k) <= 255,
        -255 <= level(rgb, w, threshold, k) <= 510,
    decreases k,
{
    if k >= 0 && w > 0 {
        if k >= 1 {
            law_errors_stay_bounded(rgb, w, threshold, k - 1);
            lemma_share_bound(error(rgb, w, threshold, k - 1), 7);
        }
        if k >= w {
            if w > 1 {
                law_errors_stay_bounded(rgb, w, threshold, k - w + 1);
                lemma_share_bound(error(rgb, w, threshold, k - w + 1), 3);
            }
            law_errors_stay_bounded(rgb, w, threshold, k - w);
            lemma_share_bound(error(rgb, w, threshold, k - w), 5);
        }
        if k >= w + 1 {
            law_errors_stay_bounded(rgb, w, threshold, k - w - 1);
            lemma_share_bound(error(rgb, w, threshold, k - w - 1), 1);
        }
        assert(luma_of(pixel(rgb, k)) <= 255);
    }
}

/// The level of the `k`-th sub-pixel while only the first `done` sub-pixels have
/// handed on their error.
spec fn received(rgb: Seq<u8>, w: int, threshold: u8, k: int, done: int) -> int {
    let x = k % w;
    luma_of(pixel(rgb, k)) + (if x > 0 && k - 1 < done {
        share(error(rgb, w, threshold, k - 1), 7)
    } else {
        0
    }) + (if k >= w && x + 1 < w && k - w + 1 < done {
        share(error(rgb, w, threshold, k - w + 1), 3)
    } else {
        0
    }) + (if k >= w && k - w < done {
        share(error(rgb, w, threshold, k - w), 5)
    } else {
        0
    }) + (if k >= w + 1 && x > 0 && k - w - 1 < done {
        share(error(rgb, w, threshold, k - w - 1), 1)
    } else {
        0
    })
}

/// A sub-pixel that is partway to its level stays within the same range.
proof fn lemma_received_bound(rgb: Seq<u8>, w: int, threshold: u8, k: int, done: int)
    requires
        0 < w,
        0 <= k,
    ensures
        -255 <= received(rgb, w, threshold, k, done) <= 510,
{
    law_errors_stay_bounded(rgb, w, threshold, k - 1);
    lemma_share_bound(error(rgb, w, threshold, k - 1), 7);
    law_errors_stay_bounded(rgb, w, threshold, k - w + 1);
    lemma_share_bound(error(rgb, w, threshold, k - w + 1), 3);
    law_errors_stay_bounded(rgb, w, threshold, k - w);
    lemma_share_bound(error(rgb, w, threshold, k - w), 5);
    law_errors_stay_bounded(rgb, w, threshold, k - w - 1);
    lemma_share_bound(error(rgb, w, threshold, k - w - 1), 1);
}

/// The column of a sub-pixel given by its row and column.
proof fn lemma_column(k: int, w: int, x: int, y: int)
    requires
        k == y * w + x,
        0 <= x < w,
    ensures
        k % w == x,
{
    lemma_fundamental_div_mod_converse(k, w, y, x);
}

/// The columns of the four sub-pixels that take a share of the error of the one
/// at column `x` of row `y`, and which of them the frame has.
proof fn lemma_neighbours(w: int, h: int, x: int, y: int)
    requires
        0 <= x < w,
        0 <= y < h,
    ensures
        ({
            let k = y * w + x;
            &&& 0 <= k < w * h
            &&& k % w == x
            &&& (k + 1) % w == (if x + 1 < w {
                x + 1
            } else {
                0
            })
            &&& (k + w - 1) % w == (if x > 0 {
                x - 1
            } else {
                w - 1
            })
            &&& (k + w) % w == x
            &&& (k + w + 1) % w == (if x + 1 < w {
                x + 1
            } else {
                0
            })
            &&& x + 1 < w ==> k + 1 < w * h
            &&& y + 1 < h ==> k + w < w * h
            &&& y + 1 < h && x + 1 < w ==> k + w + 1 < w * h
            &&& y + 1 >= h ==> k + w >= w * h
            &&& y + 1 >= h && x > 0 ==> k + w - 1 >= w * h
        }),
{
    let k = y * w + x;
    assert(w * h == h * w) by (nonlinear_arith);
    assert((y + 1) * w == y * w + w) by (nonlinear_arith);
    assert((y + 2) * w == y * w + w + w) by (nonlinear_arith);
    assert((y + 1) * w <= h * w) by (nonlinear_arith)
        requires
            y + 1 <= h,
            0 < w,
    ;
    assert(0 <= y * w) by (nonlinear_arith)
        requires
            0 <= y,
            0 < w,
    ;
    if y + 1 < h {
        assert((y + 2) * w <= h * w) by (nonlinear_arith)
            requires
                y + 2 <= h,
                0 < w,
        ;
    } else {
        assert(y + 1 == h);
    }
    lemma_column(k, w, x, y);
    if x + 1 < w {
        lemma_column(k + 1, w, x + 1, y);
        lemma_column(k + w + 1, w, x + 1, y + 1);
    } else {
        lemma_column(k + 1, w, 0, y + 1);
        lemma_column(k + w + 1, w, 0, y + 2);
    }
    if x > 0 {
        lemma_column(k + w - 1, w, x - 1, y + 1);
    } else {
        lemma_column(k + w - 1, w, w - 1, y);
    }
    lemma_column(k + w, w, x, y + 1);
}

/// What the `k`-th sub-pixel takes of the error `err` of the one at column `x` of
/// row `y`.
spec fn taken(w: int, h: int, x: int, y: int, err: int, k: int) -> int {
    let idx = y * w + x;
    (if x + 1 < w && k == idx + 1 {
        share(err, 7)
    } else {
        0
    }) + (if y + 1 < h && x > 0 && k == idx + w - 1 {
        share(err, 3)
    } else {
        0
    }) + (if y + 1 < h && k == idx + w {
        share(err, 5)
    } else {
        0
    }) + (if y + 1 < h && x + 1 < w && k == idx + w + 1 {
        share(err, 1)
    } else {
        0
    })
}

/// Once one sub-pixel more has handed on its error, its neighbours have taken
/// their share of it.
proof fn lemma_received_step(
    rgb: Seq<u8>,
    w: int,
    h: int,
    threshold: u8,
    x: int,
    y: int,
    k: int,
)
    requires
        0 <= x < w,
        0 <= y < h,
        y * w + x < k < w * h,
    ensures
        received(rgb, w, threshold, k, y * w + x + 1) == received(
            rgb,
            w,
            threshold,
            k,
            y * w + x,
        ) + taken(w, h, x, y, error(rgb, w, threshold, y * w + x), k),
{
    lemma_neighbours(w, h, x, y);
}

/// Hands `err`, the error of the sub-pixel at column `x` of row `y`, on to its
/// not yet visited neighbours.
fn diffuse(buf: &mut Vec<i32>, w: usize, h: usize, x: usize, y: usize, idx: usize, err: i32)
    requires
        x < w,
        y < h,
        idx == y * w + x,
        old(buf)@.len() == w * h,
        -255 <= err <= 255,
        forall|k: int| idx < k < w * h ==> -255 <= #[trigger] old(buf)@[k] <= 510,
    ensures
        final(buf)@.len() == w * h,
        forall|k: int|
            idx < k < w * h ==> #[trigger] final(buf)@[k] == old(buf)@[k] + taken(
                w as int,
                h as int,
                x as int,
                y as int,
                err as int,
                k,
            ),
{
    proof {
        lemma_neighbours(w as int, h as int, x as int, y as int);
        lemma_share_bound(err as int, 7);
        lemma_share_bound(err as int, 3);
        lemma_share_bound(err as int, 5);
        lemma_share_bound(err as int, 1);
    }
    assert(buf@.len() == buf.len());
    if x + 1 < w {
        buf[idx + 1] = buf[idx + 1] + err * 7 / 16;
    }
    if y + 1 < h {
        if x > 0 {
            buf[idx + w - 1] = buf[idx + w - 1] + err * 3 / 16;
        }
        buf[idx + w] = buf[idx + w] + err * 5 / 16;
        if x + 1 < w {
            buf[idx + w + 1] = buf[idx + w + 1] + err / 16;
        }
    }
}

/// Floyd–Steinberg dither the luma plane into a 1-bit on/off mask.
///
/// Each pixel is rounded to black or white; the quantization error is pushed to
/// neighbours with the classic 7/16, 3/16, 5/16, 1/16 weights. `threshold` sets
/// where the black/white split lands.
pub fn dither_plane(rgb: &[u8], w: usize, h: usize, threshold: u8) -> (on: Vec<bool>)
    requires
        rgb@.len() == w * h * 3,
    ensures
        on@ == dithered_dots(rgb@, w as int, (w * h) as nat, threshold),
{
    assert(rgb@.len() == rgb.len());
    assert(w * h <= w * h * 3 && w * h >= 0) by (nonlinear_arith);
    let n: usize = w * h;
    // Work in i32 so diffused error can push values past 0..255.
    let mut buf: Vec<i32> = Vec::new();
    for i in 0..n
        invariant
            n == w * h,
            rgb@.len() == n * 3,
            buf@.len() == i,
            forall|k: int| 0 <= k < i ==> #[trigger] buf@[k] == luma_of(pixel(rgb@, k)),
    {
        let c = pixel_at(rgb, i);
        buf.push(luma(c.r, c.g, c.b) as i32);
    }

    let t: i32 = threshold as i32;
    let mut on: Vec<bool> = Vec::new();
    let mut idx: usize = 0;
    assert(0 * w == 0) by (nonlinear_arith);
    for y in 0..h
        invariant
            n == w * h,
            t == threshold,
            idx == y * w,
            buf@.len() == n,
            on@ == dithered_dots(rgb@, w as int, idx as nat, threshold),
            w > 0 ==> forall|k: int|
                idx <= k < n ==> #[trigger] buf@[k] == received(
                    rgb@,
                    w as int,
                    threshold,
                    k,
                    idx as int,
                ),
    {
        for x in 0..w
            invariant
                n == w * h,
                t == threshold,
                0 <= y < h,
                idx == y * w + x,
                buf@.len() == n,
                on@ == dithered_dots(rgb@, w as int, idx as nat, threshold),
                w > 0 ==> forall|k: int|
                    idx <= k < n ==> #[trigger] buf@[k] == received(
                        rgb@,
                        w as int,
                        threshold,
                        k,
                        idx as int,
                    ),
        {
            proof {
                lemma_neighbours(w as int, h as int, x as int, y as int);
                law_errors_stay_bounded(rgb@, w as int, threshold, idx as int);
            }
            let ghost before = buf@;
            let old: i32 = buf[idx];
            assert(old == level(rgb@, w as int, threshold, idx as int));
            let lit = old >= t;
            on.push(lit);
            // Quantize to the extreme we picked, error = what we discarded.
            let new: i32 = if lit {
                255
            } else {
                0
            };
            let err: i32 = old - new;
            assert(err == error(rgb@, w as int, threshold, idx as int));
            assert forall|k: int| idx < k < n implies -255 <= #[trigger] before[k] <= 510 by {
                lemma_received_bound(rgb@, w as int, threshold, k, idx as int);
            }
            diffuse(&mut buf, w, h, x, y, idx, err);
            assert forall|k: int| idx + 1 <= k < n implies #[trigger] buf@[k] == received(
                rgb@,
                w as int,
                threshold,
                k,
                idx + 1,
            ) by {
                assert(before[k] == received(rgb@, w as int, threshold, k, idx as int));
                lemma_received_step(
                    rgb@,
                    w as int,
                    h as int,
                    threshold,
                    x as int,
                    y as int,
                    k,
                );
            }
            idx = idx + 1;
            assert(on@ =~= dithered_dots(rgb@, w as int, idx as nat, threshold));
        }
        assert((y + 1) * w == y * w + w) by (nonlinear_arith);
    }
    assert(h * w == w * h) by (nonlinear_arith);
    on
}

// ── From dots to cells ──────────────────────────────────────────────────

/// The bit of the dot at column `dx` and row `dy` of a cell.
pub open spec fn dot_value(dx: int, dy: int) -> u32 {
    if dx == 0 {
        if dy == 0 {
            0x01
        } else if dy == 1 {
            0x02
        } else if dy == 2 {
            0x04
        } else {
            0x40
        }
    } else {
        if dy == 0 {
            0x08
        } else if dy == 1 {
            0x10
        } else if dy == 2 {
            0x20
        } else {
            0x80
        }
    }
}

/// Map a sub-pixel position within a 2×4 block to its braille dot bit.
pub fn dot_bit(dx: usize, dy: usize) -> (bit: u32)
    requires
        dx < 2,
        dy < 4,
    ensures
        bit == dot_value(dx as int, dy as int),
{
    assert(1u32 << 0 == 1u32 && 1u32 << 1 == 2u32 && 1u32 << 2 == 4u32 && 1u32 << 3 == 8u32 && 1u32
        << 4 == 16u32 && 1u32 << 5 == 32u32 && 0x40u32 << 0 == 0x40u32 && 0x40u32 << 1 == 0x80u32)
        by (bit_vector);
    if dy < 3 {
        1u32 << (dy + 3 * dx)
    } else {
        0x40u32 << dx
    }
}

/// One dot of a cell: the color of its sub-pixel, and whether it is lit.
pub struct Dot {
    pub color: Rgb,
    pub lit: bool,
}

/// Where the `d`-th dot of the `i`-th cell stands in the raster of sub-pixels.
/// A cell's dots are counted down the left column, then down the right one.
pub open spec fn dot_index(cell_w: int, i: int, d: int) -> int {
    (i / cell_w * 4 + d % 4) * (cell_w * 2) + (i % cell_w * 2 + d / 4)
}

/// The eight dots of the `i`-th cell.
pub open spec fn block(rgb: Seq<u8>, on: Seq<bool>, cell_w: int, i: int) -> Seq<Dot> {
    Seq::new(
        8,
        |d: int|
            Dot {
                color: pixel(rgb, dot_index(cell_w, i, d)),
                lit: on[dot_index(cell_w, i, d)],
            },
    )
}

/// The bits of the lit ones among the first `n` dots.
pub open spec fn dot_bits(dots: Seq<Dot>, n: nat) -> u32
    decreases n,
{
    if n == 0 {
        0
    } else if dots[n - 1].lit {
        dot_bits(dots, (n - 1) as nat) | dot_value((n - 1) / 4, (n - 1) % 4)
    } else {
        dot_bits(dots, (n - 1) as nat)
    }
}

/// The number of lit ones among the first `n` dots.
pub open spec fn lit_count(dots: Seq<Dot>, n: nat) -> nat
    decreases n,
{
    if n == 0 {
        0
    } else {
        lit_count(dots, (n - 1) as nat) + (if dots[n - 1].lit {
            1nat
        } else {
            0nat
        })
    }
}

/// A color's channel: red, green or blue.
pub open spec fn channel(c: Rgb, k: int) -> u8 {
    if k == 0 {
        c.r
    } else if k == 1 {
        c.g
    } else {
        c.b
    }
}

/// The sum of one channel over the first `n` dots: over the lit ones, or over
/// all of them.
pub open spec fn channel_sum(dots: Seq<Dot>, k: int, lit_only: bool, n: nat) -> nat
    decreases n,
{
    if n == 0 {
        0
    } else {
        channel_sum(dots, k, lit_only, (n - 1) as nat) + (if dots[n - 1].lit || !lit_only {
            channel(dots[n - 1].color, k) as nat
        } else {
            0nat
        })
    }
}

/// The average of one channel: over the lit dots, or over all eight if none is
/// lit.
pub open spec fn channel_average(dots: Seq<Dot>, k: int) -> u8 {
    if lit_count(dots, 8) > 0 {
        (channel_sum(dots, k, true, 8) / lit_count(dots, 8)) as u8
    } else {
        (channel_sum(dots, k, false, 8) / 8) as u8
    }
}

/// The average color of a cell's lit dots, or of all its dots if none is lit.
pub open spec fn block_color(dots: Seq<Dot>) -> Rgb {
    Rgb {
        r: channel_average(dots, 0),
        g: channel_average(dots, 1),
        b: channel_average(dots, 2),
    }
}

/// A cell's braille character and color.
pub open spec fn braille_cell(dots: Seq<Dot>, quantize_bits: nat) -> Cell {
    Cell {
        color: quantized(block_color(dots), quantize_bits),
        glyph: (0x2800 + dot_bits(dots, 8)) as char,
    }
}

/// Dot bits are within one byte.
proof fn lemma_dot_bits_fit(dots: Seq<Dot>, n: nat)
    ensures
        dot_bits(dots, n) <= 0xFF,
    decreases n,
{
    if n > 0 {
        lemma_dot_bits_fit(dots, (n - 1) as nat);
        let a = dot_bits(dots, (n - 1) as nat);
        let b = dot_value((n - 1) / 4, (n - 1) % 4);
        assert(a <= 0xFF && b <= 0xFF ==> a | b <= 0xFF) by (bit_vector);
    }
}

/// A channel's sum is at most 255 for each dot that it counts.
proof fn lemma_channel_sum_bound(dots: Seq<Dot>, k: int, n: nat)
    ensures
        channel_sum(dots, k, true, n) <= 255 * lit_count(dots, n),
        channel_sum(dots, k, false, n) <= 255 * n,
        lit_count(dots, n) <= n,
    decreases n,
{
    if n > 0 {
        lemma_channel_sum_bound(dots, k, (n - 1) as nat);
    }
}

/// An average of bytes is a byte.
proof fn lemma_average_fits(sum: nat, count: nat)
    requires
        count > 0,
        sum <= 255 * count,
    ensures
        sum / count <= 255,
{
    assert(sum / count <= 255) by (nonlinear_arith)
        requires
            count > 0,
            sum <= 255 * count,
    ;
}

/// A cell's dots lie within the frame.
proof fn lemma_dot_index(cell_w: int, cell_h: int, cx: int, cy: int, d: int)
    requires
        0 <= cx < cell_w,
        0 <= cy < cell_h,
        0 <= d < 8,
    ensures
        (cy * cell_w + cx) % cell_w == cx,
        (cy * cell_w + cx) / cell_w == cy,
        0 <= (cy * 4 + d % 4) * (cell_w * 2),
        dot_index(cell_w, cy * cell_w + cx, d) == (cy * 4 + d % 4) * (cell_w * 2) + (cx * 2 + d
            / 4),
        0 <= dot_index(cell_w, cy * cell_w + cx, d) < cell_w * 2 * (cell_h * 4),
{
    lemma_fundamental_div_mod_converse(cy * cell_w + cx, cell_w, cy, cx);
    let row = cy * 4 + d % 4;
    let sub_w = cell_w * 2;
    assert(0 <= row * sub_w) by (nonlinear_arith)
        requires
            0 <= row,
            0 <= sub_w,
    ;
    assert((row + 1) * sub_w == row * sub_w + sub_w) by (nonlinear_arith);
    assert((row + 1) * sub_w <= (cell_h * 4) * sub_w) by (nonlinear_arith)
        requires
            row + 1 <= cell_h * 4,
            0 <= sub_w,
    ;
    assert((cell_h * 4) * sub_w == sub_w * (cell_h * 4)) by (nonlinear_arith);
}

/// The cell at column `cx` of row `cy`.
fn cell_at(
    rgb: &[u8],
    on: &Vec<bool>,
    cell_w: usize,
    cell_h: usize,
    cx: usize,
    cy: usize,
    quantize_bits: u32,
) -> (cell: Cell)
    requires
        cx < cell_w,
        cy < cell_h,
        quantize_bits < 8,
        on@.len() == cell_w * 2 * (cell_h * 4),
        rgb@.len() == on@.len() * 3,
    ensures
        cell == braille_cell(
            block(rgb@, on@, cell_w as int, cy * cell_w + cx),
            quantize_bits as nat,
        ),
{
    let ghost i = cy * cell_w + cx;
    let ghost dots = block(rgb@, on@, cell_w as int, i);
    assert(on@.len() == on.len());
    proof {
        lemma_dot_index(cell_w as int, cell_h as int, cx as int, cy as int, 7);
        assert(cell_w * 2 <= cell_w * 2 * (cell_h * 4)) by (nonlinear_arith)
            requires
                cell_h >= 1,
        ;
        assert(cy * 4 + 3 <= (cy * 4 + 3) * (cell_w * 2)) by (nonlinear_arith)
            requires
                cell_w >= 1,
        ;
    }
    let mut bits: u32 = 0;
    // Accumulate color of lit dots, and of all dots as a fallback.
    let mut lr: u32 = 0;
    let mut lg: u32 = 0;
    let mut lb: u32 = 0;
    let mut lit: u32 = 0;
    let mut ar: u32 = 0;
    let mut ag: u32 = 0;
    let mut ab: u32 = 0;
    let mut d: usize = 0;
    while d < 8
        invariant
            d <= 8,
            cx < cell_w,
            cy < cell_h,
            i == cy * cell_w + cx,
            dots == block(rgb@, on@, cell_w as int, i),
            cell_w * 2 <= usize::MAX,
            cy * 4 + 3 <= usize::MAX,
            on@.len() <= usize::MAX,
            on@.len() == cell_w * 2 * (cell_h * 4),
            rgb@.len() == on@.len() * 3,
            bits == dot_bits(dots, d as nat),
            lit == lit_count(dots, d as nat),
            lr == channel_sum(dots, 0, true, d as nat),
            lg == channel_sum(dots, 1, true, d as nat),
            lb == channel_sum(dots, 2, true, d as nat),
            ar == channel_sum(dots, 0, false, d as nat),
            ag == channel_sum(dots, 1, false, d as nat),
            ab == channel_sum(dots, 2, false, d as nat),
        decreases 8 - d,
    {
        let dx: usize = d / 4;
        let dy: usize = d % 4;
        proof {
            lemma_dot_index(cell_w as int, cell_h as int, cx as int, cy as int, d as int);
            lemma_channel_sum_bound(dots, 0, d as nat);
            lemma_channel_sum_bound(dots, 1, d as nat);
            lemma_channel_sum_bound(dots, 2, d as nat);
        }
        let sub: usize = (cy * BRAILLE_SUB_H + dy) * (cell_w * BRAILLE_SUB_W) + (cx * BRAILLE_SUB_W
            + dx);
        assert(sub == dot_index(cell_w as int, i, d as int));
        let c = pixel_at(rgb, sub);
        ar = ar + c.r as u32;
        ag = ag + c.g as u32;
        ab = ab + c.b as u32;
        if on[sub] {
            bits = bits | dot_bit(dx, dy);
            lr = lr + c.r as u32;
            lg = lg + c.g as u32;
            lb = lb + c.b as u32;
            lit = lit + 1;
        }
        d = d + 1;
    }
    proof {
        lemma_channel_sum_bound(dots, 0, 8);
        lemma_channel_sum_bound(dots, 1, 8);
        lemma_channel_sum_bound(dots, 2, 8);
        lemma_dot_bits_fit(dots, 8);
        if lit > 0 {
            lemma_average_fits(lr as nat, lit as nat);
            lemma_average_fits(lg as nat, lit as nat);
            lemma_average_fits(lb as nat, lit as nat);
        }
    }
    // Color = average of lit dots; if none lit, average of all 8.
    let color = if lit > 0 {
        Rgb { r: (lr / lit) as u8, g: (lg / lit) as u8, b: (lb / lit) as u8 }
    } else {
        Rgb { r: (ar / 8) as u8, g: (ag / 8) as u8, b: (ab / 8) as u8 }
    };
    let glyph = char::from_u32(BRAILLE_BASE + bits).unwrap();
    Cell { color: quantize(color, quantize_bits), glyph }
}

// ── The mapper ──────────────────────────────────────────────────────────

/// The dots that a frame lights.
pub open spec fn frame_dots(rgb: Seq<u8>, w: nat, h: nat, threshold: u8, dither: bool) -> Seq<
    bool,
> {
    if dither {
        dithered_dots(rgb, w as int, w * h, threshold)
    } else {
        threshold_dots(rgb, w * h, threshold)
    }
}

/// The cells of a frame of `cell_w × cell_h` cells, in raster order.
pub open spec fn braille_cells(
    rgb: Seq<u8>,
    on: Seq<bool>,
    cell_w: nat,
    cell_h: nat,
    quantize_bits: nat,
) -> Seq<Cell> {
    Seq::new(
        cell_w * cell_h,
        |i: int| braille_cell(block(rgb, on, cell_w as int, i), quantize_bits),
    )
}

pub struct BrailleMapper {
    /// Luma threshold (0..=255); sub-pixels at/above this turn their dot on.
    threshold: u8,
    /// When true, use Floyd–Steinberg error diffusion over the whole frame's
    /// luma plane to decide dots, instead of a hard per-dot threshold.
    dither: bool,
    quantize_bits: u32,
}

impl BrailleMapper {
    /// The luma that lights a dot.
    pub closed spec fn threshold(&self) -> u8 {
        self.threshold
    }

    /// Whether dots are decided by error diffusion.
    pub closed spec fn dither(&self) -> bool {
        self.dither
    }

    /// How many low bits of each color channel are cleared.
    pub closed spec fn quantize_bits(&self) -> u32 {
        self.quantize_bits
    }

    pub fn new(threshold: u8, dither: bool, quantize_bits: u32) -> (m: BrailleMapper)
        ensures
            m.threshold() == threshold,
            m.dither() == dither,
            m.quantize_bits() == quantize_bits,
    {
        BrailleMapper { threshold, dither, quantize_bits }
    }

    /// The luma that lights a dot.
    pub fn cutoff(&self) -> (t: u8)
        ensures
            t == self.threshold(),
    {
        self.threshold
    }

    /// Whether dots are decided by error diffusion.
    pub fn dithers(&self) -> (d: bool)
        ensures
            d == self.dither(),
    {
        self.dither
    }

    /// How many low bits of each color channel are cleared.
    pub fn masked_bits(&self) -> (bits: u32)
        ensures
            bits == self.quantize_bits(),
    {
        self.quantize_bits
    }

    /// What `convert` gives for a frame.
    pub open spec fn converted(&self, rgb: Seq<u8>, cell_w: nat, cell_h: nat) -> Seq<char> {
        let on = frame_dots(rgb, cell_w * 2, cell_h * 4, self.threshold(), self.dither());
        text_of(
            frame_tokens(
                braille_cells(rgb, on, cell_w, cell_h, self.quantize_bits() as nat),
                cell_w,
                cell_h,
            ),
        )
    }

    /// Convert one `rgb24` frame sized at the *sub-pixel* resolution
    /// (`cell_w*2` wide, `cell_h*4` tall) into a braille string of
    /// `cell_w × cell_h` characters.
    pub fn convert(&self, rgb: &[u8], cell_w: usize, cell_h: usize) -> (out: String)
        requires
            self.quantize_bits() < 8,
            cell_w * 2 <= usize::MAX,
            cell_h * 4 <= usize::MAX,
            rgb@.len() == (cell_w * 2) * (cell_h * 4) * 3,
        ensures
            out@ == self.converted(rgb@, cell_w as nat, cell_h as nat),
    {
        let sub_w: usize = cell_w * BRAILLE_SUB_W;
        let sub_h: usize = cell_h * BRAILLE_SUB_H;
        assert(rgb@.len() == sub_w * sub_h * 3);
        // Decide every dot up front. With dithering this is a frame-wide pass
        // (error diffusion crosses cell boundaries).
        let on = if self.dither {
            dither_plane(rgb, sub_w, sub_h, self.threshold)
        } else {
            threshold_plane(rgb, sub_w, sub_h, self.threshold)
        };
        let ghost want = braille_cells(
            rgb@,
            on@,
            cell_w as nat,
            cell_h as nat,
            self.quantize_bits as nat,
        );
        let mut cells: Vec<Cell> = Vec::new();
        let ghost mut i: int = 0;
        assert(0 * cell_w == 0) by (nonlinear_arith);
        for cy in 0..cell_h
            invariant
                self.quantize_bits < 8,
                on@.len() == cell_w * 2 * (cell_h * 4),
                rgb@.len() == on@.len() * 3,
                want == braille_cells(
                    rgb@,
                    on@,
                    cell_w as nat,
                    cell_h as nat,
                    self.quantize_bits as nat,
                ),
                i == cy * cell_w,
                cells@ == want.take(i),
        {
            assert((cy + 1) * cell_w == cy * cell_w + cell_w) by (nonlinear_arith);
            assert((cy + 1) * cell_w <= cell_w * cell_h) by (nonlinear_arith)
                requires
                    cy < cell_h,
            ;
            for cx in 0..cell_w
                invariant
                    cy < cell_h,
                    self.quantize_bits < 8,
                    on@.len() == cell_w * 2 * (cell_h * 4),
                    rgb@.len() == on@.len() * 3,
                    want == braille_cells(
                        rgb@,
                        on@,
                        cell_w as nat,
                        cell_h as nat,
                        self.quantize_bits as nat,
                    ),
                    cy * cell_w + cell_w <= cell_w * cell_h,
                    i == cy * cell_w + cx,
                    cells@ == want.take(i),
            {
                cells.push(cell_at(rgb, &on, cell_w, cell_h, cx, cy, self.quantize_bits));
                proof {
                    assert(0 <= cy * cell_w) by (nonlinear_arith);
                    assert(want.take(i + 1) =~= want.take(i).push(want[i]));
                    i = i + 1;
                }
            }
        }
        assert(cell_h * cell_w == cell_w * cell_h) by (nonlinear_arith);
        assert(cells@ =~= want);
        paint(cells.as_slice(), cell_w, cell_h)
    }
}

// ── Laws ────────────────────────────────────────────────────────────────

/// A cell's character has the bit of a dot set exactly where the dot is lit.
pub proof fn law_dot_bit_set_iff_lit(dots: Seq<Dot>, d: int)
    requires
        dots.len() == 8,
        0 <= d < 8,
    ensures
        dots[d].lit <==> dot_bits(dots, 8) & dot_value(d / 4, d % 4) != 0,
        dot_bits(dots, 8) <= 0xFF,
{
    lemma_dot_bits_fit(dots, 8);
    reveal_with_fuel(dot_bits, 9);
    let b0 = if dots[0].lit { 0x01u32 } else { 0u32 };
    let b1 = if dots[1].lit { 0x02u32 } else { 0u32 };
    let b2 = if dots[2].lit { 0x04u32 } else { 0u32 };
    let b3 = if dots[3].lit { 0x40u32 } else { 0u32 };
    let b4 = if dots[4].lit { 0x08u32 } else { 0u32 };
    let b5 = if dots[5].lit { 0x10u32 } else { 0u32 };
    let b6 = if dots[6].lit { 0x20u32 } else { 0u32 };
    let b7 = if dots[7].lit { 0x80u32 } else { 0u32 };
    assert(forall|a: u32| #[trigger] (a | 0u32) == a) by (bit_vector);
    let bits = 0u32 | b0 | b1 | b2 | b3 | b4 | b5 | b6 | b7;
    assert(dot_bits(dots, 8) == bits);
    assert({
        &&& bits & 0x01 == b0
        &&& bits & 0x02 == b1
        &&& bits & 0x04 == b2
        &&& bits & 0x40 == b3
        &&& bits & 0x08 == b4
        &&& bits & 0x10 == b5
        &&& bits & 0x20 == b6
        &&& bits & 0x80 == b7
    }) by (bit_vector)
        requires
            bits == 0u32 | b0 | b1 | b2 | b3 | b4 | b5 | b6 | b7,
            b0 == 0 || b0 == 0x01,
            b1 == 0 || b1 == 0x02,
            b2 == 0 || b2 == 0x04,
            b3 == 0 || b3 == 0x40,
            b4 == 0 || b4 == 0x08,
            b5 == 0 || b5 == 0x10,
            b6 == 0 || b6 == 0x20,
            b7 == 0 || b7 == 0x80,
    ;
}

proof fn lemma_uniform_sum(dots: Seq<Dot>, k: int, v: u8, n: nat)
    requires
        n <= dots.len(),
        forall|d: int|
            0 <= d < dots.len() && dots[d].lit ==> channel((#[trigger] dots[d]).color, k) == v,
    ensures
        channel_sum(dots, k, true, n) == v * lit_count(dots, n),
    decreases n,
{
    if n > 0 {
        lemma_uniform_sum(dots, k, v, (n - 1) as nat);
        let before = lit_count(dots, (n - 1) as nat);
        assert(v * (before + 1) == v * before + v) by (nonlinear_arith);
        assert(dots[n - 1].lit ==> channel(dots[n - 1].color, k) == v);
    } else {
        assert(v * 0 == 0) by (nonlinear_arith);
    }
}

/// Where all lit dots of a cell have one color, that is the cell's color: the
/// unlit dots do not dim it.
pub proof fn law_color_is_that_of_lit_dots(dots: Seq<Dot>, c: Rgb)
    requires
        dots.len() == 8,
        exists|d: int| 0 <= d < 8 && (#[trigger] dots[d]).lit,
        forall|d: int| 0 <= d < 8 && (#[trigger] dots[d]).lit ==> dots[d].color == c,
    ensures
        block_color(dots) == c,
{
    let first = choose|d: int| 0 <= d < 8 && (#[trigger] dots[d]).lit;
    lemma_lit_counted(dots, first, 8);
    let n = lit_count(dots, 8);
    assert forall|k: int| 0 <= k < 3 implies channel_average(dots, k) == #[trigger] channel(
        c,
        k,
    ) by {
        let v = channel(c, k);
        lemma_uniform_sum(dots, k, v, 8);
        assert((v * n) / n as int == v) by (nonlinear_arith)
            requires
                n > 0,
        ;
    }
    assert(channel(c, 0) == c.r && channel(c, 1) == c.g && channel(c, 2) == c.b);
}

proof fn lemma_lit_counted(dots: Seq<Dot>, d: int, n: nat)
    requires
        0 <= d < n,
        dots[d].lit,
    ensures
        lit_count(dots, n) > 0,
    decreases n,
{
    if d < n - 1 {
        lemma_lit_counted(dots, d, (n - 1) as nat);
    }
}

/// Black and white do not stipple: where every pixel is black or white, none loses
/// anything and each dot is as bright as its pixel. With a threshold of 0 this
/// holds of an all-white frame only, since black rounds to white then.
pub proof fn law_dither_keeps_extremes(rgb: Seq<u8>, w: int, threshold: u8, k: int)
    requires
        0 <= k,
        0 < w,
    ensures
        (forall|i: int| 0 <= i <= k ==> luma_of(#[trigger] pixel(rgb, i)) == 255) ==> level(
            rgb,
            w,
            threshold,
            k,
        ) == 255 && error(rgb, w, threshold, k) == 0,
        threshold > 0 && (forall|i: int|
            0 <= i <= k ==> luma_of(#[trigger] pixel(rgb, i)) == 0 || luma_of(pixel(rgb, i)) == 255)
            ==> level(rgb, w, threshold, k) == luma_of(pixel(rgb, k)) && error(
            rgb,
            w,
            threshold,
            k,
        ) == 0,
    decreases k,
{
    if k >= 1 {
        law_dither_keeps_extremes(rgb, w, threshold, k - 1);
    }
    if k >= w {
        if w > 1 {
            law_dither_keeps_extremes(rgb, w, threshold, k - w + 1);
        }
        law_dither_keeps_extremes(rgb, w, threshold, k - w);
    }
    if k >= w + 1 {
        law_dither_keeps_extremes(rgb, w, threshold, k - w - 1);
    }
    assert(luma_of(pixel(rgb, k)) == luma_of(pixel(rgb, k)));
}

/// A lower threshold lights every dot that a higher one lights.
pub proof fn law_lower_threshold_lights_more(rgb: Seq<u8>, n: nat, low: u8, high: u8, i: int)
    requires
        low <= high,
        0 <= i < n,
        threshold_dots(rgb, n, high)[i],
    ensures
        threshold_dots(rgb, n, low)[i],
{
}

/// Clearing more color bits sends no more color escapes.
pub proof fn law_coarser_dots_send_less(
    rgb: Seq<u8>,
    on: Seq<bool>,
    cell_w: nat,
    cell_h: nat,
    fine: nat,
    coarse: nat,
)
    requires
        fine <= coarse,
    ensures
        color_count(frame_tokens(braille_cells(rgb, on, cell_w, cell_h, coarse), cell_w, cell_h))
            <= color_count(
            frame_tokens(braille_cells(rgb, on, cell_w, cell_h, fine), cell_w, cell_h),
        ),
{
    let a = braille_cells(rgb, on, cell_w, cell_h, fine);
    let b = braille_cells(rgb, on, cell_w, cell_h, coarse);
    law_color_sent_only_on_change(a, cell_w, cell_h);
    law_color_sent_only_on_change(b, cell_w, cell_h);
    let n = cell_h * cell_w;
    assert(n == cell_w * cell_h) by (nonlinear_arith)
        requires
            n == cell_h * cell_w,
    ;
    assert forall|i: int| 0 < i < n && (#[trigger] a[i]).color == a[i - 1].color implies b[i].color
        == b[i - 1].color by {
        law_coarser_merges_more(
            block_color(block(rgb, on, cell_w as int, i)),
            block_color(block(rgb, on, cell_w as int, i - 1)),
            fine,
            coarse,
        );
    }
    lemma_fewer_color_changes(a, b, n);
}

/// Whether `part` is `weight` sixteenths of `error`, rounded toward zero.
pub open spec fn handed_on(part: int, error: int, weight: int) -> bool {
    &&& error >= 0 ==> 0 <= part && 16 * part <= weight * error < 16 * part + 16
    &&& error <= 0 ==> part <= 0 && 16 * part - 16 < weight * error <= 16 * part
}

proof fn lemma_share_handed_on(e: int, weight: int)
    requires
        0 <= weight,
    ensures
        handed_on(share(e, weight), e, weight),
        share(0, weight) == 0,
{
    assert(e >= 0 ==> e * weight >= 0) by (nonlinear_arith)
        requires
            0 <= weight,
    ;
    assert(e <= 0 ==> (-e) * weight >= 0) by (nonlinear_arith)
        requires
            0 <= weight,
    ;
    assert((-e) * weight == -(weight * e)) by (nonlinear_arith);
    assert(e * weight == weight * e) by (nonlinear_arith);
    assert(0 * weight == 0) by (nonlinear_arith);
}

/// Error is conserved: the four neighbours together take all of it, 7, 3, 5 and 1
/// sixteenths, up to the rounding of each share.
pub proof fn law_error_is_conserved(e: int)
    ensures
        -16 < 16 * share(e, 7) - 7 * e < 16,
        -16 < 16 * share(e, 3) - 3 * e < 16,
        -16 < 16 * share(e, 5) - 5 * e < 16,
        -16 < 16 * share(e, 1) - e < 16,
        -4 < share(e, 7) + share(e, 3) + share(e, 5) + share(e, 1) - e < 4,
{
    lemma_share_handed_on(e, 7);
    lemma_share_handed_on(e, 3);
    lemma_share_handed_on(e, 5);
    lemma_share_handed_on(e, 1);
}

/// What reaches a sub-pixel from its neighbours: `from_left`, `from_above_right`,
/// `from_above` and `from_above_left`.
pub open spec fn is_diffused(
    rgb: Seq<u8>,
    w: int,
    threshold: u8,
    x: int,
    y: int,
    from_left: int,
    from_above_right: int,
    from_above: int,
    from_above_left: int,
) -> bool {
    let at = |cx: int, cy: int|
        if 0 <= cx < w && 0 <= cy {
            error(rgb, w, threshold, cy * w + cx)
        } else {
            0
        };
    let gray = level(rgb, w, threshold, y * w + x) - from_left - from_above_right - from_above
        - from_above_left;
    &&& handed_on(from_left, at(x - 1, y), 7)
    &&& handed_on(from_above_right, at(x + 1, y - 1), 3)
    &&& handed_on(from_above, at(x, y - 1), 5)
    &&& handed_on(from_above_left, at(x - 1, y - 1), 1)
    &&& has_luma(
        rgb[3 * (y * w + x)],
        rgb[3 * (y * w + x) + 1],
        rgb[3 * (y * w + x) + 2],
        gray,
    )
}

/// The level of the sub-pixel at column `x` of row `y` is its luma and 7 sixteenths
/// of the error to its left, 3 of that above right, 5 of that above and 1 of that
/// above left. What lies outside the frame hands nothing on: no error wraps around
/// a row's end.
pub proof fn law_errors_reach_their_neighbours(
    rgb: Seq<u8>,
    w: int,
    threshold: u8,
    x: int,
    y: int,
)
    requires
        0 <= x < w,
        0 <= y,
    ensures
        exists|a: int, b: int, c: int, d: int| #[trigger]
            is_diffused(rgb, w, threshold, x, y, a, b, c, d),
{
    let k = y * w + x;
    vstd::arithmetic::div_mod::lemma_fundamental_div_mod_converse(k, w, y, x);
    assert(y >= 1 ==> y * w >= w) by (nonlinear_arith)
        requires
            w > 0,
    ;
    assert(y == 0 ==> y * w == 0) by (nonlinear_arith);
    assert(y * w >= 0) by (nonlinear_arith)
        requires
            y >= 0,
            w > 0,
    ;
    assert((y - 1) * w == y * w - w) by (nonlinear_arith);
    let at = |cx: int, cy: int|
        if 0 <= cx < w && 0 <= cy {
            error(rgb, w, threshold, cy * w + cx)
        } else {
            0
        };
    let a = share(at(x - 1, y), 7);
    let b = share(at(x + 1, y - 1), 3);
    let c = share(at(x, y - 1), 5);
    let d = share(at(x - 1, y - 1), 1);
    lemma_share_handed_on(at(x - 1, y), 7);
    lemma_share_handed_on(at(x + 1, y - 1), 3);
    lemma_share_handed_on(at(x, y - 1), 5);
    lemma_share_handed_on(at(x - 1, y - 1), 1);
    lemma_share_handed_on(0, 7);
    lemma_share_handed_on(0, 3);
    lemma_share_handed_on(0, 5);
    lemma_share_handed_on(0, 1);
    law_luma_weights(pixel(rgb, k));
    law_quantized_pixel(rgb, k, 0);
    if y >= 1 {
        assert(k >= w);
    } else {
        assert(k < w);
    }
    assert(level(rgb, w, threshold, k) == luma_of(pixel(rgb, k)) + a + b + c + d);
    assert(is_diffused(rgb, w, threshold, x, y, a, b, c, d));
}

/// A dot is lit where its level reaches the threshold; it then counts as white, and
/// as black elsewhere, and its error is what the rounding has changed.
pub proof fn law_dithered_dot(rgb: Seq<u8>, w: int, n: nat, threshold: u8, k: int)
    requires
        0 <= k < n,
    ensures
        dithered_dots(rgb, w, n, threshold).len() == n,
        dithered_dots(rgb, w, n, threshold)[k] <==> level(rgb, w, threshold, k) >= threshold,
        level(rgb, w, threshold, k) - error(rgb, w, threshold, k) == (if dithered_dots(
            rgb,
            w,
            n,
            threshold,
        )[k] {
            255int
        } else {
            0
        }),
{
}

/// Without dithering a dot is lit where the weighted sum of its three bytes reaches
/// the threshold; with dithering where its diffused level does.
pub proof fn law_dots_of_a_frame(rgb: Seq<u8>, w: nat, h: nat, threshold: u8, k: int)
    requires
        0 <= k < w * h,
    ensures
        frame_dots(rgb, w, h, threshold, false).len() == w * h,
        frame_dots(rgb, w, h, threshold, true).len() == w * h,
        frame_dots(rgb, w, h, threshold, false)[k] <==> 299 * rgb[3 * k] + 587 * rgb[3 * k + 1] + 114
            * rgb[3 * k + 2] >= 1000 * threshold,
        frame_dots(rgb, w, h, threshold, true)[k] <==> level(rgb, w as int, threshold, k)
            >= threshold,
{
    law_quantized_pixel(rgb, k, 0);
    law_luma_weights(pixel(rgb, k));
}

/// Where the sub-pixel at column `dx` and row `dy` of the cell at column `x` and row
/// `y` stands in a frame of `cell_w` cells across.
pub open spec fn place(cell_w: nat, x: int, y: int, dx: int, dy: int) -> int {
    (4 * y + dy) * (2 * cell_w) + (2 * x + dx)
}

/// How much the sub-pixel at `at` adds to the `k`-th channel's sum, if only lit
/// ones count.
pub open spec fn lit_byte(rgb: Seq<u8>, on: Seq<bool>, at: int, k: int) -> int {
    if on[at] {
        rgb[3 * at + k] as int
    } else {
        0
    }
}

/// How many of a cell's eight dots are lit.
pub open spec fn lit_dots(on: Seq<bool>, cell_w: nat, x: int, y: int) -> int {
    let one = |dx: int, dy: int|
        if on[place(cell_w, x, y, dx, dy)] {
            1int
        } else {
            0
        };
    one(0, 0) + one(0, 1) + one(0, 2) + one(0, 3) + one(1, 0) + one(1, 1) + one(1, 2) + one(1, 3)
}

/// The sum of the `k`-th channel over a cell's lit dots.
pub open spec fn lit_sum(
    rgb: Seq<u8>,
    on: Seq<bool>,
    cell_w: nat,
    x: int,
    y: int,
    k: int,
) -> int {
    let v = |dx: int, dy: int| lit_byte(rgb, on, place(cell_w, x, y, dx, dy), k);
    v(0, 0) + v(0, 1) + v(0, 2) + v(0, 3) + v(1, 0) + v(1, 1) + v(1, 2) + v(1, 3)
}

/// The sum of the `k`-th channel over all eight dots of a cell.
pub open spec fn whole_sum(rgb: Seq<u8>, cell_w: nat, x: int, y: int, k: int) -> int {
    let v = |dx: int, dy: int| rgb[3 * place(cell_w, x, y, dx, dy) + k];
    v(0, 0) + v(0, 1) + v(0, 2) + v(0, 3) + v(1, 0) + v(1, 1) + v(1, 2) + v(1, 3)
}

/// Whether the `k`-th channel of a cell is the average of its lit dots, or of all
/// its dots if none is lit, but for the low `bits` bits.
pub open spec fn averages(
    q: u8,
    rgb: Seq<u8>,
    on: Seq<bool>,
    cell_w: nat,
    x: int,
    y: int,
    k: int,
    bits: nat,
) -> bool {
    let lit = lit_dots(on, cell_w, x, y);
    exists|a: int| #[trigger]
        keeps_high_bits(q, a, bits) && if lit == 0 {
            8 * a <= whole_sum(rgb, cell_w, x, y, k) < 8 * a + 8
        } else {
            lit * a <= lit_sum(rgb, on, cell_w, x, y, k) < lit * a + lit
        }
}

/// Whether a character is the braille pattern of a cell: each of the eight dots
/// raised exactly where it is lit.
pub open spec fn is_pattern(glyph: char, on: Seq<bool>, cell_w: nat, x: int, y: int) -> bool {
    let bits = (glyph as u32 - 0x2800) as u32;
    &&& 0x2800 <= glyph as u32 <= 0x28FF
    &&& bits & 0x01 != 0 <==> on[place(cell_w, x, y, 0, 0)]
    &&& bits & 0x02 != 0 <==> on[place(cell_w, x, y, 0, 1)]
    &&& bits & 0x04 != 0 <==> on[place(cell_w, x, y, 0, 2)]
    &&& bits & 0x40 != 0 <==> on[place(cell_w, x, y, 0, 3)]
    &&& bits & 0x08 != 0 <==> on[place(cell_w, x, y, 1, 0)]
    &&& bits & 0x10 != 0 <==> on[place(cell_w, x, y, 1, 1)]
    &&& bits & 0x20 != 0 <==> on[place(cell_w, x, y, 1, 2)]
    &&& bits & 0x80 != 0 <==> on[place(cell_w, x, y, 1, 3)]
}

/// Whether `rows` is the picture of a frame in braille: at column `x` of row `y` the
/// eight sub-pixels of that cell, as dots, in their average color.
pub open spec fn is_braille_picture(
    rows: Seq<Seq<Shown>>,
    rgb: Seq<u8>,
    on: Seq<bool>,
    cell_w: nat,
    cell_h: nat,
    bits: nat,
) -> bool {
    &&& rows.len() == cell_h
    &&& forall|y: int| 0 <= y < cell_h ==> (#[trigger] rows[y]).len() == cell_w
    &&& forall|y: int, x: int|
        #![trigger rows[y][x]]
        0 <= y < cell_h && 0 <= x < cell_w ==> {
            &&& is_pattern(rows[y][x].glyph, on, cell_w, x, y)
            &&& rows[y][x].bg is None
            &&& rows[y][x].fg matches Some(c) && averages(c.r, rgb, on, cell_w, x, y, 0, bits)
                && averages(c.g, rgb, on, cell_w, x, y, 1, bits) && averages(
                c.b,
                rgb,
                on,
                cell_w,
                x,
                y,
                2,
                bits,
            )
        }
}

proof fn lemma_cell_place(cell_w: nat, x: int, y: int, d: int)
    requires
        0 <= x < cell_w,
        0 <= y,
        0 <= d < 8,
    ensures
        dot_index(cell_w as int, y * cell_w + x, d) == place(cell_w, x, y, d / 4, d % 4),
{
    vstd::arithmetic::div_mod::lemma_fundamental_div_mod_converse(
        y * cell_w + x,
        cell_w as int,
        y,
        x,
    );
    assert((y * 4 + d % 4) * (cell_w * 2) == (4 * y + d % 4) * (2 * cell_w)) by (nonlinear_arith);
}

proof fn lemma_cell_dot(
    rgb: Seq<u8>,
    on: Seq<bool>,
    cell_w: nat,
    x: int,
    y: int,
    k: int,
    d: int,
)
    requires
        0 <= x < cell_w,
        0 <= y,
        0 <= k < 3,
        0 <= d < 8,
    ensures
        ({
            let dot = block(rgb, on, cell_w as int, y * cell_w + x)[d];
            let at = place(cell_w, x, y, d / 4, d % 4);
            &&& dot.lit == on[at]
            &&& channel(dot.color, k) == rgb[3 * at + k]
        }),
{
    lemma_cell_place(cell_w, x, y, d);
    law_quantized_pixel(rgb, place(cell_w, x, y, d / 4, d % 4), 0);
}

proof fn lemma_cell_sums(rgb: Seq<u8>, on: Seq<bool>, cell_w: nat, x: int, y: int, k: int)
    requires
        0 <= x < cell_w,
        0 <= y,
        0 <= k < 3,
    ensures
        ({
            let dots = block(rgb, on, cell_w as int, y * cell_w + x);
            &&& lit_count(dots, 8) == lit_dots(on, cell_w, x, y)
            &&& channel_sum(dots, k, true, 8) == lit_sum(rgb, on, cell_w, x, y, k)
            &&& channel_sum(dots, k, false, 8) == whole_sum(rgb, cell_w, x, y, k)
        }),
{
    lemma_cell_dot(rgb, on, cell_w, x, y, k, 0);
    lemma_cell_dot(rgb, on, cell_w, x, y, k, 1);
    lemma_cell_dot(rgb, on, cell_w, x, y, k, 2);
    lemma_cell_dot(rgb, on, cell_w, x, y, k, 3);
    lemma_cell_dot(rgb, on, cell_w, x, y, k, 4);
    lemma_cell_dot(rgb, on, cell_w, x, y, k, 5);
    lemma_cell_dot(rgb, on, cell_w, x, y, k, 6);
    lemma_cell_dot(rgb, on, cell_w, x, y, k, 7);
    reveal_with_fuel(lit_count, 9);
    reveal_with_fuel(channel_sum, 9);
}

proof fn lemma_floor(sum: int, count: int)
    requires
        0 < count,
        0 <= sum <= 255 * count,
    ensures
        0 <= sum / count <= 255,
        count * (sum / count) <= sum < count * (sum / count) + count,
{
    let a = sum / count;
    assert(a <= 255) by (nonlinear_arith)
        requires
            a == sum / count,
            count > 0,
            sum <= 255 * count,
    ;
    assert(0 <= a && count * a <= sum < count * a + count) by (nonlinear_arith)
        requires
            a == sum / count,
            count > 0,
            0 <= sum,
    ;
}

proof fn lemma_cell_averages(
    rgb: Seq<u8>,
    on: Seq<bool>,
    cell_w: nat,
    x: int,
    y: int,
    k: int,
    bits: nat,
)
    requires
        0 <= x < cell_w,
        0 <= y,
        0 <= k < 3,
    ensures
        averages(
            quantized_byte(
                channel_average(block(rgb, on, cell_w as int, y * cell_w + x), k),
                bits,
            ),
            rgb,
            on,
            cell_w,
            x,
            y,
            k,
            bits,
        ),
{
    let dots = block(rgb, on, cell_w as int, y * cell_w + x);
    let average = channel_average(dots, k);
    law_quantize(average, bits);
    lemma_cell_sums(rgb, on, cell_w, x, y, k);
    lemma_channel_sum_bound(dots, k, 8);
    let lit = lit_count(dots, 8) as int;
    if lit == 0 {
        lemma_floor(channel_sum(dots, k, false, 8) as int, 8);
    } else {
        lemma_floor(channel_sum(dots, k, true, 8) as int, lit);
    }
    assert(keeps_high_bits(quantized_byte(average, bits), average as int, bits));
}

/// A terminal that reads a converted frame shows eight dots in each cell, every cell
/// where its sub-pixels are, in the average color of the lit ones.
pub proof fn law_dots_show_the_frame(m: BrailleMapper, rgb: Seq<u8>, cell_w: nat, cell_h: nat)
    requires
        cell_h > 0,
    ensures
        exists|rows: Seq<Seq<Shown>>| #[trigger]
            paints(m.converted(rgb, cell_w, cell_h), rows) && is_braille_picture(
                rows,
                rgb,
                frame_dots(rgb, cell_w * 2, cell_h * 4, m.threshold(), m.dither()),
                cell_w,
                cell_h,
                m.quantize_bits() as nat,
            ),
{
    let bits = m.quantize_bits() as nat;
    let on = frame_dots(rgb, cell_w * 2, cell_h * 4, m.threshold(), m.dither());
    let cells = braille_cells(rgb, on, cell_w, cell_h, bits);
    let rows = shown_rows(cells, cell_w, cell_h);
    law_frame_shows_every_cell(cells, cell_w, cell_h);
    assert(paints(m.converted(rgb, cell_w, cell_h), rows)) by {
        assert(m.converted(rgb, cell_w, cell_h) == text_of(frame_tokens(cells, cell_w, cell_h)));
    }
    assert forall|y: int, x: int|
        #![trigger rows[y][x]]
        0 <= y < cell_h && 0 <= x < cell_w implies {
        &&& is_pattern(rows[y][x].glyph, on, cell_w, x, y)
        &&& rows[y][x].bg is None
        &&& rows[y][x].fg matches Some(c) && averages(c.r, rgb, on, cell_w, x, y, 0, bits)
            && averages(c.g, rgb, on, cell_w, x, y, 1, bits) && averages(
            c.b,
            rgb,
            on,
            cell_w,
            x,
            y,
            2,
            bits,
        )
    } by {
        let i = y * cell_w + x;
        assert(0 <= i < cell_w * cell_h) by (nonlinear_arith)
            requires
                i == y * cell_w + x,
                0 <= y < cell_h,
                0 <= x < cell_w,
        ;
        let dots = block(rgb, on, cell_w as int, i);
        assert(cells[i] == braille_cell(dots, bits));
        lemma_cell_averages(rgb, on, cell_w, x, y, 0, bits);
        lemma_cell_averages(rgb, on, cell_w, x, y, 1, bits);
        lemma_cell_averages(rgb, on, cell_w, x, y, 2, bits);
        lemma_dot_bits_fit(dots, 8);
        assert forall|d: int| 0 <= d < 8 implies (#[trigger] dots[d]).lit <==> dot_bits(dots, 8)
            & dot_value(d / 4, d % 4) != 0 by {
            law_dot_bit_set_iff_lit(dots, d);
        }
        lemma_cell_place(cell_w, x, y, 0);
        lemma_cell_place(cell_w, x, y, 1);
        lemma_cell_place(cell_w, x, y, 2);
        lemma_cell_place(cell_w, x, y, 3);
        lemma_cell_place(cell_w, x, y, 4);
        lemma_cell_place(cell_w, x, y, 5);
        lemma_cell_place(cell_w, x, y, 6);
        lemma_cell_place(cell_w, x, y, 7);
        assert(dots[0].lit == on[place(cell_w, x, y, 0, 0)]);
        assert(dots[1].lit == on[place(cell_w, x, y, 0, 1)]);
        assert(dots[2].lit == on[place(cell_w, x, y, 0, 2)]);
        assert(dots[3].lit == on[place(cell_w, x, y, 0, 3)]);
        assert(dots[4].lit == on[place(cell_w, x, y, 1, 0)]);
        assert(dots[5].lit == on[place(cell_w, x, y, 1, 1)]);
        assert(dots[6].lit == on[place(cell_w, x, y, 1, 2)]);
        assert(dots[7].lit == on[place(cell_w, x, y, 1, 3)]);
    }
    assert(is_braille_picture(rows, rgb, on, cell_w, cell_h, bits));
}

} // verus!
