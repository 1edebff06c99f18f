//! HalfBlockMapper — 1×2 sub-pixel rendering via the upper-half block (▀).
//!
//! Each cell stacks two source pixels vertically and renders U+2580 (▀):
//!   - the glyph's solid top half takes the FOREGROUND color  = top pixel
//!   - the empty bottom half shows the BACKGROUND color       = bottom pixel
//!
//! This doubles vertical resolution while keeping TWO full truecolor values per
//! cell — the color-rich counterpart to braille's detail-rich/one-color trade.

use crate::mapper::{
    law_coarser_merges_more, law_quantized_pixel, pixel, pixel_at, push_fg_bg_escape, quantize, quantized,
};
use crate::screen::{
    color_count, colored, law_pair_frame_shows_every_cell, lemma_fewer_pair_changes,
    lemma_text_of_add, lemma_text_of_push, pair_cell_tokens, pair_frame_tokens, pair_row_tokens,
    pair_run_tokens, paints, shown_pairs, text_of, PairCell, Shown, Token, RESET, UPPER_HALF_BLOCK,
};
use vstd::prelude::*;

verus! {

/// Width of the sub-pixel block per cell.
pub const HALF_SUB_W: usize = 1;

/// Height of the sub-pixel block per cell.
pub const HALF_SUB_H: usize = 2;

/// The cell at column `x` of row `y`: two pixels, one above the other.
pub open spec fn half_cell(rgb: Seq<u8>, cell_w: nat, quantize_bits: nat, x: int, y: int) -> PairCell {
    PairCell {
        top: quantized(pixel(rgb, 2 * y * cell_w + x), quantize_bits),
        bottom: quantized(pixel(rgb, (2 * y + 1) * cell_w + x), quantize_bits),
    }
}

/// One row of cells.
pub open spec fn half_row(rgb: Seq<u8>, cell_w: nat, quantize_bits: nat, y: int) -> Seq<PairCell> {
    Seq::new(cell_w, |x: int| half_cell(rgb, cell_w, quantize_bits, x, y))
}

/// The rows of a frame of `cell_w × cell_h` cells.
pub open spec fn half_rows(rgb: Seq<u8>, cell_w: nat, cell_h: nat, quantize_bits: nat) -> Seq<
    Seq<PairCell>,
> {
    Seq::new(cell_h, |y: int| half_row(rgb, cell_w, quantize_bits, y))
}

/// Append what paints one cell after a cell `prev` of the same row.
fn push_pair_cell(out: &mut String, prev: Option<PairCell>, cell: PairCell)
    ensures
        final(out)@ == old(out)@ + text_of(
            if prev == Some(cell) {
                seq![Token::Glyph(UPPER_HALF_BLOCK)]
            } else {
                seq![Token::ColorPair(cell.top, cell.bottom), Token::Glyph(UPPER_HALF_BLOCK)]
            },
        ),
{
    proof {
        reveal_with_fuel(text_of, 3);
        let both = seq![
            Token::ColorPair(cell.top, cell.bottom),
            Token::Glyph(UPPER_HALF_BLOCK),
        ];
        assert(both.drop_last() =~= seq![Token::ColorPair(cell.top, cell.bottom)]);
        assert(both.drop_last().drop_last() =~= Seq::empty());
        assert(seq![Token::Glyph(UPPER_HALF_BLOCK)].drop_last() =~= Seq::empty());
    }
    let changed = match prev {
        Some(p) => p != cell,
        None => true,
    };
    if changed {
        push_fg_bg_escape(out, cell.top, cell.bottom);
    }
    out.push(UPPER_HALF_BLOCK);
    assert(final(out)@ =~= old(out)@ + text_of(
        if prev == Some(cell) {
            seq![Token::Glyph(UPPER_HALF_BLOCK)]
        } else {
            seq![Token::ColorPair(cell.top, cell.bottom), Token::Glyph(UPPER_HALF_BLOCK)]
        },
    ));
}

/// Two pixel rows lie within the frame.
proof fn lemma_pixel_rows(cell_w: int, cell_h: int, x: int, y: int)
    requires
        0 <= x < cell_w,
        0 <= y < cell_h,
    ensures
        0 <= 2 * y * cell_w,
        (2 * y + 1) * cell_w == 2 * y * cell_w + cell_w,
        (2 * y + 1) * cell_w + x < cell_w * (cell_h * 2),
        cell_w <= cell_w * (cell_h * 2),
        2 * y + 1 < cell_w * (cell_h * 2),
{
    assert(0 <= 2 * y * cell_w) by (nonlinear_arith)
        requires
            0 <= y,
            0 < cell_w,
    ;
    assert((2 * y + 1) * cell_w == 2 * y * cell_w + cell_w) by (nonlinear_arith);
    assert((2 * y + 2) * cell_w == (2 * y + 1) * cell_w + cell_w) by (nonlinear_arith);
    assert((2 * y + 2) * cell_w <= cell_w * (cell_h * 2)) by (nonlinear_arith)
        requires
            2 * y + 2 <= cell_h * 2,
            0 < cell_w,
    ;
    assert(2 * y + 2 <= (2 * y + 2) * cell_w) by (nonlinear_arith)
        requires
            0 <= y,
            1 <= cell_w,
    ;
}

pub struct HalfBlockMapper {
    quantize_bits: u32,
}

impl HalfBlockMapper {
    /// How many low bits of each color channel are cleared.
    pub closed spec fn quantize_bits(&self) -> u32 {
        self.quantize_bits
    }

    pub fn new(quantize_bits: u32) -> (m: HalfBlockMapper)
        ensures
            m.quantize_bits() == quantize_bits,
    {
        HalfBlockMapper { quantize_bits }
    }

    /// How many low bits of each color channel are cleared.
    pub fn masked_bits(&self) -> (bits: u32)
        ensures
            bits == self.quantize_bits(),
    {
        self.quantize_bits
    }

    /// What `convert` gives for a frame.
    pub open spec fn converted(&self, rgb: Seq<u8>, cell_w: nat, cell_h: nat) -> Seq<char> {
        text_of(
            pair_frame_tokens(
                half_rows(rgb, cell_w, cell_h, self.quantize_bits() as nat),
                cell_h,
            ),
        )
    }

    /// Convert one `rgb24` frame sized at `cell_w × (cell_h*2)` into a half-block
    /// string of `cell_w × cell_h` characters.
    pub fn convert(&self, rgb: &[u8], cell_w: usize, cell_h: usize) -> (out: String)
        requires
            self.quantize_bits() < 8,
            cell_h * 2 <= usize::MAX,
            rgb@.len() == cell_w * (cell_h * 2) * 3,
        ensures
            out@ == self.converted(rgb@, cell_w as nat, cell_h as nat),
    {
        assert(rgb@.len() == rgb.len());
        let ghost rows = half_rows(
            rgb@,
            cell_w as nat,
            cell_h as nat,
            self.quantize_bits() as nat,
        );
        let mut out = String::new();
        assert(text_of(pair_frame_tokens(rows, 0)) =~= out@);
        for cy in 0..cell_h
            invariant
                self.quantize_bits < 8,
                rgb@.len() <= usize::MAX,
                rgb@.len() == cell_w * (cell_h * 2) * 3,
                rows == half_rows(
                    rgb@,
                    cell_w as nat,
                    cell_h as nat,
                    self.quantize_bits() as nat,
                ),
                out@ == text_of(pair_frame_tokens(rows, cy as nat)),
        {
            let ghost mut done: Seq<Token> = pair_frame_tokens(rows, cy as nat);
            if cy > 0 {
                out.push('\n');
                proof {
                    lemma_text_of_push(done, Token::Newline);
                    done = done.push(Token::Newline);
                    assert(out@ =~= text_of(done));
                }
            }
            // Reset at the START of every row, then re-emit colors. This keeps
            // the active background from leaking past the row's end — otherwise
            // the surrounding centering padding (plain spaces) would render in
            // the last cell's background color. RLE restarts each row.

            out.append(RESET);
            let ghost row = rows[cy as int];
            let ghost head = done.push(Token::Reset);
            proof {
                lemma_text_of_push(done, Token::Reset);
                assert(head + pair_run_tokens(row, 0) =~= head);
            }
            let mut prev: Option<PairCell> = None;
            for cx in 0..cell_w
                invariant
                    cy < cell_h,
                    self.quantize_bits < 8,
                    rgb@.len() <= usize::MAX,
                    rgb@.len() == cell_w * (cell_h * 2) * 3,
                    row == half_row(
                        rgb@,
                        cell_w as nat,
                        self.quantize_bits as nat,
                        cy as int,
                    ),
                    prev == (if cx == 0 {
                        None
                    } else {
                        Some(row[cx - 1])
                    }),
                    out@ == text_of(head + pair_run_tokens(row, cx as nat)),
            {
                proof {
                    lemma_pixel_rows(cell_w as int, cell_h as int, cx as int, cy as int);
                }
                let top: usize = 2 * cy * cell_w + cx;
                let bottom: usize = (2 * cy + 1) * cell_w + cx;
                let cell = PairCell {
                    top: quantize(pixel_at(rgb, top), self.quantize_bits),
                    bottom: quantize(pixel_at(rgb, bottom), self.quantize_bits),
                };
                assert(cell == row[cx as int]);
                push_pair_cell(&mut out, prev, cell);
                proof {
                    let before = head + pair_run_tokens(row, cx as nat);
                    lemma_text_of_add(before, pair_cell_tokens(row, cx as int));
                    assert(before + pair_cell_tokens(row, cx as int) =~= head
                        + pair_run_tokens(row, (cx + 1) as nat));
                }
                prev = Some(cell);
            }
            // Clear the background again so the right-side padding is clean too.
            out.append(RESET);
            proof {
                let before = head + pair_run_tokens(row, cell_w as nat);
                lemma_text_of_push(before, Token::Reset);
                assert(before.push(Token::Reset) =~= done + pair_row_tokens(row));
                if cy == 0 {
                    assert(done =~= Seq::empty());
                }
                assert(done + pair_row_tokens(row) =~= pair_frame_tokens(
                    rows,
                    (cy + 1) as nat,
                ));
            }
        }
        out
    }
}

// ── Laws ────────────────────────────────────────────────────────────────

/// Clearing more color bits sends no more color escapes.
pub proof fn law_coarser_pairs_send_less(
    rgb: Seq<u8>,
    cell_w: nat,
    cell_h: nat,
    fine: nat,
    coarse: nat,
)
    requires
        fine <= coarse,
    ensures
        color_count(pair_frame_tokens(half_rows(rgb, cell_w, cell_h, coarse), cell_h))
            <= color_count(pair_frame_tokens(half_rows(rgb, cell_w, cell_h, fine), cell_h)),
{
    let a = half_rows(rgb, cell_w, cell_h, fine);
    let b = half_rows(rgb, cell_w, cell_h, coarse);
    assert forall|y: int, x: int|
        #![trigger a[y][x]]
        0 <= y < cell_h && 0 < x < a[y].len() && a[y][x] == a[y][x - 1] implies b[y][x] == b[y][x
        - 1] by {
        let top = 2 * y * cell_w;
        let bottom = (2 * y + 1) * cell_w;
        law_coarser_merges_more(pixel(rgb, top + x), pixel(rgb, top + (x - 1)), fine, coarse);
        law_coarser_merges_more(pixel(rgb, bottom + x), pixel(rgb, bottom + (x - 1)), fine, coarse);
    }
    lemma_fewer_pair_changes(a, b, cell_h);
}

/// Whether `rows` is the picture of a frame in half blocks: at column `x` of row `y`
/// the pixel at column `x` of pixel row `2 * y` above that of pixel row `2 * y + 1`.
pub open spec fn is_half_block_picture(
    rows: Seq<Seq<Shown>>,
    rgb: Seq<u8>,
    cell_w: nat,
    cell_h: nat,
    bits: nat,
) -> bool {
    &&& rows.len() == cell_h
    &&& forall|y: int| 0 <= y < cell_h ==> (#[trigger] rows[y]).len() == cell_w
    &&& forall|y: int, x: int|
        #![trigger rows[y][x]]
        0 <= y < cell_h && 0 <= x < cell_w ==> {
            &&& rows[y][x].glyph == '\u{2580}'
            &&& colored(rows[y][x].fg, rgb, 3 * (2 * y * cell_w + x), bits)
            &&& colored(rows[y][x].bg, rgb, 3 * ((2 * y + 1) * cell_w + x), bits)
        }
}

/// A terminal that reads a converted frame shows two pixels in each cell, the upper
/// one in the foreground color and the lower one in the background color, every
/// cell where its pixels are.
pub proof fn law_half_blocks_show_the_frame(
    m: HalfBlockMapper,
    rgb: Seq<u8>,
    cell_w: nat,
    cell_h: nat,
)
    requires
        cell_h > 0,
    ensures
        exists|rows: Seq<Seq<Shown>>| #[trigger]
            paints(m.converted(rgb, cell_w, cell_h), rows) && is_half_block_picture(
                rows,
                rgb,
                cell_w,
                cell_h,
                m.quantize_bits() as nat,
            ),
{
    let bits = m.quantize_bits() as nat;
    let cells = half_rows(rgb, cell_w, cell_h, bits);
    let rows = Seq::new(cell_h, |y: int| shown_pairs(cells[y], cells[y].len()));
    law_pair_frame_shows_every_cell(cells, cell_h);
    assert(paints(m.converted(rgb, cell_w, cell_h), rows)) by {
        assert(m.converted(rgb, cell_w, cell_h) == text_of(pair_frame_tokens(cells, cell_h)));
    }
    assert forall|y: int, x: int|
        #![trigger rows[y][x]]
        0 <= y < cell_h && 0 <= x < cell_w implies {
        &&& rows[y][x].glyph == '\u{2580}'
        &&& colored(rows[y][x].fg, rgb, 3 * (2 * y * cell_w + x), bits)
        &&& colored(rows[y][x].bg, rgb, 3 * ((2 * y + 1) * cell_w + x), bits)
    } by {
        law_quantized_pixel(rgb, 2 * y * cell_w + x, bits);
        law_quantized_pixel(rgb, (2 * y + 1) * cell_w + x, bits);
        assert(cells[y][x] == half_cell(rgb, cell_w, bits, x, y));
    }
    assert(is_half_block_picture(rows, rgb, cell_w, cell_h, bits));
}

} // verus!
