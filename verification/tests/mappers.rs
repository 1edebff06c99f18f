use vlscii::ascii::AsciiMapper;
use vlscii::braille::{BrailleMapper, BRAILLE_SUB_H, BRAILLE_SUB_W};
use vlscii::half_block::HalfBlockMapper;
use vlscii::mapper::Mapper;
use vlscii::screen::RESET;

#[test]
fn black_pixel_is_first_palette_glyph() {
    let m = AsciiMapper::new(None, 0);
    // A single black pixel -> darkest glyph (space) + leading escape.
    let s = m.convert(&[0, 0, 0], 1, 1);
    assert!(s.contains("\x1b[38;2;0;0;0m"));
    assert!(s.starts_with(RESET));
    assert!(s.ends_with(RESET));
}

#[test]
fn white_pixel_is_brightest_glyph() {
    let m = AsciiMapper::new(None, 0);
    let s = m.convert(&[255, 255, 255], 1, 1);
    assert!(s.contains('@')); // last glyph in default ramp
    assert!(s.contains("\x1b[38;2;255;255;255m"));
}

#[test]
fn rle_reuses_color_across_run() {
    let m = AsciiMapper::new(None, 0);
    // Two identical pixels in a row -> only one color escape.
    let s = m.convert(&[10, 20, 30, 10, 20, 30], 2, 1);
    let occurrences = s.matches("\x1b[38;2;10;20;30m").count();
    assert_eq!(occurrences, 1);
}

#[test]
fn quantize_masks_low_bits() {
    let m = AsciiMapper::new(None, 2);
    // 0b1111_1111 -> 0b1111_1100 = 252 under qb=2.
    let s = m.convert(&[255, 255, 255], 1, 1);
    assert!(s.contains("\x1b[38;2;252;252;252m"));
}

/// Build a 2×4 (sub-pixel) rgb24 block for one braille cell from a closure
/// returning each sub-pixel's (r,g,b).
fn cell_block(f: impl Fn(usize, usize) -> (u8, u8, u8)) -> Vec<u8> {
    let mut v = Vec::with_capacity(BRAILLE_SUB_W * BRAILLE_SUB_H * 3);
    for y in 0..BRAILLE_SUB_H {
        for x in 0..BRAILLE_SUB_W {
            let (r, g, b) = f(x, y);
            v.extend_from_slice(&[r, g, b]);
        }
    }
    v
}

#[test]
fn all_dark_is_blank_braille() {
    let m = BrailleMapper::new(128, false, 0);
    let blk = cell_block(|_, _| (0, 0, 0));
    let s = m.convert(&blk, 1, 1);
    // U+2800 is the blank braille cell.
    assert!(s.contains('\u{2800}'));
}

#[test]
fn all_bright_lights_every_dot() {
    let m = BrailleMapper::new(128, false, 0);
    let blk = cell_block(|_, _| (255, 255, 255));
    let s = m.convert(&blk, 1, 1);
    // All 8 dots set -> 0x2800 + 0xFF = U+28FF.
    assert!(s.contains('\u{28ff}'));
    assert!(s.contains("\x1b[38;2;255;255;255m"));
}

#[test]
fn single_top_left_dot() {
    let m = BrailleMapper::new(128, false, 0);
    // Only sub-pixel (0,0) bright -> dot d0 -> bit 0x01 -> U+2801.
    let blk = cell_block(|x, y| if x == 0 && y == 0 { (255, 255, 255) } else { (0, 0, 0) });
    let s = m.convert(&blk, 1, 1);
    assert!(s.contains('\u{2801}'));
}

#[test]
fn bottom_right_dot_uses_high_bit() {
    let m = BrailleMapper::new(128, false, 0);
    // Sub-pixel (1,3) -> bottom-right dot d7 -> bit 0x80 -> U+2880.
    let blk = cell_block(|x, y| if x == 1 && y == 3 { (255, 255, 255) } else { (0, 0, 0) });
    let s = m.convert(&blk, 1, 1);
    assert!(s.contains('\u{2880}'));
}

#[test]
fn color_averages_lit_dots_only() {
    // Threshold below red's luma (200*0.299 ≈ 59) so the dot lights.
    let m = BrailleMapper::new(40, false, 0);
    // One lit red dot, rest black -> cell color is that red, not a dimmed
    // average that black would drag down.
    let blk = cell_block(|x, y| if x == 0 && y == 0 { (200, 0, 0) } else { (0, 0, 0) });
    let s = m.convert(&blk, 1, 1);
    assert!(s.contains("\x1b[38;2;200;0;0m"));
}

#[test]
fn dither_extremes_are_stable() {
    // Pure black/white must not stipple: every dot off / on respectively.
    let m = BrailleMapper::new(128, true, 0);
    let black = cell_block(|_, _| (0, 0, 0));
    let white = cell_block(|_, _| (255, 255, 255));
    assert!(m.convert(&black, 1, 1).contains('\u{2800}'));
    assert!(m.convert(&white, 1, 1).contains('\u{28ff}'));
}

#[test]
fn dither_midtone_is_partially_lit() {
    // A flat mid-gray field should diffuse into a mix of lit/unlit dots
    // rather than collapsing to all-on or all-off.
    let m = BrailleMapper::new(128, true, 0);
    // 4×4 cells of mid-gray (128) -> 8×16 sub-pixel plane.
    let w = 4 * BRAILLE_SUB_W;
    let h = 4 * BRAILLE_SUB_H;
    let mut frame = Vec::with_capacity(w * h * 3);
    for _ in 0..w * h {
        frame.extend_from_slice(&[128, 128, 128]);
    }
    let s = m.convert(&frame, 4, 4);
    let blank = s.matches('\u{2800}').count();
    let full = s.matches('\u{28ff}').count();
    // Not entirely blank and not entirely full -> dithering did something.
    assert!(blank < 16 && full < 16, "blank={blank} full={full}");
}

#[test]
fn half_block_uses_fg_and_bg() {
    let m = HalfBlockMapper::new(0);
    // 1 cell = top pixel (red) over bottom pixel (blue).
    let frame = vec![200, 0, 0, /* top */ 0, 0, 200 /* bottom */];
    let s = m.convert(&frame, 1, 1);
    assert!(s.contains('\u{2580}')); // ▀
    // fg = top (red), bg = bottom (blue).
    assert!(s.contains("\x1b[38;2;200;0;0;48;2;0;0;200m"));
}

#[test]
fn half_block_rle_reuses_pair() {
    let m = HalfBlockMapper::new(0);
    // Two identical cells side by side -> one combined escape.
    let frame = vec![
        10, 20, 30, // cell0 top
        10, 20, 30, // cell1 top
        40, 50, 60, // cell0 bottom
        40, 50, 60, // cell1 bottom
    ];
    let s = m.convert(&frame, 2, 1);
    let count = s.matches("\x1b[38;2;10;20;30;48;2;40;50;60m").count();
    assert_eq!(count, 1);
}

#[test]
fn half_block_resets_background_each_row() {
    // Regression: the active background must be cleared before every
    // newline, or centering padding renders in the last cell's bg color.
    let m = HalfBlockMapper::new(0);
    // 1×2 grid: two rows, distinct colors.
    let frame = vec![
        10, 0, 0, // row0 top
        20, 0, 0, // row0 bottom
        30, 0, 0, // row1 top
        40, 0, 0, // row1 bottom
    ];
    let s = m.convert(&frame, 1, 2);
    // Each newline must be immediately preceded by a RESET.
    for (i, _) in s.match_indices('\n') {
        assert!(s[..i].ends_with(RESET), "row did not end with RESET before newline");
    }
    // And the whole frame must end reset too (clean right/bottom padding).
    assert!(s.ends_with(RESET));
}

#[test]
fn subpixel_scale_matches_mode() {
    assert_eq!(
        Mapper::Ascii(AsciiMapper::new(None, 0)).subpixel_scale(),
        (1, 1)
    );
    assert_eq!(
        Mapper::Braille(BrailleMapper::new(128, false, 0)).subpixel_scale(),
        (2, 4)
    );
    assert_eq!(
        Mapper::HalfBlock(HalfBlockMapper::new(0)).subpixel_scale(),
        (1, 2)
    );
}
