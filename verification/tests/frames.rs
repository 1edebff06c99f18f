use vlscii::ascii::{AsciiMapper, DEFAULT_PALETTE};
use vlscii::braille::{dither_plane, dot_bit, threshold_plane, BrailleMapper};
use vlscii::half_block::HalfBlockMapper;
use vlscii::mapper::{luma, push_color_escape, push_fg_bg_escape, push_u8, quantize, Mapper};
use vlscii::screen::Rgb;

/// A frame of gray pixels.
fn gray(levels: &[u8]) -> Vec<u8> {
    levels.iter().flat_map(|&v| [v, v, v]).collect()
}

/// A frame with a bit of everything.
fn noise(n: usize) -> Vec<u8> {
    let mut v: u32 = 12345;
    (0..n)
        .map(|_| {
            v = v.wrapping_mul(1103515245).wrapping_add(12345);
            (v >> 24) as u8
        })
        .collect()
}

fn escapes(text: &str) -> usize {
    text.matches("\x1b[38;2;").count()
}

#[test]
fn luma_weights() {
    assert_eq!(luma(255, 0, 0), 76);
    assert_eq!(luma(0, 255, 0), 149);
    assert_eq!(luma(0, 0, 255), 29);
    for v in 0..=255u8 {
        assert_eq!(luma(v, v, v), v);
    }
}

#[test]
fn bytes_in_decimal() {
    for v in 0..=255u8 {
        let mut s = String::new();
        push_u8(&mut s, v);
        assert_eq!(s, v.to_string());
    }
}

#[test]
fn color_escapes() {
    let mut s = String::new();
    push_color_escape(&mut s, Rgb { r: 1, g: 22, b: 255 });
    assert_eq!(s, "\x1b[38;2;1;22;255m");
    let mut s = String::from("x");
    push_fg_bg_escape(&mut s, Rgb { r: 1, g: 2, b: 3 }, Rgb { r: 4, g: 5, b: 6 });
    assert_eq!(s, "x\x1b[38;2;1;2;3;48;2;4;5;6m");
}

#[test]
fn quantizing_clears_low_bits() {
    for bits in 0..8u32 {
        for v in 0..=255u8 {
            let q = quantize(Rgb { r: v, g: 255 - v, b: 7 }, bits);
            assert_eq!(q.r, v >> bits << bits);
            assert_eq!(q.g, (255 - v) >> bits << bits);
            assert_eq!(quantize(q, bits), q);
        }
    }
}

#[test]
fn glyph_ramps() {
    let glyphs = |palette: &str, levels: &[u8]| -> String {
        let m = AsciiMapper::new(Some(palette.chars().collect()), 0);
        let text = m.convert(&gray(levels), levels.len(), 1);
        // Keep what follows each escape.
        text.split('m').skip(1).filter_map(|p| p.chars().next()).filter(|&c| c != '\x1b').collect()
    };
    assert_eq!(glyphs("abcd", &[0, 63, 64, 127, 128, 191, 192, 255]), "aabbccdd");
    assert_eq!(glyphs("abc", &[0, 84, 85, 169, 170, 254]), "aabbcc");
    assert_eq!(glyphs("a", &[0, 1, 255]), "aaa");
    let long: Vec<char> = (0..300u32).map(|i| char::from_u32(0x4E00 + i).unwrap()).collect();
    let m = AsciiMapper::new(Some(long.clone()), 0);
    assert_eq!(m.levels(), 300);
    assert!(m.convert(&gray(&[255]), 1, 1).contains(long[255]));
    assert_eq!(AsciiMapper::new(Some(Vec::new()), 0).levels(), 93);
    assert_eq!(AsciiMapper::new(None, 0).levels(), 93);
}

#[test]
fn the_default_ramp() {
    let m = AsciiMapper::new(None, 0);
    let glyph = |v: u8| {
        let text = m.convert(&gray(&[v]), 1, 1);
        let (_, rest) = text[4..].split_once('m').unwrap();
        rest.chars().next().unwrap()
    };
    assert_eq!(glyph(0), ' ');
    assert_eq!(glyph(18), '=');
    assert_eq!((glyph(36), glyph(38), glyph(40)), ('/', '\\', 'z'));
    assert_eq!(glyph(183), '&');
    assert_eq!((glyph(184), glyph(255)), ('@', '@'));
    let mut ramp: Vec<char> = DEFAULT_PALETTE.chars().collect();
    assert_eq!(ramp.len(), 93);
    ramp.sort();
    ramp.dedup();
    assert_eq!(ramp.len(), 93);
}

#[test]
fn ascii_frames() {
    let m = AsciiMapper::new(Some(vec![' ', '#']), 0);
    assert_eq!(
        m.convert(&gray(&[0, 0, 255, 255]), 2, 2),
        "\x1b[0m\x1b[38;2;0;0;0m  \n\x1b[38;2;255;255;255m##\x1b[0m"
    );
    // The color in force is kept across a row's end.
    assert_eq!(m.convert(&gray(&[9, 9]), 1, 2), "\x1b[0m\x1b[38;2;9;9;9m \n \x1b[0m");
    assert_eq!(m.convert(&[], 0, 0), "\x1b[0m\x1b[0m");
}

#[test]
fn dots_of_a_cell() {
    let bits = [[0x01, 0x02, 0x04, 0x40], [0x08, 0x10, 0x20, 0x80]];
    for dx in 0..2 {
        for dy in 0..4 {
            assert_eq!(dot_bit(dx, dy), bits[dx][dy]);
        }
    }
}

#[test]
fn thresholds() {
    assert_eq!(threshold_plane(&gray(&[0, 49, 50, 51]), 2, 2, 50), vec![false, false, true, true]);
    assert_eq!(threshold_plane(&gray(&[0, 255]), 2, 1, 0), vec![true, true]);
    let frame = noise(48);
    for t in 0..255u8 {
        let more = threshold_plane(&frame, 4, 4, t);
        let less = threshold_plane(&frame, 4, 4, t + 1);
        assert!(less.iter().zip(&more).all(|(l, m)| !l || *m));
    }
}

#[test]
fn errors_are_diffused() {
    // 100 is dark, its error 100 gives 43 to the right: 143 is lit, error -112;
    // that takes 49 from the next: 51 is dark.
    assert_eq!(dither_plane(&gray(&[100, 100, 100]), 3, 1, 128), vec![false, true, false]);
    // Above right 3/16, below 5/16, below right 1/16, all rounded toward zero.
    assert_eq!(
        dither_plane(&gray(&[127, 127, 127, 120, 110, 127]), 3, 2, 128),
        vec![false, true, false, true, false, true]
    );
    // Black and white lose nothing, however they are mixed.
    assert_eq!(dither_plane(&gray(&[0, 255, 255, 0]), 2, 2, 128), vec![false, true, true, false]);
    for t in [1, 50, 128, 255] {
        let levels: Vec<u8> = noise(35).iter().map(|v| if *v > 100 { 255 } else { 0 }).collect();
        let lit: Vec<bool> = levels.iter().map(|v| *v == 255).collect();
        assert_eq!(dither_plane(&gray(&levels), 7, 5, t), lit);
    }
}

#[test]
fn braille_frames() {
    let m = BrailleMapper::new(128, false, 0);
    let mut levels = [0u8; 8];
    levels[0] = 200;
    levels[7] = 100;
    assert_eq!(m.convert(&gray(&levels), 1, 1), "\x1b[0m\x1b[38;2;200;200;200m⠁\x1b[0m");
    // None lit: the average of all eight.
    assert_eq!(m.convert(&gray(&[80, 80, 80, 80, 0, 0, 0, 0]), 1, 1), "\x1b[0m\x1b[38;2;40;40;40m⠀\x1b[0m");
    // Two cells side by side, and one below the other.
    let wide = gray(&[255, 255, 0, 0, 255, 255, 0, 0, 255, 255, 0, 0, 255, 255, 0, 0]);
    assert_eq!(
        m.convert(&wide, 2, 1),
        "\x1b[0m\x1b[38;2;255;255;255m⣿\x1b[38;2;0;0;0m⠀\x1b[0m"
    );
    let high = gray(&[255, 0, 255, 0, 255, 0, 255, 0, 0, 255, 0, 255, 0, 255, 0, 255]);
    assert_eq!(m.convert(&high, 1, 2), "\x1b[0m\x1b[38;2;255;255;255m⡇\n⢸\x1b[0m");
}

#[test]
fn half_block_frames() {
    let m = HalfBlockMapper::new(0);
    assert_eq!(
        m.convert(&gray(&[1, 2, 3, 4]), 1, 2),
        "\x1b[0m\x1b[38;2;1;1;1;48;2;2;2;2m▀\x1b[0m\n\x1b[0m\x1b[38;2;3;3;3;48;2;4;4;4m▀\x1b[0m"
    );
    assert_eq!(m.convert(&[], 0, 0), "");
}

#[test]
fn coarser_colors_send_fewer_escapes() {
    let frame = gray(&(0..64).map(|i| i * 4).collect::<Vec<u8>>());
    let count = |make: &dyn Fn(u32) -> Mapper, w: usize, h: usize| {
        let sent: Vec<usize> = (0..8).map(|q| escapes(&make(q).convert(&frame, w, h))).collect();
        assert!(sent.windows(2).all(|p| p[1] <= p[0]), "{sent:?}");
        assert!(sent[7] < sent[0], "{sent:?}");
    };
    count(&|q| Mapper::Ascii(AsciiMapper::new(None, q)), 8, 8);
    count(&|q| Mapper::Braille(BrailleMapper::new(0, false, q)), 4, 2);
    count(&|q| Mapper::HalfBlock(HalfBlockMapper::new(q)), 8, 4);
}
