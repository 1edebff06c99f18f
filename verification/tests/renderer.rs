use vlscii::band::truncate_to_width;
use vlscii::binary64::Binary64;
use vlscii::layout::{fit_grid, stty_size, terminal_size, AspectSizes, Layout, Orientation};
use vlscii::renderer::{pad_frame, RenderMode, TerminalRenderer};
use vlscii::subtitles::{Cue, Subtitles};

fn number(v: f64) -> Binary64 {
    Binary64 { bits: v.to_bits() }
}

/// The sizes of a video of the given aspect (height over width) on a terminal.
fn sizes(aspect: f64, t_cols: u32, t_lines_raw: u32, cols_arg: u32) -> AspectSizes {
    let widest = (t_cols as i64).min(160);
    let lines = t_lines_raw as i64 - 2;
    AspectSizes {
        rows_at_fixed: (cols_arg as f64 * aspect * 0.45) as i64,
        rows_at_widest: (widest as f64 * aspect * 0.45) as i64,
        cols_at_lines: (lines as f64 / (aspect * 0.45)) as i64,
    }
}

fn grid(video: (u32, u32), terminal: (u32, u32), cols_arg: u32) -> (u32, u32) {
    let s = sizes(video.1 as f64 / video.0 as f64, terminal.0, terminal.1, cols_arg);
    fit_grid(Orientation::of(video.0, video.1), cols_arg, terminal.0, terminal.1, s)
}

fn renderer(
    video: (u32, u32),
    terminal: (u32, u32),
    cols_arg: u32,
    mode: RenderMode,
    subtitles: Option<Subtitles>,
) -> TerminalRenderer {
    let s = sizes(video.1 as f64 / video.0 as f64, terminal.0, terminal.1, cols_arg);
    TerminalRenderer::new(video, terminal, s, None, 0, cols_arg, mode, 50, true, subtitles)
}

fn cue(start: f64, end: f64, lines: &[&str]) -> Cue {
    Cue {
        start: number(start),
        end: number(end),
        lines: lines.iter().map(|l| l.to_string()).collect(),
    }
}

#[test]
fn labels() {
    assert_eq!(RenderMode::Ascii.label(), "ASCII (glyph ramp)");
    assert_eq!(RenderMode::Braille.label(), "BRAILLE (2×4 dots)");
    assert_eq!(RenderMode::HalfBlock.label(), "HALF-BLOCK (1×2, 2 colors)");
    assert_eq!(Orientation::of(3, 4).label(), "PORTRAIT");
    assert_eq!(Orientation::of(4, 3).label(), "LANDSCAPE");
    assert_eq!(Orientation::of(4, 4), Orientation::Landscape);
}

#[test]
fn long_lines_are_cut() {
    assert_eq!(truncate_to_width("short", 10), "short");
    assert_eq!(truncate_to_width("exact", 5), "exact");
    assert_eq!(truncate_to_width("too long", 5), "too …");
    assert_eq!(truncate_to_width("übergroß", 4), "übe…");
    assert_eq!(truncate_to_width("ab", 1), "…");
    assert_eq!(truncate_to_width("ab", 0), "");
    assert_eq!(truncate_to_width("a", 0), "");
    assert_eq!(truncate_to_width("", 0), "");
}

#[test]
fn grids_keep_the_aspect() {
    // 16:9 on a wide terminal: as wide as allowed.
    assert_eq!(grid((1920, 1080), (200, 60), 0), (160, 40));
    // Too high for the terminal: as high as it allows.
    assert_eq!(grid((1920, 1080), (200, 30), 0), (110, 28));
    // Portrait: as high as possible, unless that is too wide.
    assert_eq!(grid((1080, 1920), (80, 42), 0), (50, 40));
    assert_eq!(grid((1080, 1920), (20, 42), 0), (20, 16));
    // A fixed width.
    assert_eq!(grid((1920, 1080), (80, 24), 120), (120, 30));
    assert_eq!(grid((1920, 1080), (80, 24), 1), (1, 1));
    // Hardly any terminal.
    assert_eq!(grid((1920, 1080), (0, 0), 0), (1, 1));
    assert_eq!(grid((1080, 1920), (1, 3), 0), (1, 1));
}

#[test]
fn grids_fit_the_terminal() {
    for video in [(1920, 1080), (1080, 1920), (640, 640), (1, 4000), (4000, 1)] {
        for cols in [0, 1, 2, 79, 80, 160, 161, 400] {
            for lines in [0, 1, 2, 3, 24, 50, 1000] {
                let (c, r) = grid(video, (cols, lines), 0);
                assert!(1 <= c && c <= cols.min(160).max(1), "{video:?} {cols} {lines}");
                assert!(1 <= r && r <= lines.saturating_sub(2).max(1), "{video:?} {cols} {lines}");
            }
        }
    }
}

#[test]
fn frames_are_centered() {
    let l = Layout::centered(110, 28, (2, 4), 201, 41);
    assert_eq!((l.cols, l.rows, l.sub_cols, l.sub_rows), (110, 28, 220, 112));
    assert_eq!((l.pad_x, l.pad_y), (45, 5));
    assert_eq!((l.term_cols, l.term_lines), (201, 39));
    let l = Layout::centered(120, 50, (1, 1), 80, 1);
    assert_eq!((l.pad_x, l.pad_y, l.term_cols, l.term_lines), (0, 0, 80, 1));
    assert_eq!(Layout::centered(1, 1, (1, 1), 0, 0).term_cols, 1);
}

#[test]
fn padding_moves_every_row() {
    assert_eq!(pad_frame("ab\ncd\n", 2, 1), "\n  ab\n  cd\n  ");
    assert_eq!(pad_frame("ab\ncd", 0, 2), "\n\nab\ncd");
    assert_eq!(pad_frame("ab\ncd", 1, 0), " ab\n cd");
    assert_eq!(pad_frame("", 3, 0), "   ");
    assert_eq!(pad_frame("ab", 0, 0), "ab");
}

#[test]
fn terminal_sizes() {
    assert_eq!(stty_size("24 80\n"), Some((80, 24)));
    assert_eq!(stty_size("24 80 7"), Some((80, 24)));
    assert_eq!(stty_size("0 80"), None);
    assert_eq!(stty_size("24 0"), None);
    assert_eq!(stty_size("24"), None);
    assert_eq!(stty_size("x 80"), None);
    assert_eq!(terminal_size(Some("24 80"), Some("1"), Some("2")), Some((80, 24)));
    assert_eq!(terminal_size(Some("0 0"), Some("100"), Some("40")), Some((100, 40)));
    assert_eq!(terminal_size(None, Some("100"), Some("0")), Some((100, 0)));
    assert_eq!(terminal_size(None, Some(" 100"), Some("40")), None);
    assert_eq!(terminal_size(None, None, Some("40")), None);
    assert_eq!(terminal_size(None, Some("100"), None), None);
}

#[test]
fn a_frame_is_rendered_in_its_place() {
    // A 2×1 grid on a terminal of 6 columns and 7 lines.
    let mut r = renderer((2, 1), (6, 7), 2, RenderMode::HalfBlock, None);
    let l = r.placement();
    assert_eq!((l.cols, l.rows, l.sub_cols, l.sub_rows), (2, 1, 2, 2));
    let rgb = [1, 2, 3, 1, 2, 3, 4, 5, 6, 4, 5, 6];
    assert_eq!(
        r.render_frame(&rgb, number(0.0)),
        "\x1b[H\n\n  \x1b[0m\x1b[38;2;1;2;3;48;2;4;5;6m▀▀\x1b[0m"
    );
}

#[test]
fn subtitles_are_drawn_and_cleared() {
    let subs = Subtitles::from_cues(vec![
        cue(1.0, 2.0, &["one", "two", "three"]),
        cue(3.0, 4.0, &["far too long for this"]),
    ]);
    let mut r = renderer((2, 1), (10, 8), 2, RenderMode::Ascii, Some(subs));
    let mut out = String::new();
    r.append_subtitles(&mut out, number(0.0));
    assert_eq!(out, "");
    r.append_subtitles(&mut out, number(1.5));
    assert_eq!(
        out,
        "\x1b[5;1H\x1b[2K\x1b[5;4Hone\x1b[0m\x1b[6;1H\x1b[2K\x1b[6;4Htwo\x1b[0m"
    );
    let mut out = String::from("frame");
    r.append_subtitles(&mut out, number(3.5));
    assert_eq!(out, "frame\x1b[5;1H\x1b[2K\x1b[6;1H\x1b[2K\x1b[6;1Hfar too l…\x1b[0m");
    let mut out = String::new();
    r.append_subtitles(&mut out, number(4.5));
    assert_eq!(out, "\x1b[6;1H\x1b[2K");
    let mut out = String::new();
    r.append_subtitles(&mut out, number(4.6));
    assert_eq!(out, "");
}

#[test]
fn a_shallow_band_shows_fewer_lines() {
    let subs = Subtitles::from_cues(vec![cue(0.0, 9.0, &["one", "two"])]);
    // One free row below the video.
    let mut r = renderer((2, 1), (10, 4), 2, RenderMode::Ascii, Some(subs));
    let l = r.placement();
    assert_eq!((l.rows, l.pad_y, l.term_lines), (1, 0, 2));
    let mut out = String::new();
    r.append_subtitles(&mut out, number(1.0));
    assert_eq!(out, "\x1b[2;1H\x1b[2K\x1b[2;4Hone\x1b[0m");
}

#[test]
fn subtitles_never_cover_the_video() {
    // The video fills the usable terminal, or is higher than it.
    for (lines, cols_arg) in [(3, 2), (10, 60), (0, 2)] {
        let subs = Subtitles::from_cues(vec![cue(0.0, 1.0, &["one", "two"])]);
        let mut r = renderer((4, 3), (10, lines), cols_arg, RenderMode::Ascii, Some(subs));
        let l = r.placement();
        assert!(l.pad_y + l.rows as usize >= l.term_lines);
        let mut out = String::new();
        r.append_subtitles(&mut out, number(0.5));
        r.append_subtitles(&mut out, number(2.0));
        assert_eq!(out, "");
    }
    // A portrait video that fits the terminal's height.
    let subs = Subtitles::from_cues(vec![cue(0.0, 1.0, &["one"])]);
    let mut r = renderer((1080, 1920), (80, 42), 0, RenderMode::Ascii, Some(subs));
    let l = r.placement();
    assert_eq!((l.pad_y, l.rows, l.term_lines), (0, 40, 40));
    let mut out = String::new();
    r.append_subtitles(&mut out, number(0.5));
    assert_eq!(out, "");
}

#[test]
fn the_info_screen() {
    let subs = Subtitles::from_cues(vec![cue(0.0, 9.0, &["one"])]);
    let r = renderer((1920, 1080), (80, 24), 0, RenderMode::Ascii, Some(subs));
    assert_eq!(
        r.info_screen("23.9"),
        "\x1b[1m[ASCII Player — True Color]\x1b[0m\n\
         \u{20} Mode        : ASCII (glyph ramp)\n\
         \u{20} Orientation : LANDSCAPE\n\
         \u{20} Video       : 1920x1080\n\
         \u{20} Grid        : 80x20 cells\n\
         \u{20} Detail      : 93 glyph levels\n\
         \u{20} FPS         : 23.9\n\
         \u{20} Quantization: 256 levels/channel\n\
         \u{20} Subtitles   : 1 cue(s)\n\
         \u{20} Exit        : Ctrl+C\n"
    );
    let r = renderer((1080, 1920), (80, 24), 0, RenderMode::Braille, None);
    let text = r.info_screen("25.0");
    assert!(text.contains("\n  Orientation : PORTRAIT\n"));
    assert!(text.contains("\n  Grid        : 27x22 cells\n"));
    assert!(text.contains("\n  Detail      : 54x88 dots, threshold 50, dithered\n"));
    assert!(text.contains("\n  Subtitles   : none\n"));
    let r = TerminalRenderer::new(
        (4, 4), (80, 24), sizes(1.0, 80, 24, 10), None, 3, 10, RenderMode::HalfBlock, 50, false, None,
    );
    let text = r.info_screen("25.0");
    assert!(text.contains("\n  Detail      : 10x8 sub-pixels, 2 colors/cell\n"));
    assert!(text.contains("\n  Quantization: 32 levels/channel\n"));
}

#[test]
fn sub_pixels_must_be_countable() {
    assert!(RenderMode::Ascii.fits(u32::MAX, u32::MAX));
    assert!(RenderMode::Braille.fits(u32::MAX / 2, u32::MAX / 4));
    assert!(!RenderMode::Braille.fits(u32::MAX / 2 + 1, 1));
    assert!(!RenderMode::Braille.fits(1, u32::MAX / 4 + 1));
    assert!(!RenderMode::HalfBlock.fits(1, u32::MAX / 2 + 1));
}
