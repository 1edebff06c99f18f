//! Sizing: the grid that keeps the video's aspect and fits the terminal, and
//! where it stands there.

use crate::text::{
    chars_of, decimal, is_blank, is_white_space, law_decimal_reads_back, law_words_read_back,
    parse_u32, pieces, u32_value, words, words_of,
};
use vstd::math::{max, min};
use vstd::prelude::*;

verus! {

/// Video orientation, derived from the source dimensions. Drives the
/// aspect-preserving sizing branch and the info splash.
#[derive(Clone, Copy, Debug, PartialEq, Eq, Structural)]
pub enum Orientation {
    Portrait,
    Landscape,
}

impl Orientation {
    /// Taller than wide is portrait.
    pub open spec fn classified(width: u32, height: u32) -> Orientation {
        if height > width {
            Orientation::Portrait
        } else {
            Orientation::Landscape
        }
    }

    /// Classify by dimensions: taller than wide is portrait.
    pub fn of(width: u32, height: u32) -> (o: Orientation)
        ensures
            o == Orientation::classified(width, height),
    {
        if height > width {
            Orientation::Portrait
        } else {
            Orientation::Landscape
        }
    }

    /// The orientation's name on the info screen.
    pub open spec fn name(&self) -> Seq<char> {
        match self {
            Orientation::Portrait => "PORTRAIT"@,
            Orientation::Landscape => "LANDSCAPE"@,
        }
    }

    pub fn label(self) -> (s: &'static str)
        ensures
            s@ == self.name(),
    {
        match self {
            Orientation::Portrait => "PORTRAIT",
            Orientation::Landscape => "LANDSCAPE",
        }
    }
}

fn at_least_one(v: i64) -> (r: i64)
    ensures
        r == max(v as int, 1),
{
    if v >= 1 {
        v
    } else {
        1
    }
}

/// The grid sizes that keep the video's aspect, rounded down: the rows that go
/// with the fixed width, the rows that go with the widest width that is tried,
/// and the columns that go with the usable lines.
#[derive(Clone, Copy, Debug)]
pub struct AspectSizes {
    pub rows_at_fixed: i64,
    pub rows_at_widest: i64,
    pub cols_at_lines: i64,
}

/// The widest grid that is tried: the terminal's width, up to 160 columns.
pub open spec fn widest(t_cols: u32) -> int {
    min(t_cols as int, 160)
}

/// The widest grid that is tried. Some terminals struggle above 160 columns.
pub fn safe_cols(t_cols: u32) -> (c: i64)
    ensures
        c == widest(t_cols),
{
    if t_cols <= 160 {
        t_cols as i64
    } else {
        160
    }
}

/// The lines that the terminal leaves for the video and its subtitles.
pub open spec fn usable(t_lines_raw: u32) -> int {
    t_lines_raw - 2
}

/// The lines that the terminal leaves for the video and its subtitles.
pub fn usable_lines(t_lines_raw: u32) -> (l: i64)
    ensures
        l == usable(t_lines_raw),
{
    t_lines_raw as i64 - 2
}

/// Columns and rows of the grid: of the fixed width if one is given; else as
/// wide as possible for a landscape video and as high as possible for a portrait
/// video, and if that leaves the terminal in the other direction, as large as
/// that direction allows.
pub open spec fn grid(
    orientation: Orientation,
    cols_arg: u32,
    t_cols: u32,
    t_lines: int,
    sizes: AspectSizes,
) -> (int, int) {
    if cols_arg > 0 {
        (cols_arg as int, max(sizes.rows_at_fixed as int, 1))
    } else if orientation == Orientation::Landscape {
        if max(sizes.rows_at_widest as int, 1) > t_lines {
            (max(sizes.cols_at_lines as int, 1), max(t_lines, 1))
        } else {
            (max(widest(t_cols), 1), max(sizes.rows_at_widest as int, 1))
        }
    } else {
        if max(sizes.cols_at_lines as int, 1) > widest(t_cols) {
            (max(widest(t_cols), 1), max(sizes.rows_at_widest as int, 1))
        } else {
            (max(sizes.cols_at_lines as int, 1), max(t_lines, 1))
        }
    }
}

/// What a 32-bit number keeps of `v`.
pub open spec fn low_32(v: int) -> u32 {
    (v % 0x1_0000_0000) as u32
}

fn keep_32(v: i64) -> (r: u32)
    requires
        v >= 0,
    ensures
        r == low_32(v as int),
{
    assert(v >= 0 ==> v as u32 == v % 0x1_0000_0000i64) by (bit_vector);
    #[verifier::truncate]
    (v as u32)
}

/// Columns and rows of the grid.
pub fn fit_grid(
    orientation: Orientation,
    cols_arg: u32,
    t_cols: u32,
    t_lines_raw: u32,
    sizes: AspectSizes,
) -> (g: (u32, u32))
    ensures
        g.0 == low_32(grid(orientation, cols_arg, t_cols, usable(t_lines_raw), sizes).0),
        g.1 == low_32(grid(orientation, cols_arg, t_cols, usable(t_lines_raw), sizes).1),
{
    let t_lines: i64 = usable_lines(t_lines_raw);
    let (cols, rows): (i64, i64) = if cols_arg > 0 {
        (cols_arg as i64, at_least_one(sizes.rows_at_fixed))
    } else {
        let widest_cols: i64 = safe_cols(t_cols);
        match orientation {
            Orientation::Landscape => {
                let rows: i64 = at_least_one(sizes.rows_at_widest);
                if rows > t_lines {
                    (at_least_one(sizes.cols_at_lines), t_lines)
                } else {
                    (widest_cols, rows)
                }
            },
            Orientation::Portrait => {
                let cols: i64 = at_least_one(sizes.cols_at_lines);
                if cols > widest_cols {
                    (widest_cols, at_least_one(sizes.rows_at_widest))
                } else {
                    (cols, t_lines)
                }
            },
        }
    };
    (keep_32(at_least_one(cols)), keep_32(at_least_one(rows)))
}

/// Half of what a terminal of size `total` leaves beside a grid of size `used`.
pub open spec fn margin(total: int, used: int) -> int {
    if total > used {
        (total - used) / 2
    } else {
        0
    }
}

/// Where the frame stands on the terminal.
#[derive(Clone, Copy, Debug)]
pub struct Layout {
    /// Terminal-cell grid dimensions.
    pub cols: u32,
    pub rows: u32,
    /// Sub-pixel grid the decoder scales to.
    pub sub_cols: u32,
    pub sub_rows: u32,
    /// Empty lines above the frame, and empty columns to the left of it.
    pub pad_y: usize,
    pub pad_x: usize,
    /// Usable terminal size, for absolute-positioning the subtitle band.
    pub term_cols: usize,
    pub term_lines: usize,
}

impl Layout {
    /// The terminal has at least one cell, and the padding is part of it.
    pub open spec fn well_formed(&self) -> bool {
        &&& 1 <= self.term_cols
        &&& 1 <= self.term_lines
        &&& 2 * self.pad_x <= self.term_cols
        &&& 2 * self.pad_y <= self.term_lines
        &&& self.term_lines <= u32::MAX
    }

    /// A grid of `cols × rows` cells in the middle of the usable terminal.
    pub open spec fn around(
        cols: u32,
        rows: u32,
        scale: (nat, nat),
        t_cols: u32,
        t_lines_raw: u32,
    ) -> Layout {
        Layout {
            cols,
            rows,
            sub_cols: (cols * scale.0) as u32,
            sub_rows: (rows * scale.1) as u32,
            pad_y: margin(usable(t_lines_raw), rows as int) as usize,
            pad_x: margin(t_cols as int, cols as int) as usize,
            term_cols: max(t_cols as int, 1) as usize,
            term_lines: max(usable(t_lines_raw), 1) as usize,
        }
    }

    /// Centers a grid of `cols × rows` cells of `scale` sub-pixels each.
    pub fn centered(
        cols: u32,
        rows: u32,
        scale: (usize, usize),
        t_cols: u32,
        t_lines_raw: u32,
    ) -> (l: Layout)
        requires
            cols * scale.0 <= u32::MAX,
            rows * scale.1 <= u32::MAX,
            scale.0 <= u32::MAX,
            scale.1 <= u32::MAX,
        ensures
            l.well_formed(),
            l == Layout::around(
                cols,
                rows,
                (scale.0 as nat, scale.1 as nat),
                t_cols,
                t_lines_raw,
            ),
    {
        let t_lines: i64 = usable_lines(t_lines_raw);
        let pad_y: usize = if t_lines > rows as i64 {
            ((t_lines - rows as i64) / 2) as usize
        } else {
            0
        };
        let pad_x: usize = if t_cols > cols {
            ((t_cols - cols) / 2) as usize
        } else {
            0
        };
        Layout {
            cols,
            rows,
            sub_cols: cols * scale.0 as u32,
            sub_rows: rows * scale.1 as u32,
            pad_y,
            pad_x,
            term_cols: if t_cols >= 1 {
                t_cols as usize
            } else {
                1
            },
            term_lines: at_least_one(t_lines) as usize,
        }
    }
}

/// The grid that a video gets on a terminal.
pub open spec fn video_grid(
    video: (u32, u32),
    terminal: (u32, u32),
    sizes: AspectSizes,
    cols_arg: u32,
) -> (u32, u32) {
    let g = grid(
        Orientation::classified(video.0, video.1),
        cols_arg,
        terminal.0,
        usable(terminal.1),
        sizes,
    );
    (low_32(g.0), low_32(g.1))
}

// ── The terminal ────────────────────────────────────────────────────────

/// The size that `stty size` reports, as columns and lines: it writes the lines
/// and then the columns. A size of zero is no size.
pub open spec fn reported_size(report: Seq<char>) -> Option<(u32, u32)> {
    let ws = words_of(report);
    if ws.len() < 2 {
        None
    } else {
        match (u32_value(ws[0]), u32_value(ws[1])) {
            (Some(lines), Some(cols)) => if cols == 0 || lines == 0 {
                None
            } else {
                Some((cols, lines))
            },
            _ => None,
        }
    }
}

/// The size that `stty size` reports, as columns and lines.
pub fn stty_size(report: &str) -> (r: Option<(u32, u32)>)
    ensures
        r == reported_size(report@),
{
    let ws = words(chars_of(report).as_slice());
    assert(pieces(ws@).len() == ws@.len());
    if ws.len() < 2 {
        return None;
    }
    assert(pieces(ws@)[0] == ws@[0]@ && pieces(ws@)[1] == ws@[1]@);
    match (parse_u32(ws[0].as_slice()), parse_u32(ws[1].as_slice())) {
        (Some(lines), Some(cols)) => {
            if cols == 0 || lines == 0 {
                None
            } else {
                Some((cols, lines))
            }
        },
        _ => None,
    }
}

/// The size that the two environment variables give.
pub open spec fn environment_size(
    columns: Option<Seq<char>>,
    lines: Option<Seq<char>>,
) -> Option<(u32, u32)> {
    match (columns, lines) {
        (Some(c), Some(l)) => match (u32_value(c), u32_value(l)) {
            (Some(cols), Some(lines)) => Some((cols, lines)),
            _ => None,
        },
        _ => None,
    }
}

/// What an optional string reads as.
pub open spec fn text_view(s: Option<&str>) -> Option<Seq<char>> {
    match s {
        Some(t) => Some(t@),
        None => None,
    }
}

/// Best-effort terminal size as (cols, lines).
///
/// Tries the report of `stty size` (the controlling tty), then the COLUMNS/LINES
/// env vars. Returns None so the caller can fall back to a sensible default.
pub fn terminal_size(
    stty_report: Option<&str>,
    columns: Option<&str>,
    lines: Option<&str>,
) -> (r: Option<(u32, u32)>)
    ensures
        r == (match stty_report {
            Some(report) => match reported_size(report@) {
                Some(size) => Some(size),
                None => environment_size(text_view(columns), text_view(lines)),
            },
            None => environment_size(text_view(columns), text_view(lines)),
        }),
{
    if let Some(report) = stty_report {
        if let Some(size) = stty_size(report) {
            return Some(size);
        }
    }
    match (columns, lines) {
        (Some(c), Some(l)) => {
            match (parse_u32(chars_of(c).as_slice()), parse_u32(chars_of(l).as_slice())) {
                (Some(cols), Some(lines)) => Some((cols, lines)),
                _ => None,
            }
        },
        _ => None,
    }
}

/// The columns that a terminal of unknown size is taken to have.
pub const FALLBACK_COLS: u32 = 220;

/// The lines that a terminal of unknown size is taken to have.
pub const FALLBACK_LINES: u32 = 50;

// ── Laws ────────────────────────────────────────────────────────────────

impl AspectSizes {
    /// What holds of sizes that one aspect gives: what is too high at the widest
    /// width is not too wide at the usable lines, and where there is no room in
    /// one direction there is none in the other.
    pub open spec fn of_one_aspect(&self, t_cols: u32, t_lines: int) -> bool {
        &&& self.rows_at_widest <= t_lines || self.cols_at_lines <= widest(t_cols)
        &&& t_lines <= 0 ==> self.cols_at_lines <= 0
        &&& widest(t_cols) <= 0 ==> self.rows_at_widest <= 0
    }
}

/// A grid that is not of a fixed width has at least one cell and fits the
/// terminal: it is no wider than the terminal or 160 columns, and leaves the last
/// two lines free.
pub proof fn law_grid_fits_terminal(video: (u32, u32), terminal: (u32, u32), sizes: AspectSizes)
    requires
        sizes.of_one_aspect(terminal.0, usable(terminal.1)),
    ensures
        ({
            let g = video_grid(video, terminal, sizes, 0);
            &&& 1 <= g.0 <= max(widest(terminal.0), 1)
            &&& 1 <= g.1 <= max(usable(terminal.1), 1)
        }),
{
}

/// A fixed width is honoured, whatever the terminal.
pub proof fn law_fixed_width_is_kept(
    video: (u32, u32),
    terminal: (u32, u32),
    sizes: AspectSizes,
    cols_arg: u32,
)
    requires
        cols_arg > 0,
    ensures
        video_grid(video, terminal, sizes, cols_arg).0 == cols_arg,
{
}

/// A grid that fits is centered: what the terminal leaves beside it is the same
/// on both sides, up to one column, and above and below it, up to one line.
pub proof fn law_grid_is_centered(
    cols: u32,
    rows: u32,
    scale: (nat, nat),
    t_cols: u32,
    t_lines_raw: u32,
)
    requires
        cols <= t_cols,
        rows <= usable(t_lines_raw),
    ensures
        ({
            let l = Layout::around(cols, rows, scale, t_cols, t_lines_raw);
            &&& 0 <= t_cols - l.cols - 2 * l.pad_x <= 1
            &&& 0 <= usable(t_lines_raw) - l.rows - 2 * l.pad_y <= 1
        }),
{
}

/// What is not fixed is as large as the terminal allows: a landscape video takes the
/// whole width wherever it then fits in height, a portrait video the whole height
/// wherever it then fits in width, and otherwise the other direction is filled. The
/// other size is the one that keeps the aspect.
pub proof fn law_grid_fills_the_terminal(
    video: (u32, u32),
    terminal: (u32, u32),
    sizes: AspectSizes,
)
    requires
        sizes.of_one_aspect(terminal.0, usable(terminal.1)),
        terminal.0 > 0,
        terminal.1 > 2,
    ensures
        ({
            let (cols, rows) = video_grid(video, terminal, sizes, 0);
            let widest_cols = if terminal.0 < 160 {
                terminal.0 as int
            } else {
                160
            };
            let all_lines = terminal.1 - 2;
            let wide_fits = sizes.rows_at_widest <= all_lines;
            let high_fits = sizes.cols_at_lines <= widest_cols;
            &&& video.1 <= video.0 && wide_fits ==> cols == widest_cols && rows == max(
                sizes.rows_at_widest as int,
                1,
            )
            &&& video.1 <= video.0 && !wide_fits ==> rows == all_lines && cols == max(
                sizes.cols_at_lines as int,
                1,
            )
            &&& video.1 > video.0 && high_fits ==> rows == all_lines && cols == max(
                sizes.cols_at_lines as int,
                1,
            )
            &&& video.1 > video.0 && !high_fits ==> cols == widest_cols && rows == max(
                sizes.rows_at_widest as int,
                1,
            )
        }),
{
}

/// With a fixed width the rows are those that keep the aspect, whatever the
/// terminal.
pub proof fn law_fixed_width_keeps_aspect(
    video: (u32, u32),
    terminal: (u32, u32),
    sizes: AspectSizes,
    cols_arg: u32,
)
    requires
        cols_arg > 0,
        sizes.rows_at_fixed <= u32::MAX,
    ensures
        video_grid(video, terminal, sizes, cols_arg).1 == max(sizes.rows_at_fixed as int, 1),
{
}

/// What a layout holds: the grid, the sub-pixels that its cells stand for, and the
/// usable terminal. A grid that is too large is not moved.
pub proof fn law_layout_fields(
    cols: u32,
    rows: u32,
    scale: (nat, nat),
    t_cols: u32,
    t_lines_raw: u32,
)
    requires
        cols * scale.0 <= u32::MAX,
        rows * scale.1 <= u32::MAX,
    ensures
        ({
            let l = Layout::around(cols, rows, scale, t_cols, t_lines_raw);
            &&& l.cols == cols
            &&& l.rows == rows
            &&& l.sub_cols == cols * scale.0
            &&& l.sub_rows == rows * scale.1
            &&& l.term_cols == max(t_cols as int, 1)
            &&& l.term_lines == max(t_lines_raw - 2, 1)
            &&& cols >= t_cols ==> l.pad_x == 0
            &&& rows >= t_lines_raw - 2 ==> l.pad_y == 0
        }),
{
    assert(cols * scale.0 >= 0 && rows * scale.1 >= 0) by (nonlinear_arith)
        requires
            cols >= 0,
            rows >= 0,
            scale.0 >= 0,
            scale.1 >= 0,
    ;
}

/// The size that `stty size` writes is read back, the lines before the columns, with
/// whatever white space around and behind; a size of zero is none.
pub proof fn law_stty_size_is_read(
    pre: Seq<char>,
    lines: u32,
    gap: Seq<char>,
    cols: u32,
    tail: Seq<char>,
)
    requires
        is_blank(pre),
        is_blank(gap),
        gap.len() > 0,
        tail.len() == 0 || is_white_space(tail[0]),
    ensures
        reported_size(pre + decimal(lines as nat) + (gap + decimal(cols as nat) + tail)) == (if lines
            == 0 || cols == 0 {
            None
        } else {
            Some((cols, lines))
        }),
{
    let (l, c) = (decimal(lines as nat), decimal(cols as nat));
    law_decimal_reads_back(lines as nat);
    law_decimal_reads_back(cols as nat);
    assert forall|i: int| 0 <= i < l.len() implies !is_white_space(#[trigger] l[i]) by {}
    assert forall|i: int| 0 <= i < c.len() implies !is_white_space(#[trigger] c[i]) by {}
    assert(is_white_space(gap[0]));
    law_words_read_back(pre, l, gap + c + tail);
    law_words_read_back(gap, c, tail);
    let ws = words_of(pre + l + (gap + c + tail));
    assert(ws[0] == l && ws[1] == c);
}

/// Without a second number there is no size.
pub proof fn law_stty_size_needs_two_numbers(pre: Seq<char>, word: Seq<char>, gap: Seq<char>)
    requires
        is_blank(pre),
        is_blank(gap),
        forall|i: int| 0 <= i < word.len() ==> !is_white_space(#[trigger] word[i]),
    ensures
        reported_size(pre) is None,
        reported_size(pre + word + gap) is None,
{
    law_words_read_back(pre, Seq::empty(), Seq::empty());
    law_words_read_back(gap, Seq::empty(), Seq::empty());
    if word.len() > 0 {
        assert(gap.len() == 0 || is_white_space(gap[0]));
        law_words_read_back(pre, word, gap);
    } else {
        let s = pre + word + gap;
        assert forall|i: int| 0 <= i < s.len() implies is_white_space(#[trigger] s[i]) by {
            if i < pre.len() {
                assert(s[i] == pre[i]);
            } else {
                assert(s[i] == gap[i - pre.len()]);
            }
        }
        law_words_read_back(s, Seq::empty(), Seq::empty());
    }
}

/// The environment gives a size where both variables are numbers: the columns and
/// then the lines.
pub proof fn law_environment_size_is_read(cols: u32, lines: u32)
    ensures
        environment_size(Some(decimal(cols as nat)), Some(decimal(lines as nat))) == Some(
            (cols, lines),
        ),
        environment_size(None, Some(decimal(lines as nat))) is None,
        environment_size(Some(decimal(cols as nat)), None) is None,
{
    law_decimal_reads_back(cols as nat);
    law_decimal_reads_back(lines as nat);
}

/// A terminal without room gets a grid of one cell.
pub proof fn law_tiny_terminal(video: (u32, u32), terminal: (u32, u32), sizes: AspectSizes)
    requires
        sizes.of_one_aspect(terminal.0, usable(terminal.1)),
        terminal.0 == 0 || terminal.1 <= 2,
    ensures
        video_grid(video, terminal, sizes, 0) == (1u32, 1u32),
{
}

/// What a terminal offers: its columns up to 160, and all its lines but two.
pub proof fn law_room_of_a_terminal(t_cols: u32, t_lines_raw: u32)
    ensures
        t_cols <= 160 ==> widest(t_cols) == t_cols,
        t_cols > 160 ==> widest(t_cols) == 160,
        usable(t_lines_raw) + 2 == t_lines_raw,
        FALLBACK_COLS == 220,
        FALLBACK_LINES == 50,
{
}

/// A size needs two numbers, and of what else follows nothing matters.
pub proof fn law_stty_size_of_words(
    pre: Seq<char>,
    a: Seq<char>,
    gap: Seq<char>,
    b: Seq<char>,
    tail: Seq<char>,
)
    requires
        is_blank(pre),
        is_blank(gap),
        gap.len() > 0,
        tail.len() == 0 || is_white_space(tail[0]),
        a.len() > 0,
        b.len() > 0,
        forall|i: int| 0 <= i < a.len() ==> !is_white_space(#[trigger] a[i]),
        forall|i: int| 0 <= i < b.len() ==> !is_white_space(#[trigger] b[i]),
    ensures
        ({
            let size = reported_size(pre + a + (gap + b + tail));
            &&& u32_value(a) is None || u32_value(b) is None ==> size is None
            &&& size matches Some((cols, lines)) ==> u32_value(a) == Some(lines) && u32_value(b)
                == Some(cols)
        }),
{
    assert(is_white_space(gap[0]));
    law_words_read_back(pre, a, gap + b + tail);
    law_words_read_back(gap, b, tail);
    let ws = words_of(pre + a + (gap + b + tail));
    assert(ws[0] == a && ws[1] == b);
}

/// What is no number in the environment gives no size.
pub proof fn law_environment_size_needs_numbers(columns: Seq<char>, lines: Seq<char>)
    ensures
        u32_value(columns) is None || u32_value(lines) is None ==> environment_size(
            Some(columns),
            Some(lines),
        ) is None,
        environment_size(Some(columns), Some(lines)) matches Some((c, l)) ==> u32_value(columns)
            == Some(c) && u32_value(lines) == Some(l),
{
}

} // verus!
