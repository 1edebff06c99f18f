//! The subtitle band: up to two centered lines at the bottom of the terminal,
//! drawn with absolute cursor moves.

use crate::layout::Layout;
use crate::screen::RESET;
use crate::text::{chars_of, decimal, push_decimal, string_of, texts};
use vstd::math::{max, min};
use vstd::prelude::*;

verus! {

/// `s` cut to at most `width` characters, with an ellipsis for what was cut.
pub open spec fn cut(s: Seq<char>, width: nat) -> Seq<char> {
    if s.len() <= width {
        s
    } else if width == 0 {
        Seq::empty()
    } else {
        s.take(width - 1).push('…')
    }
}

/// Truncate a string to at most `max` display columns (counting `char`s, a good
/// enough proxy here), so an over-long subtitle line can't wrap or overflow.
pub fn truncate_to_width(s: &str, max: usize) -> (out: String)
    ensures
        out@ == cut(s@, max as nat),
{
    let chars = chars_of(s);
    if chars.len() <= max {
        string_of(chars.as_slice())
    } else if max == 0 {
        String::new()
    } else {
        let head = &chars.as_slice()[0..max - 1];
        assert(head@ == s@.take(max - 1));
        let mut out = string_of(head);
        out.push('…');
        out
    }
}

/// How many cue lines we're willing to draw (keeps the band shallow).
pub const MAX_SUB_LINES: usize = 2;

/// One thing done to a row of the terminal.
pub enum BandOp {
    /// Clear the row.
    Clear { row: int },
    /// Clear the row and write `line` from column `col` on.
    Draw { row: int, col: int, line: Seq<char> },
}

/// Move to the start of a row and clear it.
pub open spec fn clear_row_text(row: int) -> Seq<char> {
    "\x1b["@ + decimal(row as nat) + ";1H\x1b[2K"@
}

/// The characters that do a thing to a row.
pub open spec fn op_text(op: BandOp) -> Seq<char> {
    match op {
        BandOp::Clear { row } => clear_row_text(row),
        BandOp::Draw { row, col, line } => clear_row_text(row) + "\x1b["@ + decimal(row as nat)
            + ";"@ + decimal(col as nat) + "H"@ + line + RESET@,
    }
}

/// The row that a thing is done to.
pub open spec fn op_row(op: BandOp) -> int {
    match op {
        BandOp::Clear { row } => row,
        BandOp::Draw { row, col, line } => row,
    }
}

/// The characters that do several things, one after the other.
pub open spec fn ops_text(ops: Seq<BandOp>) -> Seq<char>
    decreases ops.len(),
{
    if ops.len() == 0 {
        Seq::empty()
    } else {
        ops_text(ops.drop_last()) + op_text(ops.last())
    }
}

impl Layout {
    /// The first row below the video, counted from 1.
    pub open spec fn band_top(&self) -> int {
        self.pad_y + self.rows + 1
    }

    /// How many rows the terminal has below the video.
    pub open spec fn band_rows(&self) -> int {
        max(self.term_lines - (self.pad_y + self.rows), 0)
    }

    /// How many of `count` lines are drawn.
    pub open spec fn drawn(&self, count: int) -> int {
        min(count, self.band_rows())
    }

    /// The column from which a line of `width` characters is centered.
    pub open spec fn centered_col(&self, width: int) -> int {
        1 + max(self.term_cols - width, 0) / 2
    }

    /// What clears the rows that `prev` lines were drawn to and `n` lines are
    /// not: both blocks end at the last row.
    pub open spec fn clear_ops(&self, prev: int, n: int) -> Seq<BandOp> {
        Seq::new(
            max(prev - n, 0) as nat,
            |i: int| BandOp::Clear { row: self.term_lines + 1 - prev + i },
        )
    }

    /// What draws the first `n` of the lines, the last of them on the last row.
    pub open spec fn draw_ops(&self, lines: Seq<Seq<char>>, n: int) -> Seq<BandOp> {
        Seq::new(
            n as nat,
            |i: int|
                BandOp::Draw {
                    row: self.term_lines + 1 - n + i,
                    col: self.centered_col(lines[i].len() as int),
                    line: lines[i],
                },
        )
    }

    /// What turns a band with `prev` lines into one with the given lines.
    pub open spec fn band_ops(&self, lines: Seq<Seq<char>>, prev: int) -> Seq<BandOp> {
        let n = self.drawn(lines.len() as int);
        self.clear_ops(prev, n) + self.draw_ops(lines, n)
    }

    /// The lines of a cue that are drawn at most, each cut to the terminal width.
    pub open spec fn display_lines(&self, lines: Seq<Seq<char>>) -> Seq<Seq<char>> {
        Seq::new(
            min(lines.len() as int, MAX_SUB_LINES as int) as nat,
            |i: int| cut(lines[i], self.term_cols as nat),
        )
    }
}

/// Append what moves to the start of a row and clears it.
fn push_clear_row(out: &mut String, row: usize)
    ensures
        final(out)@ == old(out)@ + clear_row_text(row as int),
{
    out.append("\x1b[");
    push_decimal(out, row);
    out.append(";1H\x1b[2K");
    assert(final(out)@ =~= old(out)@ + clear_row_text(row as int));
}

proof fn lemma_ops_text_add(a: Seq<BandOp>, b: Seq<BandOp>)
    ensures
        ops_text(a + b) == ops_text(a) + ops_text(b),
    decreases b.len(),
{
    if b.len() == 0 {
        assert(a + b == a);
        assert(ops_text(a) + ops_text(b) =~= ops_text(a));
    } else {
        lemma_ops_text_add(a, b.drop_last());
        assert((a + b).drop_last() == a + b.drop_last());
        assert(ops_text(a + b) =~= ops_text(a) + ops_text(b));
    }
}

/// Clear the rows that the previous frame's cue occupied but this frame's
/// doesn't — otherwise a cue that ended, or a shorter one, would leave stale text
/// lingering during silence.
fn push_clears(out: &mut String, layout: &Layout, prev: usize, n: usize)
    requires
        prev <= layout.term_lines,
    ensures
        final(out)@ == old(out)@ + ops_text(layout.clear_ops(prev as int, n as int)),
{
    let ghost ops = layout.clear_ops(prev as int, n as int);
    if prev > n {
        let count: usize = prev - n;
        assert(out@ =~= out@ + ops_text(ops.take(0)));
        for i in 0..count
            invariant
                prev <= layout.term_lines,
                n < prev,
                count == prev - n,
                ops == layout.clear_ops(prev as int, n as int),
                out@ == old(out)@ + ops_text(ops.take(i as int)),
        {
            push_clear_row(out, layout.term_lines - prev + (i + 1));
            assert(ops.take(i + 1).drop_last() == ops.take(i as int));
            assert(out@ =~= old(out)@ + ops_text(ops.take(i + 1)));
        }
        assert(ops.take(count as int) =~= ops);
    } else {
        assert(ops =~= Seq::empty());
        assert(out@ =~= out@ + ops_text(ops));
    }
}

/// Draw the first `n` lines, each on a cleared row of its own, bottom-anchored.
fn push_draws(out: &mut String, layout: &Layout, lines: &Vec<String>, n: usize)
    requires
        n <= lines@.len(),
        n <= layout.term_lines,
        1 <= layout.term_cols,
    ensures
        final(out)@ == old(out)@ + ops_text(layout.draw_ops(texts(lines@), n as int)),
{
    let ghost ops = layout.draw_ops(texts(lines@), n as int);
    assert(out@ =~= out@ + ops_text(ops.take(0)));
    for i in 0..n
        invariant
            n <= lines@.len(),
            n <= layout.term_lines,
            1 <= layout.term_cols,
            ops == layout.draw_ops(texts(lines@), n as int),
            out@ == old(out)@ + ops_text(ops.take(i as int)),
    {
        let line = chars_of(lines[i].as_str());
        assert(texts(lines@)[i as int] == line@);
        let row: usize = layout.term_lines - n + (i + 1);
        let width: usize = line.len();
        let spare: usize = if layout.term_cols > width {
            layout.term_cols - width
        } else {
            0
        };
        let col: usize = 1 + spare / 2;
        let ghost before = out@;
        // Move to (row, 1), clear the whole line, then move to the centered
        // column and print. Clearing at col 1 wipes any stale, wider cue.
        push_clear_row(out, row);
        out.append("\x1b[");
        push_decimal(out, row);
        out.append(";");
        push_decimal(out, col);
        out.append("H");
        out.append(lines[i].as_str());
        out.append(RESET);
        assert(ops[i as int] == BandOp::Draw { row: row as int, col: col as int, line: line@ });
        assert(out@ =~= before + op_text(ops[i as int]));
        assert(ops.take(i + 1).drop_last() == ops.take(i as int));
        assert(out@ =~= old(out)@ + ops_text(ops.take(i + 1)));
    }
    assert(ops.take(n as int) =~= ops);
}

/// The lines of a cue that are drawn at most, each cut to the terminal width.
pub fn shown_lines(active: &[String], layout: &Layout) -> (out: Vec<String>)
    ensures
        texts(out@) == layout.display_lines(texts(active@)),
{
    let ghost want = layout.display_lines(texts(active@));
    let mut out: Vec<String> = Vec::new();
    let count: usize = if active.len() <= MAX_SUB_LINES {
        active.len()
    } else {
        MAX_SUB_LINES
    };
    for i in 0..count
        invariant
            count == want.len(),
            count <= active@.len(),
            want == layout.display_lines(texts(active@)),
            texts(out@) =~= want.take(i as int),
    {
        let ghost before = out@;
        out.push(truncate_to_width(active[i].as_str(), layout.term_cols));
        assert(texts(active@)[i as int] == active@[i as int]@);
        assert(texts(out@) =~= texts(before).push(want[i as int]));
        assert(want.take(i + 1) =~= want.take(i as int).push(want[i as int]));
    }
    assert(want.take(count as int) =~= want);
    out
}

/// Append ANSI sequences that turn a band with `prev` lines into one with the
/// given lines, and say how many lines it has then.
pub fn push_band(out: &mut String, layout: &Layout, lines: &Vec<String>, prev: usize) -> (n: usize)
    requires
        layout.well_formed(),
        prev <= layout.term_lines,
    ensures
        final(out)@ == old(out)@ + ops_text(layout.band_ops(texts(lines@), prev as int)),
        n == layout.drawn(lines@.len() as int),
        n <= layout.band_rows(),
{
    assert(texts(lines@).len() == lines@.len());
    // The band sits at the bottom: place the last cue line on the final usable
    // row, stacking earlier lines just above it. The video occupies rows
    // pad_y+1 ..= pad_y+rows; we never draw above pad_y+rows+1.
    let video_end: u64 = layout.pad_y as u64 + layout.rows as u64;
    let last_row: u64 = layout.term_lines as u64;
    // How many rows we can actually fit in the band.
    let band_rows: u64 = if last_row > video_end {
        last_row - video_end
    } else {
        0
    };
    let n: usize = if lines.len() as u64 <= band_rows {
        lines.len()
    } else {
        band_rows as usize
    };
    let ghost start = out@;
    push_clears(out, layout, prev, n);
    push_draws(out, layout, lines, n);
    proof {
        lemma_ops_text_add(
            layout.clear_ops(prev as int, n as int),
            layout.draw_ops(texts(lines@), n as int),
        );
        assert(out@ =~= start + ops_text(layout.band_ops(texts(lines@), prev as int)));
    }
    n
}

// ── Laws ────────────────────────────────────────────────────────────────

/// A line is cut only where it is too long, and then fills the width exactly;
/// where there is any width, a cut line is the start of the line and an ellipsis.
pub proof fn law_cut_fits(s: Seq<char>, width: nat)
    ensures
        cut(s, width).len() == min(s.len() as int, width as int),
        s.len() <= width ==> cut(s, width) == s,
        s.len() > width > 0 ==> cut(s, width).last() == '…' && cut(s, width).drop_last() == s.take(
            width - 1,
        ),
{
    if s.len() > width > 0 {
        assert(cut(s, width).drop_last() =~= s.take(width - 1));
    }
}

/// The rows of a band that hold a line: the column that it starts at, and the
/// line.
pub open spec fn after_op(band: Map<int, (int, Seq<char>)>, op: BandOp) -> Map<
    int,
    (int, Seq<char>),
> {
    match op {
        BandOp::Clear { row } => band.remove(row),
        BandOp::Draw { row, col, line } => band.insert(row, (col, line)),
    }
}

/// The band after several things were done to it.
pub open spec fn after_ops(band: Map<int, (int, Seq<char>)>, ops: Seq<BandOp>) -> Map<
    int,
    (int, Seq<char>),
>
    decreases ops.len(),
{
    if ops.len() == 0 {
        band
    } else {
        after_op(after_ops(band, ops.drop_last()), ops.last())
    }
}

impl Layout {
    /// A band with the first `n` of the lines on its last `n` rows, each centered.
    pub open spec fn band_of(&self, lines: Seq<Seq<char>>, n: int) -> Map<int, (int, Seq<char>)> {
        Map::new(
            |row: int| self.term_lines - n < row <= self.term_lines,
            |row: int|
                (
                    self.centered_col(lines[row - (self.term_lines + 1 - n)].len() as int),
                    lines[row - (self.term_lines + 1 - n)],
                ),
        )
    }
}

proof fn lemma_after_ops_add(band: Map<int, (int, Seq<char>)>, a: Seq<BandOp>, b: Seq<BandOp>)
    ensures
        after_ops(band, a + b) == after_ops(after_ops(band, a), b),
    decreases b.len(),
{
    if b.len() == 0 {
        assert(a + b == a);
    } else {
        lemma_after_ops_add(band, a, b.drop_last());
        assert((a + b).drop_last() == a + b.drop_last());
    }
}

proof fn lemma_after_clears(band: Map<int, (int, Seq<char>)>, from: int, k: nat, ops: Seq<BandOp>)
    requires
        ops == Seq::new(k, |i: int| BandOp::Clear { row: from + i }),
    ensures
        after_ops(band, ops) == band.remove_keys(Set::new(|row: int| from <= row < from + k)),
    decreases k,
{
    if k == 0 {
        assert(band =~= band.remove_keys(Set::new(|row: int| from <= row < from + k)));
    } else {
        let fewer = Seq::new((k - 1) as nat, |i: int| BandOp::Clear { row: from + i });
        assert(ops.drop_last() =~= fewer);
        lemma_after_clears(band, from, (k - 1) as nat, fewer);
        assert(ops.last() == BandOp::Clear { row: from + k - 1 });
        assert(after_ops(band, ops) =~= band.remove_keys(
            Set::new(|row: int| from <= row < from + k),
        ));
    }
}

proof fn lemma_after_draws(
    layout: Layout,
    band: Map<int, (int, Seq<char>)>,
    lines: Seq<Seq<char>>,
    n: int,
    k: int,
)
    requires
        0 <= k <= n,
    ensures
        ({
            let first = layout.term_lines + 1 - n;
            let after = after_ops(band, layout.draw_ops(lines, n).take(k));
            &&& after.dom() == band.dom().union(Set::new(|row: int| first <= row < first + k))
            &&& forall|row: int|
                #![trigger after[row]]
                first <= row < first + k ==> after[row] == layout.band_of(lines, n)[row]
            &&& forall|row: int|
                #![trigger after[row]]
                !(first <= row < first + k) ==> after[row] == band[row]
        }),
    decreases k,
{
    let first = layout.term_lines + 1 - n;
    let ops = layout.draw_ops(lines, n);
    let after = after_ops(band, ops.take(k));
    if k == 0 {
        assert(after.dom() =~= band.dom().union(Set::new(|row: int| first <= row < first + k)));
    } else {
        lemma_after_draws(layout, band, lines, n, k - 1);
        assert(ops.take(k).drop_last() =~= ops.take(k - 1));
        assert(ops.take(k).last() == ops[k - 1]);
        assert(after.dom() =~= band.dom().union(Set::new(|row: int| first <= row < first + k)));
    }
}

/// Nothing stale is left in the band: whatever `prev` lines it held, afterwards
/// it holds the new lines and no others, the last of them on the last row.
pub proof fn law_band_shows_new_lines_only(
    layout: Layout,
    old_lines: Seq<Seq<char>>,
    prev: int,
    lines: Seq<Seq<char>>,
)
    requires
        prev >= 0,
    ensures
        after_ops(layout.band_of(old_lines, prev), layout.band_ops(lines, prev))
            == layout.band_of(lines, layout.drawn(lines.len() as int)),
{
    let n = layout.drawn(lines.len() as int);
    let before = layout.band_of(old_lines, prev);
    let clears = layout.clear_ops(prev, n);
    let draws = layout.draw_ops(lines, n);
    let k = max(prev - n, 0) as nat;
    let from = layout.term_lines + 1 - prev;
    lemma_after_ops_add(before, clears, draws);
    lemma_after_clears(before, from, k, clears);
    let cleared = after_ops(before, clears);
    lemma_after_draws(layout, cleared, lines, n, n);
    assert(draws.take(n) =~= draws);
    assert(after_ops(cleared, draws) =~= layout.band_of(lines, n));
}

/// What is drawn stays on the screen: its row is one of the terminal, and a line
/// that was cut to the terminal's width ends within it.
pub proof fn law_band_stays_on_screen(
    layout: Layout,
    cue: Seq<Seq<char>>,
    prev: int,
    i: int,
)
    requires
        layout.well_formed(),
        0 <= prev <= layout.term_lines,
        0 <= i < layout.band_ops(layout.display_lines(cue), prev).len(),
    ensures
        match layout.band_ops(layout.display_lines(cue), prev)[i] {
            BandOp::Clear { row } => 1 <= row <= layout.term_lines,
            BandOp::Draw { row, col, line } => {
                &&& 1 <= row <= layout.term_lines
                &&& 1 <= col
                &&& line.len() > 0 ==> col + line.len() - 1 <= layout.term_cols
            },
        },
{
    let lines = layout.display_lines(cue);
    let n = layout.drawn(lines.len() as int);
    let clears = layout.clear_ops(prev, n);
    if i >= clears.len() {
        let j = i - clears.len();
        assert(layout.band_ops(lines, prev)[i] == layout.draw_ops(lines, n)[j]);
        law_cut_fits(cue[j], layout.term_cols as nat);
    }
}

/// The subtitles never cover the video: where the terminal has no free row below
/// it, nothing is drawn.
pub proof fn law_band_stays_below_video(
    layout: Layout,
    lines: Seq<Seq<char>>,
    prev: int,
    i: int,
)
    requires
        0 <= prev <= layout.band_rows(),
        0 <= i < layout.band_ops(lines, prev).len(),
    ensures
        op_row(layout.band_ops(lines, prev)[i]) >= layout.band_top(),
{
    let n = layout.drawn(lines.len() as int);
    let clears = layout.clear_ops(prev, n);
    if i >= clears.len() {
        assert(layout.band_ops(lines, prev)[i] == layout.draw_ops(lines, n)[i - clears.len()]);
    }
}

/// The band after the given lines were shown in it, one after the other, from an
/// empty band on.
pub open spec fn band_after(layout: Layout, shown: Seq<Seq<Seq<char>>>) -> Map<
    int,
    (int, Seq<char>),
>
    decreases shown.len(),
{
    if shown.len() == 0 {
        Map::empty()
    } else {
        after_ops(
            band_after(layout, shown.drop_last()),
            layout.band_ops(shown.last(), rows_after(layout, shown.drop_last())),
        )
    }
}

/// How many rows of the band are drawn after the given lines were shown.
pub open spec fn rows_after(layout: Layout, shown: Seq<Seq<Seq<char>>>) -> int {
    if shown.len() == 0 {
        0
    } else {
        layout.drawn(shown.last().len() as int)
    }
}

/// At any point of playback the band holds the lines of the last frame, and
/// nothing of the cues before.
pub proof fn law_band_follows_playback(layout: Layout, shown: Seq<Seq<Seq<char>>>)
    requires
        shown.len() > 0,
    ensures
        band_after(layout, shown) == layout.band_of(
            shown.last(),
            layout.drawn(shown.last().len() as int),
        ),
    decreases shown.len(),
{
    let earlier = shown.drop_last();
    let prev = rows_after(layout, earlier);
    if earlier.len() > 0 {
        law_band_follows_playback(layout, earlier);
        law_band_shows_new_lines_only(layout, earlier.last(), prev, shown.last());
    } else {
        assert(band_after(layout, earlier) =~= layout.band_of(Seq::empty(), 0));
        law_band_shows_new_lines_only(layout, Seq::empty(), prev, shown.last());
    }
}

/// A cue is shown whole where it has no more lines than are ever drawn, and its
/// first lines are shown where it has more; each is shown as it is where it fits the
/// terminal's width.
pub proof fn law_cue_is_shown_whole(layout: Layout, cue: Seq<Seq<char>>, i: int)
    ensures
        cue.len() <= 2 ==> layout.display_lines(cue).len() == cue.len(),
        cue.len() > 2 ==> layout.display_lines(cue).len() == 2,
        0 <= i < layout.display_lines(cue).len() && cue[i].len() <= layout.term_cols
            ==> layout.display_lines(cue)[i] == cue[i],
        0 <= i < layout.display_lines(cue).len() && cue[i].len() > layout.term_cols > 0
            ==> layout.display_lines(cue)[i] == cue[i].take(layout.term_cols - 1).push('…'),
{
}

/// How many lines are drawn: all of them where the terminal has rows enough below
/// the video, and otherwise as many as it has rows there.
pub proof fn law_lines_drawn(layout: Layout, count: int)
    requires
        0 <= count,
    ensures
        layout.pad_y + layout.rows + count <= layout.term_lines ==> layout.drawn(count) == count,
        layout.pad_y + layout.rows <= layout.term_lines < layout.pad_y + layout.rows + count
            ==> layout.drawn(count) == layout.term_lines - layout.pad_y - layout.rows,
        layout.term_lines < layout.pad_y + layout.rows ==> layout.drawn(count) == 0,
{
}

/// Whether a line that starts at column `col`, counted from 1, stands in the middle
/// of a terminal of `width` columns: as many columns are free to its left as to its
/// right, or one less.
pub open spec fn is_centered(col: int, len: int, width: int) -> bool {
    let left = col - 1;
    let right = width - left - len;
    0 <= left && 0 <= right - left <= 1
}

/// Where the lines of a cue are drawn: below each other in their order, the last one
/// on the terminal's last row, each in the middle; and the rows that hold a line
/// afterwards are these and no others.
pub proof fn law_lines_are_placed(
    layout: Layout,
    old_lines: Seq<Seq<char>>,
    prev: int,
    lines: Seq<Seq<char>>,
    i: int,
)
    requires
        prev >= 0,
        0 <= i < layout.drawn(lines.len() as int),
        lines[i].len() <= layout.term_cols,
    ensures
        ({
            let n = layout.drawn(lines.len() as int);
            let row = layout.term_lines - (n - 1 - i);
            let band = after_ops(
                layout.band_of(old_lines, prev),
                layout.band_ops(lines, prev),
            );
            &&& band.dom() == Set::new(
                |r: int| layout.term_lines - n < r && r <= layout.term_lines,
            )
            &&& band[row].1 == lines[i]
            &&& is_centered(band[row].0, lines[i].len() as int, layout.term_cols as int)
        }),
{
    law_band_shows_new_lines_only(layout, old_lines, prev, lines);
    let n = layout.drawn(lines.len() as int);
    assert(layout.band_of(lines, n).dom() =~= Set::new(
        |r: int| layout.term_lines - n < r && r <= layout.term_lines,
    ));
}

/// What is sent to clear a row, and to draw a line on it: the cursor goes to the
/// row, the row is cleared, and the line is printed from its column on, in plain
/// attributes afterwards.
pub proof fn law_band_sequences(row: nat, col: nat, line: Seq<char>, ops: Seq<BandOp>, op: BandOp)
    ensures
        op_text(BandOp::Clear { row: row as int }) == "\x1b["@ + decimal(row) + ";1H"@
            + "\x1b[2K"@,
        op_text(BandOp::Draw { row: row as int, col: col as int, line }) == op_text(
            BandOp::Clear { row: row as int },
        ) + "\x1b["@ + decimal(row) + ";"@ + decimal(col) + "H"@ + line + "\x1b[0m"@,
        ops_text(Seq::empty()).len() == 0,
        ops_text(ops.push(op)) == ops_text(ops) + op_text(op),
{
    reveal_strlit(";1H\x1b[2K");
    reveal_strlit(";1H");
    reveal_strlit("\x1b[2K");
    assert(";1H\x1b[2K"@ =~= ";1H"@ + "\x1b[2K"@);
    assert(op_text(BandOp::Clear { row: row as int }) =~= "\x1b["@ + decimal(row) + ";1H"@
        + "\x1b[2K"@);
    assert(ops.push(op).drop_last() =~= ops);
}

/// No row is touched without need: what is sent deals with the rows that held a line
/// or will hold one, with each of them once, and with no other.
pub proof fn law_band_touches_no_other_row(
    layout: Layout,
    lines: Seq<Seq<char>>,
    prev: int,
    i: int,
    j: int,
)
    requires
        prev >= 0,
        0 <= i <= j < layout.band_ops(lines, prev).len(),
    ensures
        ({
            let ops = layout.band_ops(lines, prev);
            let rows = max(prev, layout.drawn(lines.len() as int));
            &&& ops.len() == rows
            &&& layout.term_lines - rows < op_row(ops[i]) <= op_row(ops[j]) <= layout.term_lines
            &&& i < j ==> op_row(ops[i]) < op_row(ops[j])
        }),
{
    let n = layout.drawn(lines.len() as int);
    let clears = layout.clear_ops(prev, n);
    let draws = layout.draw_ops(lines, n);
    let ops = layout.band_ops(lines, prev);
    assert(i >= clears.len() ==> ops[i] == draws[i - clears.len()]);
    assert(j >= clears.len() ==> ops[j] == draws[j - clears.len()]);
}

} // verus!
