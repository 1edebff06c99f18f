//! What a rendered frame is: colored cells in raster order, the control tokens
//! that paint them, and the terminal that the tokens are meant for.
//!
//! Nothing here runs, apart from the color type: the mappers build the text of
//! these tokens, and the laws say what a terminal shows once it has read them.

use crate::text::decimal;
use vstd::arithmetic::power2::pow2;
use vstd::prelude::*;

verus! {

/// A 24-bit color.
#[derive(Clone, Copy, Debug, PartialEq, Eq, Structural)]
pub struct Rgb {
    pub r: u8,
    pub g: u8,
    pub b: u8,
}

/// SGR reset: clears the colors and attributes.
pub const RESET: &'static str = "\x1b[0m";

// ── Tokens ──────────────────────────────────────────────────────────────

/// One unit of output to the terminal.
pub enum Token {
    /// Back to the terminal's own colors.
    Reset,
    /// Set the foreground color.
    Color(Rgb),
    /// Set the foreground and the background color.
    ColorPair(Rgb, Rgb),
    /// Go to the next row.
    Newline,
    /// Print one character.
    Glyph(char),
}

/// `r;g;b`, in decimal.
pub open spec fn rgb_text(c: Rgb) -> Seq<char> {
    decimal(c.r as nat) + ";"@ + decimal(c.g as nat) + ";"@ + decimal(c.b as nat)
}

/// The characters that a token is sent as.
pub open spec fn token_text(t: Token) -> Seq<char> {
    match t {
        Token::Reset => RESET@,
        Token::Color(c) => "\x1b[38;2;"@ + rgb_text(c) + "m"@,
        Token::ColorPair(f, b) => "\x1b[38;2;"@ + rgb_text(f) + ";48;2;"@ + rgb_text(b) + "m"@,
        Token::Newline => seq!['\n'],
        Token::Glyph(c) => seq![c],
    }
}

/// The characters that a sequence of tokens is sent as.
pub open spec fn text_of(ts: Seq<Token>) -> Seq<char>
    decreases ts.len(),
{
    if ts.len() == 0 {
        Seq::empty()
    } else {
        text_of(ts.drop_last()) + token_text(ts.last())
    }
}

/// The text of two token sequences in a row is the one text after the other.
pub proof fn lemma_text_of_add(a: Seq<Token>, b: Seq<Token>)
    ensures
        text_of(a + b) == text_of(a) + text_of(b),
    decreases b.len(),
{
    if b.len() == 0 {
        assert(a + b == a);
        assert(text_of(a) + text_of(b) =~= text_of(a));
    } else {
        lemma_text_of_add(a, b.drop_last());
        assert((a + b).drop_last() == a + b.drop_last());
        assert(text_of(a + b) =~= text_of(a) + text_of(b));
    }
}

/// The text of one token more.
pub proof fn lemma_text_of_push(ts: Seq<Token>, t: Token)
    ensures
        text_of(ts.push(t)) == text_of(ts) + token_text(t),
{
    assert(ts.push(t).drop_last() == ts);
}

// ── Frames with one color per cell ──────────────────────────────────────

/// A character in a foreground color.
pub struct Cell {
    pub color: Rgb,
    pub glyph: char,
}

/// What paints the `i`-th of a frame's cells in raster order: its color, unless
/// the cell before it already has it, and its character.
pub open spec fn cell_tokens(cells: Seq<Cell>, i: int) -> Seq<Token> {
    if i == 0 || cells[i].color != cells[i - 1].color {
        seq![Token::Color(cells[i].color), Token::Glyph(cells[i].glyph)]
    } else {
        seq![Token::Glyph(cells[i].glyph)]
    }
}

/// What paints `n` cells from the one at `start` on.
pub open spec fn run_tokens(cells: Seq<Cell>, start: int, n: nat) -> Seq<Token>
    decreases n,
{
    if n == 0 {
        Seq::empty()
    } else {
        run_tokens(cells, start, (n - 1) as nat) + cell_tokens(cells, start + n - 1)
    }
}

/// What paints the first `n` rows of `width` cells each, with a newline between
/// two rows.
pub open spec fn rows_tokens(cells: Seq<Cell>, width: nat, n: nat) -> Seq<Token>
    decreases n,
{
    if n == 0 {
        Seq::empty()
    } else {
        let above = if n == 1 {
            Seq::empty()
        } else {
            rows_tokens(cells, width, (n - 1) as nat).push(Token::Newline)
        };
        above + run_tokens(cells, (n - 1) * width, width)
    }
}

/// What paints a frame of `height` rows of `width` cells: the rows, with a reset
/// before the first and after the last.
pub open spec fn frame_tokens(cells: Seq<Cell>, width: nat, height: nat) -> Seq<Token> {
    (seq![Token::Reset] + rows_tokens(cells, width, height)).push(Token::Reset)
}

// ── Frames with two colors per cell ─────────────────────────────────────

/// A cell split in two: the color of its upper and of its lower half.
#[derive(Clone, Copy, Debug, PartialEq, Eq, Structural)]
pub struct PairCell {
    pub top: Rgb,
    pub bottom: Rgb,
}

/// The character whose upper half has the foreground color and whose lower half
/// has the background color.
pub const UPPER_HALF_BLOCK: char = '\u{2580}';

/// What paints the `x`-th cell of a row: its colors, unless the cell before it
/// in this row already has them, and the half block.
pub open spec fn pair_cell_tokens(row: Seq<PairCell>, x: int) -> Seq<Token> {
    if x == 0 || row[x] != row[x - 1] {
        seq![Token::ColorPair(row[x].top, row[x].bottom), Token::Glyph(UPPER_HALF_BLOCK)]
    } else {
        seq![Token::Glyph(UPPER_HALF_BLOCK)]
    }
}

/// What paints the first `n` cells of a row.
pub open spec fn pair_run_tokens(row: Seq<PairCell>, n: nat) -> Seq<Token>
    decreases n,
{
    if n == 0 {
        Seq::empty()
    } else {
        pair_run_tokens(row, (n - 1) as nat) + pair_cell_tokens(row, n - 1)
    }
}

/// What paints a row: its cells between two resets.
pub open spec fn pair_row_tokens(row: Seq<PairCell>) -> Seq<Token> {
    (seq![Token::Reset] + pair_run_tokens(row, row.len())).push(Token::Reset)
}

/// What paints the first `n` rows, with a newline between two rows.
pub open spec fn pair_frame_tokens(rows: Seq<Seq<PairCell>>, n: nat) -> Seq<Token>
    decreases n,
{
    if n == 0 {
        Seq::empty()
    } else {
        let above = if n == 1 {
            Seq::empty()
        } else {
            pair_frame_tokens(rows, (n - 1) as nat).push(Token::Newline)
        };
        above + pair_row_tokens(rows[n - 1])
    }
}

// ── The terminal ────────────────────────────────────────────────────────

/// A character on the terminal, in the colors that were set when it was
/// printed; `None` is the terminal's own color.
pub struct Shown {
    pub glyph: char,
    pub fg: Option<Rgb>,
    pub bg: Option<Rgb>,
}

/// A terminal that prints row after row: the colors in force, and the rows so
/// far, of which the last is being printed.
pub struct Terminal {
    pub fg: Option<Rgb>,
    pub bg: Option<Rgb>,
    pub rows: Seq<Seq<Shown>>,
}

/// A terminal at the start of a frame.
pub open spec fn fresh_terminal() -> Terminal {
    Terminal { fg: None, bg: None, rows: seq![Seq::empty()] }
}

/// What a terminal does on a token.
pub open spec fn feed(term: Terminal, t: Token) -> Terminal {
    match t {
        Token::Reset => Terminal { fg: None, bg: None, ..term },
        Token::Color(c) => Terminal { fg: Some(c), ..term },
        Token::ColorPair(f, b) => Terminal { fg: Some(f), bg: Some(b), ..term },
        Token::Newline => Terminal { rows: term.rows.push(Seq::empty()), ..term },
        Token::Glyph(c) => Terminal {
            rows: term.rows.drop_last().push(
                term.rows.last().push(Shown { glyph: c, fg: term.fg, bg: term.bg }),
            ),
            ..term
        },
    }
}

/// What a terminal does on a sequence of tokens.
pub open spec fn replay(term: Terminal, ts: Seq<Token>) -> Terminal
    decreases ts.len(),
{
    if ts.len() == 0 {
        term
    } else {
        feed(replay(term, ts.drop_last()), ts.last())
    }
}

/// Two token sequences in a row act one after the other.
pub proof fn lemma_replay_add(term: Terminal, a: Seq<Token>, b: Seq<Token>)
    ensures
        replay(term, a + b) == replay(replay(term, a), b),
    decreases b.len(),
{
    if b.len() == 0 {
        assert(a + b == a);
    } else {
        lemma_replay_add(term, a, b.drop_last());
        assert((a + b).drop_last() == a + b.drop_last());
    }
}

/// One token after a sequence acts on what the sequence left.
proof fn lemma_replay_push(term: Terminal, ts: Seq<Token>, t: Token)
    ensures
        replay(term, ts.push(t)) == feed(replay(term, ts), t),
{
    assert(ts.push(t).drop_last() == ts);
}

/// `n` cells from `start` on, as they ought to be shown.
pub open spec fn shown_run(cells: Seq<Cell>, start: int, n: nat) -> Seq<Shown> {
    Seq::new(
        n,
        |x: int|
            Shown {
                glyph: cells[start + x].glyph,
                fg: Some(cells[start + x].color),
                bg: None,
            },
    )
}

/// The rows of a frame, as they ought to be shown.
pub open spec fn shown_rows(cells: Seq<Cell>, width: nat, n: nat) -> Seq<Seq<Shown>> {
    Seq::new(n, |y: int| shown_run(cells, y * width, width))
}

proof fn lemma_replay_run(term: Terminal, cells: Seq<Cell>, start: int, n: nat)
    requires
        0 <= start,
        term.rows.len() > 0,
        term.bg is None,
        start > 0 ==> term.fg == Some(cells[start - 1].color),
    ensures
        replay(term, run_tokens(cells, start, n)) == (Terminal {
            fg: if n == 0 {
                term.fg
            } else {
                Some(cells[start + n - 1].color)
            },
            bg: None,
            rows: term.rows.drop_last().push(term.rows.last() + shown_run(cells, start, n)),
        }),
    decreases n,
{
    if n == 0 {
        assert(term.rows.last() + shown_run(cells, start, 0) =~= term.rows.last());
        assert(term.rows.drop_last().push(term.rows.last()) =~= term.rows);
    } else {
        lemma_replay_run(term, cells, start, (n - 1) as nat);
        let before = run_tokens(cells, start, (n - 1) as nat);
        let i = start + n - 1;
        lemma_replay_add(term, before, cell_tokens(cells, i));
        let mid = replay(term, before);
        reveal_with_fuel(replay, 3);
        let both = seq![Token::Color(cells[i].color), Token::Glyph(cells[i].glyph)];
        assert(both.drop_last() =~= seq![Token::Color(cells[i].color)]);
        assert(both.drop_last().drop_last() =~= Seq::empty());
        assert(seq![Token::Glyph(cells[i].glyph)].drop_last() =~= Seq::empty());
        let after = replay(mid, cell_tokens(cells, i));
        assert(after.fg == Some(cells[i].color));
        assert(mid.rows.drop_last() =~= term.rows.drop_last());
        assert(after.rows.last() =~= term.rows.last() + shown_run(cells, start, n));
        assert(after.rows =~= term.rows.drop_last().push(
            term.rows.last() + shown_run(cells, start, n),
        ));
    }
}

proof fn lemma_replay_rows(cells: Seq<Cell>, width: nat, n: nat)
    requires
        n > 0,
    ensures
        ({
            let t = replay(
                fresh_terminal(),
                seq![Token::Reset] + rows_tokens(cells, width, n),
            );
            &&& t.rows == shown_rows(cells, width, n)
            &&& t.bg is None
            &&& n * width > 0 ==> t.fg == Some(cells[n * width - 1].color)
        }),
    decreases n,
{
    let start = seq![Token::Reset];
    let y = (n - 1) as nat;
    let from: int = (y * width) as int;
    assert(y * width + width == n * width) by (nonlinear_arith)
        requires
            n == y + 1,
    ;
    assert(0 <= y * width) by (nonlinear_arith);
    assert(start.drop_last() =~= Seq::empty());
    assert(replay(fresh_terminal(), start) =~= fresh_terminal()) by {
        reveal_with_fuel(replay, 2);
    }
    let above = if n == 1 {
        Seq::empty()
    } else {
        rows_tokens(cells, width, y).push(Token::Newline)
    };
    assert(start + rows_tokens(cells, width, n) =~= (start + above) + run_tokens(
        cells,
        from,
        width,
    ));
    lemma_replay_add(fresh_terminal(), start + above, run_tokens(cells, from, width));
    let term = replay(fresh_terminal(), start + above);
    if n == 1 {
        assert(start + above =~= start);
        assert(y * width == 0) by (nonlinear_arith)
            requires
                y == 0,
        ;
        assert(term.rows.drop_last() =~= shown_rows(cells, width, 0));
    } else {
        lemma_replay_rows(cells, width, y);
        assert(start + above =~= (start + rows_tokens(cells, width, y)).push(Token::Newline));
        lemma_replay_push(
            fresh_terminal(),
            start + rows_tokens(cells, width, y),
            Token::Newline,
        );
        assert(term.rows.drop_last() =~= shown_rows(cells, width, y));
    }
    assert(term.rows.last() =~= Seq::empty());
    lemma_replay_run(term, cells, from, width);
    assert(Seq::<Shown>::empty() + shown_run(cells, from, width) =~= shown_run(
        cells,
        from,
        width,
    ));
    assert(shown_rows(cells, width, n) =~= shown_rows(cells, width, y).push(
        shown_run(cells, from, width),
    ));
}

/// A terminal that reads a frame shows every cell at its place, in its color,
/// although colors are sent only where they change; afterwards its own colors
/// are in force again.
pub proof fn law_frame_shows_every_cell(cells: Seq<Cell>, width: nat, height: nat)
    requires
        height > 0,
        cells.len() == width * height,
    ensures
        replay(fresh_terminal(), frame_tokens(cells, width, height)) == (Terminal {
            fg: None,
            bg: None,
            rows: shown_rows(cells, width, height),
        }),
{
    lemma_replay_rows(cells, width, height);
    lemma_replay_push(
        fresh_terminal(),
        seq![Token::Reset] + rows_tokens(cells, width, height),
        Token::Reset,
    );
}

/// The number of color escapes among tokens.
pub open spec fn color_count(ts: Seq<Token>) -> nat
    decreases ts.len(),
{
    if ts.len() == 0 {
        0
    } else {
        color_count(ts.drop_last()) + (if ts.last() is Color || ts.last() is ColorPair {
            1nat
        } else {
            0nat
        })
    }
}

proof fn lemma_color_count_add(a: Seq<Token>, b: Seq<Token>)
    ensures
        color_count(a + b) == color_count(a) + color_count(b),
    decreases b.len(),
{
    if b.len() == 0 {
        assert(a + b == a);
    } else {
        lemma_color_count_add(a, b.drop_last());
        assert((a + b).drop_last() == a + b.drop_last());
    }
}

/// How many of the first `n` cells differ in color from the cell before; the
/// first cell always counts.
pub open spec fn color_changes(cells: Seq<Cell>, n: nat) -> nat
    decreases n,
{
    if n == 0 {
        0
    } else {
        color_changes(cells, (n - 1) as nat) + (if n == 1 || cells[n - 1].color != cells[n
            - 2].color {
            1nat
        } else {
            0nat
        })
    }
}

proof fn lemma_color_count_run(cells: Seq<Cell>, start: nat, n: nat)
    ensures
        color_changes(cells, start) + color_count(run_tokens(cells, start as int, n))
            == color_changes(cells, start + n),
    decreases n,
{
    if n > 0 {
        lemma_color_count_run(cells, start, (n - 1) as nat);
        let i = start + n - 1;
        lemma_color_count_add(
            run_tokens(cells, start as int, (n - 1) as nat),
            cell_tokens(cells, i),
        );
        reveal_with_fuel(color_count, 3);
        let both = seq![Token::Color(cells[i].color), Token::Glyph(cells[i].glyph)];
        assert(both.drop_last() =~= seq![Token::Color(cells[i].color)]);
        assert(both.drop_last().drop_last() =~= Seq::empty());
        assert(seq![Token::Glyph(cells[i].glyph)].drop_last() =~= Seq::empty());
    }
}

proof fn lemma_color_count_rows(cells: Seq<Cell>, width: nat, n: nat)
    ensures
        color_count(rows_tokens(cells, width, n)) == color_changes(cells, n * width),
    decreases n,
{
    if n > 0 {
        let y = (n - 1) as nat;
        lemma_color_count_rows(cells, width, y);
        assert(y * width + width == n * width) by (nonlinear_arith)
            requires
                n == y + 1,
        ;
        lemma_color_count_run(cells, y * width, width);
        let above = if n == 1 {
            Seq::empty()
        } else {
            rows_tokens(cells, width, y).push(Token::Newline)
        };
        assert(rows_tokens(cells, width, y).push(Token::Newline).drop_last() =~= rows_tokens(
            cells,
            width,
            y,
        ));
        lemma_color_count_add(above, run_tokens(cells, (y * width) as int, width));
    } else {
        assert(n * width == 0) by (nonlinear_arith)
            requires
                n == 0,
        ;
    }
}

/// A frame holds one color escape for its first cell, and one for each further
/// cell whose color differs from that of the cell before it: no others.
pub proof fn law_color_sent_only_on_change(cells: Seq<Cell>, width: nat, height: nat)
    ensures
        color_count(frame_tokens(cells, width, height)) == color_changes(cells, height * width),
{
    lemma_color_count_rows(cells, width, height);
    let start = seq![Token::Reset];
    let inner = start + rows_tokens(cells, width, height);
    assert(frame_tokens(cells, width, height).drop_last() =~= inner);
    lemma_color_count_add(start, rows_tokens(cells, width, height));
    assert(start.drop_last() =~= Seq::empty());
    reveal_with_fuel(color_count, 2);
}

/// Where every two neighbours of equal color keep equal colors, no more color
/// escapes are sent.
pub proof fn lemma_fewer_color_changes(a: Seq<Cell>, b: Seq<Cell>, n: nat)
    requires
        forall|i: int|
            0 < i < n && (#[trigger] a[i]).color == a[i - 1].color ==> b[i].color == b[i
                - 1].color,
    ensures
        color_changes(b, n) <= color_changes(a, n),
    decreases n,
{
    if n > 0 {
        lemma_fewer_color_changes(a, b, (n - 1) as nat);
        if n > 1 {
            assert(a[n - 1].color == a[n - 2].color ==> b[n - 1].color == b[n - 2].color);
        }
    }
}

/// A row of split cells, as it ought to be shown: the upper half in the
/// foreground color, the lower half in the background color.
pub open spec fn shown_pairs(row: Seq<PairCell>, n: nat) -> Seq<Shown> {
    Seq::new(
        n,
        |x: int|
            Shown { glyph: UPPER_HALF_BLOCK, fg: Some(row[x].top), bg: Some(row[x].bottom) },
    )
}

proof fn lemma_replay_pair_run(term: Terminal, row: Seq<PairCell>, n: nat)
    requires
        term.rows.len() > 0,
    ensures
        replay(term, pair_run_tokens(row, n)) == (Terminal {
            fg: if n == 0 {
                term.fg
            } else {
                Some(row[n - 1].top)
            },
            bg: if n == 0 {
                term.bg
            } else {
                Some(row[n - 1].bottom)
            },
            rows: term.rows.drop_last().push(term.rows.last() + shown_pairs(row, n)),
        }),
    decreases n,
{
    if n == 0 {
        assert(term.rows.last() + shown_pairs(row, 0) =~= term.rows.last());
        assert(term.rows.drop_last().push(term.rows.last()) =~= term.rows);
    } else {
        lemma_replay_pair_run(term, row, (n - 1) as nat);
        let before = pair_run_tokens(row, (n - 1) as nat);
        let i = n - 1;
        lemma_replay_add(term, before, pair_cell_tokens(row, i));
        let mid = replay(term, before);
        reveal_with_fuel(replay, 3);
        let both = seq![
            Token::ColorPair(row[i].top, row[i].bottom),
            Token::Glyph(UPPER_HALF_BLOCK),
        ];
        assert(both.drop_last() =~= seq![Token::ColorPair(row[i].top, row[i].bottom)]);
        assert(both.drop_last().drop_last() =~= Seq::empty());
        assert(seq![Token::Glyph(UPPER_HALF_BLOCK)].drop_last() =~= Seq::empty());
        let after = replay(mid, pair_cell_tokens(row, i));
        assert(mid.rows.drop_last() =~= term.rows.drop_last());
        assert(after.rows.last() =~= term.rows.last() + shown_pairs(row, n));
        assert(after.rows =~= term.rows.drop_last().push(
            term.rows.last() + shown_pairs(row, n),
        ));
    }
}

/// A terminal that reads a split-cell frame shows every cell at its place with
/// its two colors; afterwards its own colors are in force again.
pub proof fn law_pair_frame_shows_every_cell(rows: Seq<Seq<PairCell>>, n: nat)
    requires
        0 < n <= rows.len(),
    ensures
        replay(fresh_terminal(), pair_frame_tokens(rows, n)) == (Terminal {
            fg: None,
            bg: None,
            rows: Seq::new(n, |y: int| shown_pairs(rows[y], rows[y].len())),
        }),
    decreases n,
{
    let y = (n - 1) as nat;
    let row = rows[y as int];
    let above = if n == 1 {
        Seq::empty()
    } else {
        pair_frame_tokens(rows, y).push(Token::Newline)
    };
    let want = Seq::new(n, |y: int| shown_pairs(rows[y], rows[y].len()));
    let term = replay(fresh_terminal(), above);
    if n == 1 {
        assert(term.rows.drop_last() =~= want.drop_last());
    } else {
        law_pair_frame_shows_every_cell(rows, y);
        lemma_replay_push(fresh_terminal(), pair_frame_tokens(rows, y), Token::Newline);
        assert(term.rows.drop_last() =~= want.drop_last());
    }
    assert(term.rows.last() =~= Seq::empty());
    lemma_replay_add(fresh_terminal(), above, pair_row_tokens(row));
    let head = seq![Token::Reset];
    assert(head.drop_last() =~= Seq::empty());
    let cleared = replay(term, head);
    assert(cleared == (Terminal { fg: None, bg: None, ..term })) by {
        reveal_with_fuel(replay, 2);
    }
    lemma_replay_push(term, head + pair_run_tokens(row, row.len()), Token::Reset);
    lemma_replay_add(term, head, pair_run_tokens(row, row.len()));
    lemma_replay_pair_run(cleared, row, row.len());
    assert(Seq::<Shown>::empty() + shown_pairs(row, row.len()) =~= shown_pairs(row, row.len()));
    assert(want =~= want.drop_last().push(shown_pairs(row, row.len())));
}

/// Every row of a split-cell frame ends in a reset, so that no background color
/// reaches the padding beside or below it.
pub proof fn law_pair_rows_end_reset(rows: Seq<Seq<PairCell>>, n: nat)
    requires
        0 < n <= rows.len(),
    ensures
        pair_frame_tokens(rows, n).len() > 0,
        pair_frame_tokens(rows, n).last() is Reset,
        forall|i: int|
            0 <= i < pair_frame_tokens(rows, n).len() && (
            #[trigger] pair_frame_tokens(rows, n)[i]) is Newline ==> i > 0 && pair_frame_tokens(
                rows,
                n,
            )[i - 1] is Reset,
    decreases n,
{
    let ts = pair_frame_tokens(rows, n);
    let row = pair_row_tokens(rows[n - 1]);
    lemma_no_newline_in_run(rows[n - 1], rows[n - 1].len());
    assert(row.last() is Reset);
    assert forall|j: int| 0 <= j < row.len() implies !(#[trigger] row[j] is Newline) by {
        if 0 < j < row.len() - 1 {
            assert(row[j] == pair_run_tokens(rows[n - 1], rows[n - 1].len())[j - 1]);
        }
    }
    if n > 1 {
        law_pair_rows_end_reset(rows, (n - 1) as nat);
        let above = pair_frame_tokens(rows, (n - 1) as nat);
        assert(ts == above.push(Token::Newline) + row);
        assert forall|i: int| 0 <= i < ts.len() && (#[trigger] ts[i]) is Newline implies i > 0
            && ts[i - 1] is Reset by {
            if i < above.len() {
                assert(above[i] is Newline);
                assert(ts[i - 1] == above[i - 1]);
            } else if i == above.len() {
                assert(ts[i - 1] == above.last());
            } else {
                assert(ts[i] == row[i - above.len() - 1]);
            }
        }
        assert(ts.last() == row.last());
    } else {
        assert(ts =~= row);
    }
}

proof fn lemma_no_newline_in_run(row: Seq<PairCell>, n: nat)
    ensures
        forall|i: int|
            0 <= i < pair_run_tokens(row, n).len() ==> !(#[trigger] pair_run_tokens(row, n)[i]
                is Newline),
    decreases n,
{
    if n > 0 {
        lemma_no_newline_in_run(row, (n - 1) as nat);
        let before = pair_run_tokens(row, (n - 1) as nat);
        assert forall|i: int| 0 <= i < pair_run_tokens(row, n).len() implies !(
        #[trigger] pair_run_tokens(row, n)[i] is Newline) by {
            if i < before.len() {
                assert(pair_run_tokens(row, n)[i] == before[i]);
            } else {
                assert(pair_run_tokens(row, n)[i] == pair_cell_tokens(row, n - 1)[i
                    - before.len()]);
            }
        }
    }
}

/// Where every two equal neighbours in a row stay equal, no more color escapes
/// are sent.
pub proof fn lemma_fewer_pair_changes(a: Seq<Seq<PairCell>>, b: Seq<Seq<PairCell>>, n: nat)
    requires
        n <= a.len(),
        a.len() == b.len(),
        forall|y: int| 0 <= y < n ==> (#[trigger] a[y]).len() == b[y].len(),
        forall|y: int, x: int|
            #![trigger a[y][x]]
            0 <= y < n && 0 < x < a[y].len() && a[y][x] == a[y][x - 1] ==> b[y][x] == b[y][x - 1],
    ensures
        color_count(pair_frame_tokens(b, n)) <= color_count(pair_frame_tokens(a, n)),
    decreases n,
{
    if n > 0 {
        let m = (n - 1) as nat;
        lemma_fewer_pair_changes(a, b, m);
        lemma_fewer_pair_changes_in_row(a[m as int], b[m as int], a[m as int].len());
        lemma_color_count_frame_step(a, n);
        lemma_color_count_frame_step(b, n);
    }
}

proof fn lemma_fewer_pair_changes_in_row(a: Seq<PairCell>, b: Seq<PairCell>, n: nat)
    requires
        n <= a.len(),
        forall|x: int| 0 < x < n && #[trigger] a[x] == a[x - 1] ==> b[x] == b[x - 1],
    ensures
        color_count(pair_run_tokens(b, n)) <= color_count(pair_run_tokens(a, n)),
    decreases n,
{
    if n > 0 {
        let m = (n - 1) as nat;
        lemma_fewer_pair_changes_in_row(a, b, m);
        lemma_color_count_add(pair_run_tokens(a, m), pair_cell_tokens(a, m as int));
        lemma_color_count_add(pair_run_tokens(b, m), pair_cell_tokens(b, m as int));
        if m > 0 {
            assert(a[m as int] == a[m - 1] ==> b[m as int] == b[m - 1]);
        }
        lemma_color_count_pair(a, m as int);
        lemma_color_count_pair(b, m as int);
    }
}

proof fn lemma_color_count_pair(row: Seq<PairCell>, x: int)
    ensures
        color_count(pair_cell_tokens(row, x)) == (if x == 0 || row[x] != row[x - 1] {
            1nat
        } else {
            0nat
        }),
{
    reveal_with_fuel(color_count, 3);
    let both = seq![
        Token::ColorPair(row[x].top, row[x].bottom),
        Token::Glyph(UPPER_HALF_BLOCK),
    ];
    assert(both.drop_last() =~= seq![Token::ColorPair(row[x].top, row[x].bottom)]);
    assert(both.drop_last().drop_last() =~= Seq::empty());
    assert(seq![Token::Glyph(UPPER_HALF_BLOCK)].drop_last() =~= Seq::empty());
}

proof fn lemma_color_count_frame_step(rows: Seq<Seq<PairCell>>, n: nat)
    requires
        n > 0,
    ensures
        color_count(pair_frame_tokens(rows, n)) == color_count(
            pair_frame_tokens(rows, (n - 1) as nat),
        ) + color_count(pair_run_tokens(rows[n - 1], rows[n - 1].len())),
{
    let row = rows[n - 1];
    let run = pair_run_tokens(row, row.len());
    let head = seq![Token::Reset];
    let above = if n == 1 {
        Seq::empty()
    } else {
        pair_frame_tokens(rows, (n - 1) as nat).push(Token::Newline)
    };
    lemma_color_count_add(above, pair_row_tokens(row));
    lemma_color_count_add(head, run);
    assert((head + run).push(Token::Reset).drop_last() =~= head + run);
    assert(head.drop_last() =~= Seq::empty());
    reveal_with_fuel(color_count, 2);
    if n > 1 {
        assert(above.drop_last() =~= pair_frame_tokens(rows, (n - 1) as nat));
    }
}

// ── What a text shows ───────────────────────────────────────────────────

/// Whether a terminal that reads `text` shows `rows`, and is left with its own
/// colors.
pub open spec fn paints(text: Seq<char>, rows: Seq<Seq<Shown>>) -> bool {
    exists|ts: Seq<Token>|
        text == #[trigger] text_of(ts) && replay(fresh_terminal(), ts) == (Terminal {
            fg: None,
            bg: None,
            rows,
        })
}

/// Whether `q` is `v` with its low `bits` bits cleared: a multiple of `2^bits`, and
/// less than one step below.
pub open spec fn keeps_high_bits(q: u8, v: int, bits: nat) -> bool {
    &&& q as int % pow2(bits) as int == 0
    &&& q <= v < q + pow2(bits)
}

/// Whether a color is that of the three bytes at `at`, but for the low `bits` bits
/// of each: red, green and blue.
pub open spec fn colored(color: Option<Rgb>, rgb: Seq<u8>, at: int, bits: nat) -> bool {
    &&& color matches Some(c)
    &&& keeps_high_bits(c.r, rgb[at] as int, bits)
    &&& keeps_high_bits(c.g, rgb[at + 1] as int, bits)
    &&& keeps_high_bits(c.b, rgb[at + 2] as int, bits)
}

/// What each token does to a terminal, and what it leaves alone: a color stays in
/// force until the next one or a reset, and a character is printed behind the last
/// one of the last row, in the colors in force.
pub proof fn law_tokens_act_on_a_terminal(term: Terminal, f: Rgb, b: Rgb, c: char)
    requires
        term.rows.len() > 0,
    ensures
        feed(term, Token::Reset) == (Terminal { fg: None, bg: None, rows: term.rows }),
        feed(term, Token::Color(f)) == (Terminal { fg: Some(f), bg: term.bg, rows: term.rows }),
        feed(term, Token::ColorPair(f, b)) == (Terminal {
            fg: Some(f),
            bg: Some(b),
            rows: term.rows,
        }),
        feed(term, Token::Newline) == (Terminal {
            fg: term.fg,
            bg: term.bg,
            rows: term.rows.push(Seq::empty()),
        }),
        feed(term, Token::Glyph(c)).fg == term.fg,
        feed(term, Token::Glyph(c)).bg == term.bg,
        feed(term, Token::Glyph(c)).rows == term.rows.update(
            term.rows.len() - 1,
            term.rows.last().push(Shown { glyph: c, fg: term.fg, bg: term.bg }),
        ),
{
    assert(feed(term, Token::Glyph(c)).rows =~= term.rows.update(
        term.rows.len() - 1,
        term.rows.last().push(Shown { glyph: c, fg: term.fg, bg: term.bg }),
    ));
}

/// What is sent for a color: the SGR sequence with the three channels in decimal,
/// red first, and for a pair the foreground before the background.
pub proof fn law_color_escapes(f: Rgb, b: Rgb, c: char)
    ensures
        token_text(Token::Reset) == "\x1b[0m"@,
        token_text(Token::Newline) == seq!['\n'],
        token_text(Token::Glyph(c)) == seq![c],
        token_text(Token::Color(f)) == "\x1b[38;2;"@ + decimal(f.r as nat) + ";"@ + decimal(
            f.g as nat,
        ) + ";"@ + decimal(f.b as nat) + "m"@,
        token_text(Token::ColorPair(f, b)) == "\x1b[38;2;"@ + decimal(f.r as nat) + ";"@ + decimal(
            f.g as nat,
        ) + ";"@ + decimal(f.b as nat) + ";48;2;"@ + decimal(b.r as nat) + ";"@ + decimal(
            b.g as nat,
        ) + ";"@ + decimal(b.b as nat) + "m"@,
{
    assert(token_text(Token::Color(f)) =~= "\x1b[38;2;"@ + decimal(f.r as nat) + ";"@ + decimal(
        f.g as nat,
    ) + ";"@ + decimal(f.b as nat) + "m"@);
    assert(token_text(Token::ColorPair(f, b)) =~= "\x1b[38;2;"@ + decimal(f.r as nat) + ";"@
        + decimal(f.g as nat) + ";"@ + decimal(f.b as nat) + ";48;2;"@ + decimal(b.r as nat) + ";"@
        + decimal(b.g as nat) + ";"@ + decimal(b.b as nat) + "m"@);
}

/// How many of the first `n` cells of a row differ from the cell before; the first
/// cell always counts.
pub open spec fn pair_changes(row: Seq<PairCell>, n: nat) -> nat
    decreases n,
{
    if n == 0 {
        0
    } else {
        pair_changes(row, (n - 1) as nat) + (if n == 1 || row[n - 1].top != row[n - 2].top
            || row[n - 1].bottom != row[n - 2].bottom {
            1nat
        } else {
            0nat
        })
    }
}

/// The changes in the first `n` rows.
pub open spec fn all_pair_changes(rows: Seq<Seq<PairCell>>, n: nat) -> nat
    decreases n,
{
    if n == 0 {
        0
    } else {
        all_pair_changes(rows, (n - 1) as nat) + pair_changes(rows[n - 1], rows[n - 1].len())
    }
}

proof fn lemma_pair_run_changes(row: Seq<PairCell>, n: nat)
    ensures
        color_count(pair_run_tokens(row, n)) == pair_changes(row, n),
    decreases n,
{
    if n > 0 {
        let m = (n - 1) as nat;
        lemma_pair_run_changes(row, m);
        lemma_color_count_add(pair_run_tokens(row, m), pair_cell_tokens(row, m as int));
        lemma_color_count_pair(row, m as int);
    }
}

/// A split-cell frame holds one color escape for the first cell of each row, and one
/// for each further cell of the row that differs from the cell before it: no others.
pub proof fn law_pair_colors_sent_only_on_change(rows: Seq<Seq<PairCell>>, n: nat)
    ensures
        color_count(pair_frame_tokens(rows, n)) == all_pair_changes(rows, n),
    decreases n,
{
    if n > 0 {
        law_pair_colors_sent_only_on_change(rows, (n - 1) as nat);
        lemma_color_count_frame_step(rows, n);
        lemma_pair_run_changes(rows[n - 1], rows[n - 1].len());
    }
}

} // verus!
