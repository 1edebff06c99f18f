//! TerminalRenderer — frame composition, the subtitle overlay and the info
//! screen.

use crate::ascii::{active_palette, AsciiMapper};
use crate::band::{
    law_band_stays_below_video, law_cue_is_shown_whole, op_row, ops_text, push_band, shown_lines,
};
use crate::binary64::Binary64;
use crate::braille::BrailleMapper;
use crate::half_block::HalfBlockMapper;
use crate::layout::{fit_grid, video_grid, AspectSizes, Layout, Orientation};
use crate::mapper::Mapper;
use crate::subtitles::{are_numbers, lines_at, looked_up, tells, Subtitles};
use crate::text::{
    chars_of, decimal, law_texts_are_the_strings, lemma_split_at_start, lemma_split_prefix,
    lemma_split_step, occurs_at, push_chars, push_decimal, replace, replaced, split_by, texts,
};
use vstd::arithmetic::power2::pow2;
use vstd::prelude::*;

verus! {

/// Move the cursor to the top left corner.
pub const CURSOR_HOME: &'static str = "\x1b[H";

/// Clear the whole screen.
pub const CLEAR_SCREEN: &'static str = "\x1b[2J";

/// Which renderer to use for a session.
#[derive(Clone, Copy, Debug, PartialEq, Eq, Structural)]
pub enum RenderMode {
    Ascii,
    Braille,
    HalfBlock,
}

impl RenderMode {
    /// The mode's name on the info screen.
    pub open spec fn name(&self) -> Seq<char> {
        match self {
            RenderMode::Ascii => "ASCII (glyph ramp)"@,
            RenderMode::Braille => "BRAILLE (2×4 dots)"@,
            RenderMode::HalfBlock => "HALF-BLOCK (1×2, 2 colors)"@,
        }
    }

    pub fn label(self) -> (s: &'static str)
        ensures
            s@ == self.name(),
    {
        match self {
            RenderMode::Ascii => "ASCII (glyph ramp)",
            RenderMode::Braille => "BRAILLE (2×4 dots)",
            RenderMode::HalfBlock => "HALF-BLOCK (1×2, 2 colors)",
        }
    }

    /// Sub-pixels per cell, across and down.
    pub open spec fn scale(&self) -> (nat, nat) {
        match self {
            RenderMode::Ascii => (1, 1),
            RenderMode::Braille => (2, 4),
            RenderMode::HalfBlock => (1, 2),
        }
    }

    /// Whether the sub-pixels of a grid of `cols × rows` cells can be counted,
    /// across and down, in 32 bits.
    pub open spec fn countable(&self, cols: u32, rows: u32) -> bool {
        match self {
            RenderMode::Ascii => true,
            RenderMode::Braille => 2 * cols <= u32::MAX && 4 * rows <= u32::MAX,
            RenderMode::HalfBlock => 2 * rows <= u32::MAX,
        }
    }

    /// Whether the sub-pixels of a grid of `cols × rows` cells can be counted,
    /// across and down, in 32 bits.
    pub fn fits(self, cols: u32, rows: u32) -> (r: bool)
        ensures
            r == self.countable(cols, rows),
    {
        match self {
            RenderMode::Ascii => true,
            RenderMode::Braille => cols <= u32::MAX / 2 && rows <= u32::MAX / 4,
            RenderMode::HalfBlock => rows <= u32::MAX / 2,
        }
    }
}

/// Whether `m` is the mapper of a render mode with the given settings.
pub open spec fn is_mapper_of(
    m: Mapper,
    mode: RenderMode,
    palette: Option<Seq<char>>,
    quantize_bits: u32,
    braille_threshold: u8,
    dither: bool,
) -> bool {
    match m {
        Mapper::Ascii(a) => {
            &&& mode == RenderMode::Ascii
            &&& a.palette() == active_palette(palette)
            &&& a.quantize_bits() == quantize_bits
        },
        Mapper::Braille(b) => {
            &&& mode == RenderMode::Braille
            &&& b.threshold() == braille_threshold
            &&& b.dither() == dither
            &&& b.quantize_bits() == quantize_bits
        },
        Mapper::HalfBlock(h) => {
            &&& mode == RenderMode::HalfBlock
            &&& h.quantize_bits() == quantize_bits
        },
    }
}

/// The mapper of a render mode.
pub fn build_mapper(
    mode: RenderMode,
    palette: Option<Vec<char>>,
    quantize_bits: u32,
    braille_threshold: u8,
    dither: bool,
) -> (m: Mapper)
    ensures
        is_mapper_of(
            m,
            mode,
            match palette {
                Some(p) => Some(p@),
                None => None,
            },
            quantize_bits,
            braille_threshold,
            dither,
        ),
{
    match mode {
        RenderMode::Ascii => Mapper::Ascii(AsciiMapper::new(palette, quantize_bits)),
        RenderMode::Braille => Mapper::Braille(
            BrailleMapper::new(braille_threshold, dither, quantize_bits),
        ),
        RenderMode::HalfBlock => Mapper::HalfBlock(HalfBlockMapper::new(quantize_bits)),
    }
}

/// `n` times the character `c`.
pub open spec fn repeated(c: char, n: nat) -> Seq<char> {
    Seq::new(n, |i: int| c)
}

/// Append `n` times the character `c`.
fn push_repeated(out: &mut String, c: char, n: usize)
    ensures
        final(out)@ == old(out)@ + repeated(c, n as nat),
{
    assert(out@ =~= out@ + repeated(c, 0));
    for i in 0..n
        invariant
            out@ == old(out)@ + repeated(c, i as nat),
    {
        out.push(c);
        assert(out@ =~= old(out)@ + repeated(c, (i + 1) as nat));
    }
}

/// A rendered frame, indented by `pad_x` columns and `pad_y` lines.
pub open spec fn padded(rendered: Seq<char>, pad_x: nat, pad_y: nat) -> Seq<char> {
    let indented = if pad_x > 0 {
        repeated(' ', pad_x) + replaced(rendered, "\n"@, "\n"@ + repeated(' ', pad_x))
    } else {
        rendered
    };
    repeated('\n', pad_y) + indented
}

/// Apply centering padding.
pub fn pad_frame(rendered: &str, pad_x: usize, pad_y: usize) -> (out: String)
    ensures
        out@ == padded(rendered@, pad_x as nat, pad_y as nat),
{
    proof {
        reveal_strlit("\n");
    }
    let mut out = String::new();
    push_repeated(&mut out, '\n', pad_y);
    assert(out@ =~= repeated('\n', pad_y as nat));
    if pad_x > 0 {
        let mut indent = String::new();
        indent.append("\n");
        push_repeated(&mut indent, ' ', pad_x);
        assert(indent@ =~= "\n"@ + repeated(' ', pad_x as nat));
        let body = replace(
            chars_of(rendered).as_slice(),
            chars_of("\n").as_slice(),
            chars_of(indent.as_str()).as_slice(),
        );
        push_repeated(&mut out, ' ', pad_x);
        push_chars(&mut out, body.as_slice());
    } else {
        out.append(rendered);
    }
    assert(out@ =~= padded(rendered@, pad_x as nat, pad_y as nat));
    out
}

/// Turns frames into the text that shows them on a terminal, together with the
/// subtitles that are active at the time.
pub struct TerminalRenderer {
    mapper: Mapper,
    layout: Layout,
    /// Width and height of the video.
    video: (u32, u32),
    /// Active subtitles, if any.
    subtitles: Option<Subtitles>,
    /// Number of subtitle rows drawn on the previous frame, so we can clear the
    /// band when a cue ends (fewer/zero lines) instead of leaving it on screen.
    prev_sub_rows: usize,
}

impl TerminalRenderer {
    #[verifier::type_invariant]
    spec fn well_formed(self) -> bool {
        &&& self.layout.well_formed()
        &&& self.layout.sub_cols == self.layout.cols * self.mapper.scale().0
        &&& self.layout.sub_rows == self.layout.rows * self.mapper.scale().1
        &&& self.prev_sub_rows <= self.layout.band_rows()
    }

    /// What turns a frame into cells.
    pub closed spec fn mapper(&self) -> Mapper {
        self.mapper
    }

    /// Where the frame stands on the terminal.
    pub closed spec fn layout(&self) -> Layout {
        self.layout
    }

    /// Width and height of the video.
    pub closed spec fn video(&self) -> (u32, u32) {
        self.video
    }

    /// The subtitles, if any.
    pub closed spec fn subtitles(&self) -> Option<Subtitles> {
        self.subtitles
    }

    /// How many subtitle rows the last frame drew.
    pub closed spec fn sub_rows_drawn(&self) -> int {
        self.prev_sub_rows as int
    }

    /// A renderer for a `video` of the given width and height on a `terminal` of
    /// the given columns and lines.
    pub fn new(
        video: (u32, u32),
        terminal: (u32, u32),
        sizes: AspectSizes,
        palette: Option<Vec<char>>,
        quantize_bits: u32,
        cols_arg: u32,
        mode: RenderMode,
        braille_threshold: u8,
        dither: bool,
        subtitles: Option<Subtitles>,
    ) -> (r: TerminalRenderer)
        requires
            mode.countable(
                video_grid(video, terminal, sizes, cols_arg).0,
                video_grid(video, terminal, sizes, cols_arg).1,
            ),
        ensures
            is_mapper_of(
                r.mapper(),
                mode,
                match palette {
                    Some(p) => Some(p@),
                    None => None,
                },
                quantize_bits,
                braille_threshold,
                dither,
            ),
            r.layout() == Layout::around(
                video_grid(video, terminal, sizes, cols_arg).0,
                video_grid(video, terminal, sizes, cols_arg).1,
                mode.scale(),
                terminal.0,
                terminal.1,
            ),
            r.video() == video,
            r.subtitles() == subtitles,
            r.sub_rows_drawn() == 0,
    {
        let orientation = Orientation::of(video.0, video.1);
        let (cols, rows) = fit_grid(orientation, cols_arg, terminal.0, terminal.1, sizes);
        let mapper = build_mapper(mode, palette, quantize_bits, braille_threshold, dither);
        let scale = mapper.subpixel_scale();
        let ghost (sx, sy) = mode.scale();
        assert(sx == 1 ==> cols * sx == cols) by (nonlinear_arith);
        assert(sx == 2 ==> cols * sx == 2 * cols) by (nonlinear_arith);
        assert(sy == 1 ==> rows * sy == rows) by (nonlinear_arith);
        assert(sy == 2 ==> rows * sy == 2 * rows) by (nonlinear_arith);
        assert(sy == 4 ==> rows * sy == 4 * rows) by (nonlinear_arith);
        let layout = Layout::centered(cols, rows, scale, terminal.0, terminal.1);
        TerminalRenderer { mapper, layout, video, subtitles, prev_sub_rows: 0 }
    }

    /// Where the frame stands on the terminal.
    pub fn placement(&self) -> (l: Layout)
        ensures
            l == self.layout(),
    {
        self.layout
    }

    /// The frame alone, in its place.
    pub open spec fn frame_text(&self, rgb: Seq<u8>) -> Seq<char> {
        padded(
            self.mapper().converted(
                rgb,
                self.layout().cols as nat,
                self.layout().rows as nat,
            ),
            self.layout().pad_x as nat,
            self.layout().pad_y as nat,
        )
    }

    /// What changes the subtitle band to that of time `t`.
    pub open spec fn band_text(&self, t: Binary64) -> Seq<char> {
        match self.subtitles() {
            Some(s) => ops_text(
                self.layout().band_ops(self.lines_to_draw(t), self.sub_rows_drawn()),
            ),
            None => Seq::empty(),
        }
    }

    /// The subtitle lines to draw at time `t`.
    pub open spec fn lines_to_draw(&self, t: Binary64) -> Seq<Seq<char>> {
        match self.subtitles() {
            Some(s) => self.layout().display_lines(
                texts(lines_at(s.cues(), looked_up(s.cues(), s.cursor(), t), t)),
            ),
            None => Seq::empty(),
        }
    }

    /// Whether what is shown at time `t` is right: the lines of a cue that is on,
    /// or none where no cue is.
    pub open spec fn shows_right_cue(&self, t: Binary64) -> bool {
        match self.subtitles() {
            Some(s) => are_numbers(s.cues()) ==> tells(
                s.cues(),
                t,
                lines_at(s.cues(), looked_up(s.cues(), s.cursor(), t), t),
            ),
            None => true,
        }
    }

    /// Whether what changes the subtitle band to that of time `t` leaves the video
    /// alone: every row that is cleared or drawn lies below it.
    pub open spec fn spares_video(&self, t: Binary64) -> bool {
        let ops = self.layout().band_ops(self.lines_to_draw(t), self.sub_rows_drawn());
        forall|i: int|
            0 <= i < ops.len() ==> op_row(#[trigger] ops[i]) >= self.layout().band_top()
    }

    /// Whether the renderer has gone from `before` to `self` by showing the
    /// subtitles of time `t`: the lookup has moved on and the rows that were
    /// drawn are known, all else is as it was.
    pub open spec fn follows(&self, before: TerminalRenderer, t: Binary64) -> bool {
        &&& self.mapper() == before.mapper()
        &&& self.layout() == before.layout()
        &&& self.video() == before.video()
        &&& match before.subtitles() {
            None => {
                &&& self.subtitles() is None
                &&& self.sub_rows_drawn() == before.sub_rows_drawn()
            },
            Some(s) => {
                &&& self.subtitles() matches Some(next)
                &&& next.cues() == s.cues()
                &&& next.cursor() == looked_up(s.cues(), s.cursor(), t)
                &&& self.sub_rows_drawn() == before.layout().drawn(
                    before.lines_to_draw(t).len() as int,
                )
            },
        }
    }

    /// Append ANSI sequences that draw the active subtitle cue (if any) into the
    /// bottom band, using absolute cursor positioning so placement is
    /// independent of the frame text already written.
    ///
    /// Up to `MAX_SUB_LINES` cue lines are shown, each centered and truncated to
    /// the terminal width, anchored near the bottom of the screen. Every band
    /// row is cleared to end-of-line so a previous, longer cue can't linger.
    pub fn append_subtitles(&mut self, frame: &mut String, t: Binary64)
        ensures
            final(frame)@ == old(frame)@ + old(self).band_text(t),
            old(self).shows_right_cue(t),
            old(self).spares_video(t),
            final(self).follows(*old(self), t),
    {
        proof {
            use_type_invariant(&*self);
        }
        let layout = self.layout;
        let prev: usize = self.prev_sub_rows;
        assert(self.spares_video(t)) by {
            let lines = self.lines_to_draw(t);
            assert forall|i: int| 0 <= i < layout.band_ops(lines, prev as int).len() implies op_row(
                #[trigger] layout.band_ops(lines, prev as int)[i],
            ) >= layout.band_top() by {
                law_band_stays_below_video(layout, lines, prev as int, i);
            }
        }
        let mut subtitles: Option<Subtitles> = None;
        std::mem::swap(&mut subtitles, &mut self.subtitles);
        match subtitles {
            Some(mut subs) => {
                let lines = shown_lines(subs.active_at(t), &layout);
                assert(texts(lines@).len() == lines@.len());
                let drawn: usize = push_band(frame, &layout, &lines, prev);
                self.subtitles = Some(subs);
                self.prev_sub_rows = drawn;
            },
            None => {
                assert(frame@ =~= frame@ + Seq::<char>::empty());
            },
        }
    }

    /// The text that shows the frame `rgb`, of `sub_cols × sub_rows` pixels, at
    /// playback time `t`: from the top left corner on the frame in its place,
    /// and then the subtitle band.
    pub fn render_frame(&mut self, rgb: &[u8], t: Binary64) -> (out: String)
        requires
            old(self).mapper().quantize_bits() < 8,
            rgb@.len() == old(self).layout().sub_cols * old(self).layout().sub_rows * 3,
        ensures
            out@ == CURSOR_HOME@ + old(self).frame_text(rgb@) + old(self).band_text(t),
            old(self).shows_right_cue(t),
            old(self).spares_video(t),
            final(self).follows(*old(self), t),
    {
        proof {
            use_type_invariant(&*self);
        }
        let layout = self.layout;
        let cells = self.mapper.convert(rgb, layout.cols as usize, layout.rows as usize);
        let frame = pad_frame(cells.as_str(), layout.pad_x, layout.pad_y);
        let mut out = String::new();
        out.append(CURSOR_HOME);
        out.append(frame.as_str());
        assert(out@ =~= CURSOR_HOME@ + old(self).frame_text(rgb@));
        self.append_subtitles(&mut out, t);
        out
    }
}

// ── The info screen ─────────────────────────────────────────────────────

/// The render mode of a mapper.
pub open spec fn mode_of(m: Mapper) -> RenderMode {
    match m {
        Mapper::Ascii(_) => RenderMode::Ascii,
        Mapper::Braille(_) => RenderMode::Braille,
        Mapper::HalfBlock(_) => RenderMode::HalfBlock,
    }
}

/// Two numbers with an `x` between them.
pub open spec fn size_text(a: u32, b: u32) -> Seq<char> {
    decimal(a as nat) + "x"@ + decimal(b as nat)
}

fn push_size(out: &mut String, a: u32, b: u32)
    ensures
        final(out)@ == old(out)@ + size_text(a, b),
{
    push_decimal(out, a as usize);
    out.append("x");
    push_decimal(out, b as usize);
    assert(final(out)@ =~= old(out)@ + size_text(a, b));
}

/// How many levels a color channel has once its low bits are cleared.
fn levels_per_channel(quantize_bits: u32) -> (n: usize)
    requires
        quantize_bits <= 8,
    ensures
        n == pow2((8 - quantize_bits) as nat),
{
    let mut n: usize = 1;
    let left: u32 = 8 - quantize_bits;
    proof {
        vstd::arithmetic::power2::lemma2_to64();
    }
    for i in 0..left
        invariant
            left <= 8,
            n == pow2(i as nat),
    {
        proof {
            vstd::arithmetic::power2::lemma_pow2_unfold((i + 1) as nat);
            if i < 7 {
                vstd::arithmetic::power2::lemma_pow2_strictly_increases(i as nat, 7);
            }
            vstd::arithmetic::power2::lemma2_to64();
        }
        n = n * 2;
    }
    n
}

impl TerminalRenderer {
    /// How fine the picture is.
    pub open spec fn detail_text(&self) -> Seq<char> {
        let size = size_text(self.layout().sub_cols, self.layout().sub_rows);
        match self.mapper() {
            Mapper::Ascii(m) => decimal(m.palette().len()) + " glyph levels"@,
            Mapper::Braille(m) => size + " dots, threshold "@ + decimal(m.threshold() as nat) + (
            if m.dither() {
                ", dithered"@
            } else {
                ""@
            }),
            Mapper::HalfBlock(_) => size + " sub-pixels, 2 colors/cell"@,
        }
    }

    /// How many subtitles there are.
    pub open spec fn subtitles_text(&self) -> Seq<char> {
        match self.subtitles() {
            Some(s) => decimal(s.cues().len()) + " cue(s)"@,
            None => "none"@,
        }
    }

    /// The info screen, given the frame rate as text.
    pub open spec fn info_text(&self, fps: Seq<char>) -> Seq<char> {
        "\x1b[1m[ASCII Player — True Color]\x1b[0m"@
            + "\n  Mode        : "@ + mode_of(self.mapper()).name()
            + "\n  Orientation : "@ + Orientation::classified(self.video().0, self.video().1).name()
            + "\n  Video       : "@ + size_text(self.video().0, self.video().1)
            + "\n  Grid        : "@ + size_text(self.layout().cols, self.layout().rows) + " cells"@
            + "\n  Detail      : "@ + self.detail_text()
            + "\n  FPS         : "@ + fps
            + "\n  Quantization: "@ + decimal(pow2((8 - self.mapper().quantize_bits()) as nat))
            + " levels/channel"@
            + "\n  Subtitles   : "@ + self.subtitles_text()
            + "\n  Exit        : Ctrl+C\n"@
    }

    /// Append how fine the picture is.
    fn push_detail(&self, out: &mut String)
        ensures
            final(out)@ == old(out)@ + self.detail_text(),
    {
        match &self.mapper {
            Mapper::Ascii(m) => {
                push_decimal(out, m.levels());
                out.append(" glyph levels");
            },
            Mapper::Braille(m) => {
                push_size(out, self.layout.sub_cols, self.layout.sub_rows);
                out.append(" dots, threshold ");
                push_decimal(out, m.cutoff() as usize);
                out.append(
                    if m.dithers() {
                        ", dithered"
                    } else {
                        ""
                    },
                );
            },
            Mapper::HalfBlock(_) => {
                push_size(out, self.layout.sub_cols, self.layout.sub_rows);
                out.append(" sub-pixels, 2 colors/cell");
            },
        }
        assert(final(out)@ =~= old(out)@ + self.detail_text());
    }

    /// Append how many subtitles there are.
    fn push_subtitle_count(&self, out: &mut String)
        ensures
            final(out)@ == old(out)@ + self.subtitles_text(),
    {
        match &self.subtitles {
            Some(s) => {
                push_decimal(out, s.len());
                out.append(" cue(s)");
            },
            None => {
                out.append("none");
            },
        }
        assert(final(out)@ =~= old(out)@ + self.subtitles_text());
    }

    /// The info screen, given the frame rate as text.
    pub fn info_screen(&self, fps: &str) -> (out: String)
        requires
            self.mapper().quantize_bits() <= 8,
        ensures
            out@ == self.info_text(fps@),
    {
        let mode = match &self.mapper {
            Mapper::Ascii(_) => RenderMode::Ascii,
            Mapper::Braille(_) => RenderMode::Braille,
            Mapper::HalfBlock(_) => RenderMode::HalfBlock,
        };
        let mut out = String::new();
        out.append("\x1b[1m[ASCII Player — True Color]\x1b[0m");
        out.append("\n  Mode        : ");
        out.append(mode.label());
        out.append("\n  Orientation : ");
        out.append(Orientation::of(self.video.0, self.video.1).label());
        out.append("\n  Video       : ");
        push_size(&mut out, self.video.0, self.video.1);
        out.append("\n  Grid        : ");
        push_size(&mut out, self.layout.cols, self.layout.rows);
        out.append(" cells");
        out.append("\n  Detail      : ");
        self.push_detail(&mut out);
        out.append("\n  FPS         : ");
        out.append(fps);
        out.append("\n  Quantization: ");
        push_decimal(&mut out, levels_per_channel(self.mapper.masked_bits()));
        out.append(" levels/channel");
        out.append("\n  Subtitles   : ");
        self.push_subtitle_count(&mut out);
        out.append("\n  Exit        : Ctrl+C\n");
        assert(out@ =~= self.info_text(fps@));
        out
    }
}

// ── Laws ────────────────────────────────────────────────────────────────

/// The rows of a text, each but the first with `indent` in front of it.
spec fn indented_below(indent: Seq<char>, rows: Seq<Seq<char>>) -> Seq<Seq<char>> {
    Seq::new(
        rows.len(),
        |i: int|
            if i == 0 {
                rows[0]
            } else {
                indent + rows[i]
            },
    )
}

proof fn lemma_indented_rows(s: Seq<char>, pad_x: nat)
    ensures
        split_by(replaced(s, seq!['\n'], seq!['\n'] + repeated(' ', pad_x)), seq!['\n'])
            == indented_below(repeated(' ', pad_x), split_by(s, seq!['\n'])),
    decreases s.len(),
{
    let nl = seq!['\n'];
    let indent = repeated(' ', pad_x);
    let body = replaced(s, nl, nl + indent);
    let rows = split_by(s, nl);
    lemma_split_step(s, nl);
    lemma_split_step(body, nl);
    if s.len() == 0 {
        assert(rows =~= indented_below(indent, rows));
    } else {
        let t = s.skip(1);
        let below = replaced(t, nl, nl + indent);
        lemma_indented_rows(t, pad_x);
        lemma_split_step(t, nl);
        if occurs_at(s, nl, 0) {
            assert(body =~= nl + (indent + below));
            lemma_split_at_start(indent + below, '\n');
            lemma_split_prefix(indent, below, '\n');
            assert(split_by(body, nl) =~= indented_below(indent, rows));
        } else {
            assert(s.subrange(0, 1) =~= seq![s[0]]);
            assert(body =~= seq![s[0]] + below);
            lemma_split_prefix(seq![s[0]], below, '\n');
            assert(split_by(body, nl) =~= indented_below(indent, rows));
        }
    }
}

proof fn lemma_split_blank_rows(s: Seq<char>, n: nat)
    ensures
        split_by(repeated('\n', n) + s, seq!['\n']) == Seq::new(n, |i: int| Seq::<char>::empty())
            + split_by(s, seq!['\n']),
    decreases n,
{
    if n == 0 {
        assert(repeated('\n', n) + s =~= s);
        assert(Seq::new(n, |i: int| Seq::<char>::empty()) + split_by(s, seq!['\n']) =~= split_by(
            s,
            seq!['\n'],
        ));
    } else {
        let m = (n - 1) as nat;
        lemma_split_blank_rows(s, m);
        assert(repeated('\n', n) + s =~= seq!['\n'] + (repeated('\n', m) + s));
        lemma_split_at_start(repeated('\n', m) + s, '\n');
        assert(Seq::new(n, |i: int| Seq::<char>::empty()) =~= seq![Seq::<char>::empty()]
            + Seq::new(m, |i: int| Seq::<char>::empty()));
        assert(split_by(repeated('\n', n) + s, seq!['\n']) =~= Seq::new(
            n,
            |i: int| Seq::<char>::empty(),
        ) + split_by(s, seq!['\n']));
    }
}

/// Padding moves a frame as a whole: below `pad_y` empty rows stand the frame's
/// rows, each of them `pad_x` columns to the right.
pub proof fn law_padding_moves_every_row(rendered: Seq<char>, pad_x: nat, pad_y: nat)
    ensures
        split_by(padded(rendered, pad_x, pad_y), "\n"@) == Seq::new(
            pad_y,
            |i: int| Seq::<char>::empty(),
        ) + split_by(rendered, "\n"@).map_values(|row: Seq<char>| repeated(' ', pad_x) + row),
{
    reveal_strlit("\n");
    let nl = seq!['\n'];
    assert("\n"@ =~= nl);
    let indent = repeated(' ', pad_x);
    let rows = split_by(rendered, nl);
    let moved = rows.map_values(|row: Seq<char>| indent + row);
    let indented = if pad_x > 0 {
        indent + replaced(rendered, nl, nl + indent)
    } else {
        rendered
    };
    lemma_split_step(rendered, nl);
    if pad_x > 0 {
        lemma_indented_rows(rendered, pad_x);
        lemma_split_prefix(indent, replaced(rendered, nl, nl + indent), '\n');
        assert(split_by(indented, nl) =~= moved);
    } else {
        assert forall|i: int| 0 <= i < rows.len() implies #[trigger] rows[i] == moved[i] by {
            assert(rows[i] =~= indent + rows[i]);
        }
        assert(rows =~= moved);
    }
    lemma_split_blank_rows(indented, pad_y);
}

/// The frame stands in its place: below `pad_y` empty rows come the rows that the
/// mapper gives, each of them `pad_x` columns to the right.
pub proof fn law_frame_stands_in_its_place(r: TerminalRenderer, rgb: Seq<u8>)
    ensures
        split_by(r.frame_text(rgb), "\n"@) == Seq::new(
            r.layout().pad_y as nat,
            |i: int| Seq::<char>::empty(),
        ) + split_by(
            r.mapper().converted(rgb, r.layout().cols as nat, r.layout().rows as nat),
            "\n"@,
        ).map_values(|row: Seq<char>| Seq::new(r.layout().pad_x as nat, |i: int| ' ') + row),
{
    let text = r.mapper().converted(rgb, r.layout().cols as nat, r.layout().rows as nat);
    law_padding_moves_every_row(text, r.layout().pad_x as nat, r.layout().pad_y as nat);
    let rows = split_by(text, "\n"@);
    assert(rows.map_values(|row: Seq<char>| repeated(' ', r.layout().pad_x as nat) + row)
        =~= rows.map_values(
        |row: Seq<char>| Seq::new(r.layout().pad_x as nat, |i: int| ' ') + row,
    ));
}

/// What is drawn at a time is what the lookup finds: all lines of a cue of up to two
/// lines, in order, each as it is where it fits the terminal's width.
pub proof fn law_active_lines_are_drawn(r: TerminalRenderer, s: Subtitles, t: Binary64, i: int)
    requires
        r.subtitles() == Some(s),
    ensures
        ({
            let active = lines_at(s.cues(), looked_up(s.cues(), s.cursor(), t), t);
            &&& active.len() <= 2 ==> r.lines_to_draw(t).len() == active.len()
            &&& active.len() > 2 ==> r.lines_to_draw(t).len() == 2
            &&& 0 <= i < r.lines_to_draw(t).len() && active[i]@.len() <= r.layout().term_cols
                ==> r.lines_to_draw(t)[i] == active[i]@
            &&& r.lines_to_draw(t) == r.layout().display_lines(texts(active))
        }),
        r.band_text(t) == ops_text(
            r.layout().band_ops(r.lines_to_draw(t), r.sub_rows_drawn()),
        ),
{
    let active = lines_at(s.cues(), looked_up(s.cues(), s.cursor(), t), t);
    law_cue_is_shown_whole(r.layout(), texts(active), i);
    law_texts_are_the_strings(active, Seq::empty(), i);
}

/// Without subtitles nothing is drawn.
pub proof fn law_no_subtitles_no_band(r: TerminalRenderer, t: Binary64)
    requires
        r.subtitles() is None,
    ensures
        r.band_text(t).len() == 0,
{
}

/// The mapper of a mode is of that mode, and has the settings that it was given.
pub proof fn law_settings_reach_the_mapper(
    m: Mapper,
    mode: RenderMode,
    palette: Option<Seq<char>>,
    quantize_bits: u32,
    braille_threshold: u8,
    dither: bool,
)
    requires
        is_mapper_of(m, mode, palette, quantize_bits, braille_threshold, dither),
    ensures
        m.quantize_bits() == quantize_bits,
        m.scale() == mode.scale(),
        mode == RenderMode::Ascii ==> (m matches Mapper::Ascii(a) && a.palette() == active_palette(
            palette,
        )),
        mode == RenderMode::Braille ==> (m matches Mapper::Braille(b) && b.threshold()
            == braille_threshold && b.dither() == dither),
        mode == RenderMode::HalfBlock ==> m is HalfBlock,
{
}

/// What the info screen says of a session, line by line.
pub proof fn law_info_screen_lines(r: TerminalRenderer, fps: Seq<char>)
    ensures
        r.info_text(fps) == "\x1b[1m[ASCII Player — True Color]\x1b[0m"@ + "\n  Mode        : "@ + (
        match r.mapper() {
            Mapper::Ascii(_) => "ASCII (glyph ramp)"@,
            Mapper::Braille(_) => "BRAILLE (2×4 dots)"@,
            Mapper::HalfBlock(_) => "HALF-BLOCK (1×2, 2 colors)"@,
        }) + "\n  Orientation : "@ + (if r.video().1 > r.video().0 {
            "PORTRAIT"@
        } else {
            "LANDSCAPE"@
        }) + "\n  Video       : "@ + (decimal(r.video().0 as nat) + "x"@ + decimal(
            r.video().1 as nat,
        )) + "\n  Grid        : "@ + (decimal(r.layout().cols as nat) + "x"@ + decimal(
            r.layout().rows as nat,
        )) + " cells"@ + "\n  Detail      : "@ + (match r.mapper() {
            Mapper::Ascii(m) => decimal(m.palette().len()) + " glyph levels"@,
            Mapper::Braille(m) => (decimal(r.layout().sub_cols as nat) + "x"@ + decimal(
                r.layout().sub_rows as nat,
            )) + " dots, threshold "@ + decimal(m.threshold() as nat) + (if m.dither() {
                ", dithered"@
            } else {
                ""@
            }),
            Mapper::HalfBlock(_) => (decimal(r.layout().sub_cols as nat) + "x"@ + decimal(
                r.layout().sub_rows as nat,
            )) + " sub-pixels, 2 colors/cell"@,
        }) + "\n  FPS         : "@ + fps + "\n  Quantization: "@ + decimal(
            pow2((8 - r.mapper().quantize_bits()) as nat),
        ) + " levels/channel"@ + "\n  Subtitles   : "@ + (match r.subtitles() {
            Some(s) => decimal(s.cues().len()) + " cue(s)"@,
            None => "none"@,
        }) + "\n  Exit        : Ctrl+C\n"@,
{
}

/// The sub-pixels of a grid can be counted where the columns and the rows, times the
/// sub-pixels of a cell, are within 32 bits.
pub proof fn law_countable_grids(mode: RenderMode, cols: u32, rows: u32)
    ensures
        mode.countable(cols, rows) <==> cols * mode.scale().0 <= u32::MAX && rows * mode.scale().1
            <= u32::MAX,
        mode.scale() == (match mode {
            RenderMode::Ascii => (1nat, 1nat),
            RenderMode::Braille => (2nat, 4nat),
            RenderMode::HalfBlock => (1nat, 2nat),
        }),
        CURSOR_HOME@ == "\x1b[H"@,
        CLEAR_SCREEN@ == "\x1b[2J"@,
{
    let (sx, sy) = mode.scale();
    assert(sx == 1 ==> cols * sx == cols) by (nonlinear_arith);
    assert(sx == 2 ==> cols * sx == 2 * cols) by (nonlinear_arith);
    assert(sy == 1 ==> rows * sy == rows) by (nonlinear_arith);
    assert(sy == 2 ==> rows * sy == 2 * rows) by (nonlinear_arith);
    assert(sy == 4 ==> rows * sy == 4 * rows) by (nonlinear_arith);
}

} // verus!
