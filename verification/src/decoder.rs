//! Video decoding via ffmpeg/ffprobe: reading ffprobe's report, and putting raw
//! `rgb24` frames together from what ffmpeg writes.

use crate::binary64::Binary64;
use crate::text::{
    chars_of, decimal, holds, is_blank, is_white_space, lacks, law_decimal_reads_back, law_parting,
    law_parting_at, law_white_space_around, lemma_split_at_start, lemma_split_prefix,
    lemma_split_step, lines, lines_of, occurs_at, parse_u32, parted, pieces, push_decimal, reads,
    split_by, split_once, string_of, trim, trimmed, u32_value,
};
use vstd::arithmetic::power2::pow2;
use vstd::prelude::*;

verus! {

// ── The probe ───────────────────────────────────────────────────────────

/// A frame rate as ffprobe writes it, like `30000/1001` or `25`: the two sides
/// of the first slash, trimmed, or the whole where there is no slash.
#[derive(Debug, PartialEq, Eq)]
pub enum RateText {
    Ratio { num: String, den: String },
    Plain(String),
}

/// A frame rate as ffprobe writes it.
pub enum Rate {
    Ratio { num: Seq<char>, den: Seq<char> },
    Plain(Seq<char>),
}

impl View for RateText {
    type V = Rate;

    open spec fn view(&self) -> Rate {
        match self {
            RateText::Ratio { num, den } => Rate::Ratio { num: num@, den: den@ },
            RateText::Plain(s) => Rate::Plain(s@),
        }
    }
}

/// The rate that `s` reads as.
pub open spec fn rate(s: Seq<char>) -> Rate {
    match parted(s, "/"@) {
        Some((num, den)) => Rate::Ratio { num: trimmed(num), den: trimmed(den) },
        None => Rate::Plain(s),
    }
}

/// Take an ffprobe rational like "30000/1001" or "25/1" apart.
pub fn parse_rational(s: &[char]) -> (r: RateText)
    ensures
        r@ == rate(s@),
{
    match split_once(s, chars_of("/").as_slice()) {
        Some((num, den)) => RateText::Ratio { num: string_of(trim(num)), den: string_of(trim(den)) },
        None => RateText::Plain(string_of(s)),
    }
}

/// The two numbers of a rational whose quotient is a rate: nothing where one of
/// them is missing or the denominator is zero.
pub fn ratio(num: Option<Binary64>, den: Option<Binary64>) -> (r: Option<(Binary64, Binary64)>)
    ensures
        r == (match (num, den) {
            (Some(n), Some(d)) => if !d.is_nan() && d.value() == 0 {
                None
            } else {
                Some((n, d))
            },
            _ => None,
        }),
{
    match (num, den) {
        (Some(n), Some(d)) => {
            let zero = Binary64 { bits: 0 };
            if d.less_or_equal(zero) && zero.less_or_equal(d) {
                None
            } else {
                Some((n, d))
            }
        },
        _ => None,
    }
}

/// What ffprobe's report says, as far as the player needs it. A dimension that
/// is missing or unreadable is 0.
#[derive(Debug, PartialEq, Eq)]
pub struct ProbeReport {
    pub width: u32,
    pub height: u32,
    pub r_rate: Option<RateText>,
    pub avg_rate: Option<RateText>,
}

/// The value on the last of the lines that reads `key=value`.
pub open spec fn last_value(ls: Seq<Seq<char>>, key: Seq<char>) -> Option<Seq<char>>
    decreases ls.len(),
{
    if ls.len() == 0 {
        None
    } else {
        match parted(ls.last(), "="@) {
            Some((k, v)) => if k == key {
                Some(v)
            } else {
                last_value(ls.drop_last(), key)
            },
            None => last_value(ls.drop_last(), key),
        }
    }
}

/// The dimension that a value reads as.
pub open spec fn dimension(v: Option<Seq<char>>) -> u32 {
    match v {
        Some(s) => match u32_value(trimmed(s)) {
            Some(n) => n,
            None => 0,
        },
        None => 0,
    }
}

/// The rate that a value reads as.
pub open spec fn reported_rate(v: Option<Seq<char>>) -> Option<Rate> {
    match v {
        Some(s) => Some(rate(trimmed(s))),
        None => None,
    }
}

/// What an optional rate reads as.
pub open spec fn rate_view(r: Option<RateText>) -> Option<Rate> {
    match r {
        Some(t) => Some(t@),
        None => None,
    }
}

impl ProbeReport {
    /// Whether this is what the lines of a report say.
    pub open spec fn tells(&self, ls: Seq<Seq<char>>) -> bool {
        &&& self.width == dimension(last_value(ls, "width"@))
        &&& self.height == dimension(last_value(ls, "height"@))
        &&& rate_view(self.r_rate) == reported_rate(last_value(ls, "r_frame_rate"@))
        &&& rate_view(self.avg_rate) == reported_rate(last_value(ls, "avg_frame_rate"@))
    }

    /// Read a report with one `key=value` on each line.
    pub fn read(report: &str) -> (r: ProbeReport)
        ensures
            r.tells(lines_of(report@)),
    {
        let ls = lines(chars_of(report).as_slice());
        let ghost want = pieces(ls@);
        let equals = chars_of("=");
        let mut r = ProbeReport { width: 0, height: 0, r_rate: None, avg_rate: None };
        proof {
            reveal_strlit("width");
            reveal_strlit("height");
            reveal_strlit("r_frame_rate");
            reveal_strlit("avg_frame_rate");
        }
        for i in 0..ls.len()
            invariant
                want == pieces(ls@),
                equals@ == "="@,
                "width"@.len() == 5,
                "height"@.len() == 6,
                "r_frame_rate"@.len() == 12,
                "avg_frame_rate"@.len() == 14,
                r.tells(want.take(i as int)),
        {
            assert(want.take(i + 1).drop_last() == want.take(i as int));
            assert(want[i as int] == ls@[i as int]@);
            match split_once(ls[i].as_slice(), equals.as_slice()) {
                Some((k, v)) => {
                    let v = trim(v);
                    if reads(k, "width") {
                        r.width = parse_dimension(v);
                    } else if reads(k, "height") {
                        r.height = parse_dimension(v);
                    } else if reads(k, "r_frame_rate") {
                        r.r_rate = Some(parse_rational(v));
                    } else if reads(k, "avg_frame_rate") {
                        r.avg_rate = Some(parse_rational(v));
                    }
                },
                None => {},
            }
        }
        assert(want.take(ls@.len() as int) =~= want);
        r
    }
}

/// The dimension that a trimmed value reads as.
fn parse_dimension(v: &[char]) -> (n: u32)
    ensures
        n == (match u32_value(v@) {
            Some(n) => n,
            None => 0,
        }),
{
    match parse_u32(v) {
        Some(n) => n,
        None => 0,
    }
}

/// The bits of 24.0, the frame rate that is taken where none is known.
pub const DEFAULT_FPS: u64 = 0x4038_0000_0000_0000;

/// A rate that frames can be played at.
pub open spec fn playable(rate: Option<Binary64>) -> bool {
    rate matches Some(f) && !f.is_nan() && f.value() > 0
}

/// The rate to play at: the average rate (true playback rate), or else the
/// nominal rate, or else a sensible default.
pub open spec fn playback_rate(avg: Option<Binary64>, nominal: Option<Binary64>) -> Binary64 {
    if playable(avg) {
        avg->0
    } else if playable(nominal) {
        nominal->0
    } else {
        Binary64 { bits: DEFAULT_FPS }
    }
}

fn positive(rate: Option<Binary64>) -> (r: bool)
    ensures
        r == playable(rate),
{
    match rate {
        Some(f) => Binary64 { bits: 0 }.less(f),
        None => false,
    }
}

/// Video metadata, gathered with a single `ffprobe` call.
#[derive(Clone, Copy, Debug)]
pub struct VideoProbe {
    pub width: u32,
    pub height: u32,
    pub fps: Binary64,
}

impl VideoProbe {
    /// The metadata in a report, given the numbers that its two rates stand for;
    /// nothing where the report gives no dimensions.
    pub fn from_report(
        report: &ProbeReport,
        avg_fps: Option<Binary64>,
        r_fps: Option<Binary64>,
    ) -> (p: Option<VideoProbe>)
        ensures
            p is None <==> report.width == 0 || report.height == 0,
            p matches Some(v) ==> {
                &&& v.width == report.width
                &&& v.height == report.height
                &&& v.fps == playback_rate(avg_fps, r_fps)
            },
    {
        if report.width == 0 || report.height == 0 {
            return None;
        }
        // Prefer avg_frame_rate (true playback rate); fall back to r_frame_rate,
        // then to a sensible default of 24.0 if neither is reported.
        let fps = if positive(avg_fps) {
            avg_fps.unwrap()
        } else if positive(r_fps) {
            r_fps.unwrap()
        } else {
            Binary64 { bits: DEFAULT_FPS }
        };
        Some(VideoProbe { width: report.width, height: report.height, fps })
    }
}

// ── Frames ──────────────────────────────────────────────────────────────

/// The filter that has ffmpeg scale to `cols × rows` pixels.
pub open spec fn scale_text(cols: u32, rows: u32) -> Seq<char> {
    "scale="@ + decimal(cols as nat) + ":"@ + decimal(rows as nat) + ":flags=bilinear"@
}

/// The filter that has ffmpeg scale to `cols × rows` pixels.
pub fn scale_filter(cols: u32, rows: u32) -> (out: String)
    ensures
        out@ == scale_text(cols, rows),
{
    let mut out = String::new();
    out.append("scale=");
    push_decimal(&mut out, cols as usize);
    out.append(":");
    push_decimal(&mut out, rows as usize);
    out.append(":flags=bilinear");
    assert(out@ =~= scale_text(cols, rows));
    out
}

/// How one read of the stream came out.
#[derive(Debug)]
pub enum ReadOutcome<'a> {
    /// The next bytes of the stream; none where it has ended.
    Bytes(&'a [u8]),
    /// The read was interrupted before it got anything.
    Interrupted,
    Failed,
}

/// How one read of the stream came out.
pub enum Outcome {
    Bytes(Seq<u8>),
    Interrupted,
    Failed,
}

impl<'a> View for ReadOutcome<'a> {
    type V = Outcome;

    open spec fn view(&self) -> Outcome {
        match self {
            ReadOutcome::Bytes(b) => Outcome::Bytes(b@),
            ReadOutcome::Interrupted => Outcome::Interrupted,
            ReadOutcome::Failed => Outcome::Failed,
        }
    }
}

/// What to do next.
#[derive(Clone, Copy, Debug, PartialEq, Eq, Structural)]
pub enum FrameStep {
    /// Read on: the frame is not complete.
    Read,
    /// The frame is complete.
    Frame,
    /// The stream has ended at a frame boundary.
    End,
    /// The stream has ended in the middle of a frame.
    MidFrame,
    /// The read has failed.
    Failed,
}

/// What to do once a read has come out, if `bytes` were read before it.
pub open spec fn step(frame_bytes: nat, bytes: Seq<u8>, outcome: Outcome) -> FrameStep {
    match outcome {
        Outcome::Bytes(b) => if b.len() == 0 {
            if bytes.len() == 0 {
                FrameStep::End
            } else {
                FrameStep::MidFrame
            }
        } else if bytes.len() + b.len() >= frame_bytes {
            FrameStep::Frame
        } else {
            FrameStep::Read
        },
        Outcome::Interrupted => FrameStep::Read,
        Outcome::Failed => FrameStep::Failed,
    }
}

/// The bytes that a read has got.
pub open spec fn gained(outcome: Outcome) -> Seq<u8> {
    match outcome {
        Outcome::Bytes(b) => b,
        _ => Seq::empty(),
    }
}

/// Puts raw `rgb24` frames together, each of exactly `cols * rows * 3` bytes.
pub struct FrameReader {
    frame_bytes: usize,
    /// What has been read of the frame.
    buf: Vec<u8>,
}

impl FrameReader {
    #[verifier::type_invariant]
    spec fn well_formed(self) -> bool {
        self.buf@.len() <= self.frame_bytes
    }

    /// The bytes of a frame.
    pub closed spec fn frame_bytes(&self) -> nat {
        self.frame_bytes as nat
    }

    /// What has been read of the frame.
    pub closed spec fn bytes(&self) -> Seq<u8> {
        self.buf@
    }

    pub fn open(cols: u32, rows: u32) -> (r: FrameReader)
        requires
            cols * rows * 3 <= usize::MAX,
        ensures
            r.frame_bytes() == cols * rows * 3,
            r.bytes().len() == 0,
    {
        assert(cols * rows <= cols * rows * 3) by (nonlinear_arith);
        let frame_bytes: usize = (cols as usize) * (rows as usize) * 3;
        FrameReader { frame_bytes, buf: Vec::new() }
    }

    /// Start on the next frame.
    pub fn begin(&mut self) -> (s: FrameStep)
        ensures
            final(self).frame_bytes() == old(self).frame_bytes(),
            final(self).bytes().len() == 0,
            s == (if old(self).frame_bytes() == 0 {
                FrameStep::Frame
            } else {
                FrameStep::Read
            }),
    {
        let mut buf: Vec<u8> = Vec::new();
        std::mem::swap(&mut buf, &mut self.buf);
        buf.clear();
        self.buf = buf;
        if self.frame_bytes == 0 {
            FrameStep::Frame
        } else {
            FrameStep::Read
        }
    }

    /// How many bytes the frame still lacks.
    pub fn lacking(&self) -> (n: usize)
        ensures
            n == self.frame_bytes() - self.bytes().len(),
    {
        proof {
            use_type_invariant(self);
        }
        self.frame_bytes - self.buf.len()
    }

    /// Take in how a read of at most `lacking` bytes came out.
    pub fn after_read(&mut self, outcome: &ReadOutcome) -> (s: FrameStep)
        requires
            gained(outcome@).len() <= old(self).frame_bytes() - old(self).bytes().len(),
        ensures
            final(self).frame_bytes() == old(self).frame_bytes(),
            final(self).bytes() == old(self).bytes() + gained(outcome@),
            s == step(old(self).frame_bytes(), old(self).bytes(), outcome@),
    {
        proof {
            use_type_invariant(&*self);
        }
        match outcome {
            ReadOutcome::Bytes(b) => {
                let had: usize = self.buf.len();
                let frame_bytes: usize = self.frame_bytes;
                let mut buf: Vec<u8> = Vec::new();
                std::mem::swap(&mut buf, &mut self.buf);
                let ghost before = buf@;
                buf.extend_from_slice(b);
                assert(buf@ =~= before + b@);
                self.buf = buf;
                if b.len() == 0 {
                    if had == 0 {
                        FrameStep::End
                    } else {
                        FrameStep::MidFrame
                    }
                } else if self.buf.len() >= frame_bytes {
                    FrameStep::Frame
                } else {
                    FrameStep::Read
                }
            },
            ReadOutcome::Interrupted => {
                assert(self.buf@ =~= self.buf@ + Seq::<u8>::empty());
                FrameStep::Read
            },
            ReadOutcome::Failed => {
                assert(self.buf@ =~= self.buf@ + Seq::<u8>::empty());
                FrameStep::Failed
            },
        }
    }

    /// What has been read of the frame: all of it, once it is complete.
    pub fn frame(&self) -> (b: &[u8])
        ensures
            b@ == self.bytes(),
    {
        self.buf.as_slice()
    }
}

// ── Laws ────────────────────────────────────────────────────────────────

/// Whatever the probe reports, playback runs at a positive rate.
pub proof fn law_playback_rate_is_positive(avg: Option<Binary64>, nominal: Option<Binary64>)
    ensures
        playable(Some(playback_rate(avg, nominal))),
{
    let default = Binary64 { bits: DEFAULT_FPS };
    let zero = Binary64 { bits: 0 };
    crate::binary64::lemma_rank_orders(zero, default);
}

/// The stream while it is read: the frames that were completed, what was read of
/// the next one, and what to do next.
pub struct Stream {
    pub frames: Seq<Seq<u8>>,
    pub bytes: Seq<u8>,
    pub next: FrameStep,
}

/// Where reading a stream of frames stands after the given reads. After each
/// frame the next one is begun; once the stream has ended or failed nothing more
/// is read.
pub open spec fn streamed(frame_bytes: nat, outcomes: Seq<Outcome>) -> Stream
    decreases outcomes.len(),
{
    if outcomes.len() == 0 {
        Stream { frames: Seq::empty(), bytes: Seq::empty(), next: FrameStep::Read }
    } else {
        let s = streamed(frame_bytes, outcomes.drop_last());
        if s.next != FrameStep::Read {
            s
        } else {
            let all = s.bytes + gained(outcomes.last());
            match step(frame_bytes, s.bytes, outcomes.last()) {
                FrameStep::Frame => Stream {
                    frames: s.frames.push(all),
                    bytes: Seq::empty(),
                    next: FrameStep::Read,
                },
                next => Stream { frames: s.frames, bytes: all, next },
            }
        }
    }
}

/// Whether each read got at most what the frame lacked.
pub open spec fn within_frames(frame_bytes: nat, outcomes: Seq<Outcome>) -> bool {
    forall|i: int|
        0 <= i < outcomes.len() ==> gained(#[trigger] outcomes[i]).len() + streamed(
            frame_bytes,
            outcomes.take(i),
        ).bytes.len() <= frame_bytes
}

/// All bytes that the reads got, in order.
pub open spec fn received(outcomes: Seq<Outcome>) -> Seq<u8>
    decreases outcomes.len(),
{
    if outcomes.len() == 0 {
        Seq::empty()
    } else {
        received(outcomes.drop_last()) + gained(outcomes.last())
    }
}

/// The frames one after the other.
pub open spec fn joined(frames: Seq<Seq<u8>>) -> Seq<u8>
    decreases frames.len(),
{
    if frames.len() == 0 {
        Seq::empty()
    } else {
        joined(frames.drop_last()) + frames.last()
    }
}

/// Frames are neither torn nor mixed: each has exactly the bytes of one frame,
/// and together with what was read of the next one they are the stream as it was
/// received, however the reads cut it and however often one was interrupted.
pub proof fn law_frames_are_the_stream(frame_bytes: nat, outcomes: Seq<Outcome>)
    requires
        frame_bytes > 0,
        within_frames(frame_bytes, outcomes),
        outcomes.len() > 0 ==> streamed(frame_bytes, outcomes.drop_last()).next == FrameStep::Read,
    ensures
        joined(streamed(frame_bytes, outcomes).frames) + streamed(frame_bytes, outcomes).bytes
            == received(outcomes),
        forall|i: int|
            0 <= i < streamed(frame_bytes, outcomes).frames.len() ==> (
            #[trigger] streamed(frame_bytes, outcomes).frames[i]).len() == frame_bytes,
        streamed(frame_bytes, outcomes).bytes.len() < frame_bytes,
    decreases outcomes.len(),
{
    let now = streamed(frame_bytes, outcomes);
    if outcomes.len() == 0 {
        assert(joined(now.frames) + now.bytes =~= received(outcomes));
    } else {
        let earlier = outcomes.drop_last();
        let before = streamed(frame_bytes, earlier);
        assert(earlier == outcomes.take(outcomes.len() - 1));
        assert forall|i: int| 0 <= i < earlier.len() implies gained(
            #[trigger] earlier[i],
        ).len() + streamed(frame_bytes, earlier.take(i)).bytes.len() <= frame_bytes by {
            assert(earlier.take(i) == outcomes.take(i));
            assert(earlier[i] == outcomes[i]);
        }
        law_frames_are_the_stream(frame_bytes, earlier);
        let last = outcomes.last();
        assert(last == outcomes[outcomes.len() - 1]);
        let all = before.bytes + gained(last);
        if step(frame_bytes, before.bytes, last) == FrameStep::Frame {
            assert(now.frames.drop_last() == before.frames);
            assert(joined(now.frames) + now.bytes =~= received(outcomes));
        } else {
            assert(joined(now.frames) + now.bytes =~= received(outcomes));
        }
    }
}

/// The stream is taken to end cleanly only where it ended at a frame boundary:
/// all that was received before is whole frames. An end anywhere else is an end
/// in the middle of a frame.
pub proof fn law_clean_end_is_at_boundary(frame_bytes: nat, outcomes: Seq<Outcome>)
    requires
        frame_bytes > 0,
        within_frames(frame_bytes, outcomes),
        outcomes.len() > 0,
        streamed(frame_bytes, outcomes.drop_last()).next == FrameStep::Read,
        outcomes.last() == Outcome::Bytes(Seq::empty()),
    ensures
        streamed(frame_bytes, outcomes).next == (if received(outcomes).len() % frame_bytes == 0 {
            FrameStep::End
        } else {
            FrameStep::MidFrame
        }),
{
    let earlier = outcomes.drop_last();
    let before = streamed(frame_bytes, earlier);
    assert forall|i: int| 0 <= i < earlier.len() implies gained(#[trigger] earlier[i]).len()
        + streamed(frame_bytes, earlier.take(i)).bytes.len() <= frame_bytes by {
        assert(earlier.take(i) == outcomes.take(i));
        assert(earlier[i] == outcomes[i]);
    }
    law_frames_are_the_stream(frame_bytes, earlier);
    assert(received(outcomes) =~= received(earlier));
    lemma_joined_len(before.frames, frame_bytes);
    let n = before.frames.len() as int;
    let rest = before.bytes.len() as int;
    vstd::arithmetic::div_mod::lemma_fundamental_div_mod_converse(
        received(earlier).len() as int,
        frame_bytes as int,
        n,
        rest,
    );
}

proof fn lemma_joined_len(frames: Seq<Seq<u8>>, frame_bytes: nat)
    requires
        forall|i: int| 0 <= i < frames.len() ==> (#[trigger] frames[i]).len() == frame_bytes,
    ensures
        joined(frames).len() == frame_bytes * frames.len(),
    decreases frames.len(),
{
    if frames.len() > 0 {
        lemma_joined_len(frames.drop_last(), frame_bytes);
        assert(frame_bytes * frames.len() == frame_bytes * (frames.len() - 1) + frame_bytes)
            by (nonlinear_arith);
    } else {
        assert(frame_bytes * frames.len() == 0) by (nonlinear_arith)
            requires
                frames.len() == 0,
        ;
    }
}

/// A report is read key by key: the last line with a key counts, up to the first
/// equals sign, and lines with another key or none do not matter.
pub proof fn law_report_values(ls: Seq<Seq<char>>, key: Seq<char>, other: Seq<char>, v: Seq<char>)
    requires
        lacks(key, '='),
        lacks(other, '='),
        key != other,
    ensures
        last_value(Seq::empty(), key) is None,
        last_value(ls.push(key + seq!['='] + v), key) == Some(v),
        last_value(ls.push(other + seq!['='] + v), key) == last_value(ls, key),
        last_value(ls.push(other), key) == last_value(ls, key),
{
    reveal_strlit("=");
    let eq = seq!['='];
    assert("="@ =~= eq);
    lemma_key_parts(key, v);
    lemma_key_parts(other, v);
    law_parting(other, eq);
    if holds(other, eq) {
        let i = choose|i: int| occurs_at(other, eq, i);
        assert(other.subrange(i, i + 1)[0] == other[i]);
    }
    assert(ls.push(key + eq + v).drop_last() =~= ls);
    assert(ls.push(other + eq + v).drop_last() =~= ls);
    assert(ls.push(other).drop_last() =~= ls);
}

proof fn lemma_key_parts(key: Seq<char>, v: Seq<char>)
    requires
        lacks(key, '='),
    ensures
        parted(key + seq!['='] + v, seq!['=']) == Some((key, v)),
{
    let eq = seq!['='];
    let s = key + eq + v;
    assert forall|i: int| 0 <= i < key.len() implies !occurs_at(s, eq, i) by {
        if occurs_at(s, eq, i) {
            assert(s.subrange(i, i + 1)[0] == key[i]);
        }
    }
    law_parting_at(key, eq, v);
}

/// What a report says: each field from the key of its own name.
pub proof fn law_report_fields(r: ProbeReport, ls: Seq<Seq<char>>, w: u32, h: u32)
    requires
        r.tells(ls),
    ensures
        last_value(ls, "width"@) == Some(decimal(w as nat)) ==> r.width == w,
        last_value(ls, "height"@) == Some(decimal(h as nat)) ==> r.height == h,
        last_value(ls, "width"@) is None ==> r.width == 0,
        last_value(ls, "height"@) is None ==> r.height == 0,
        r.r_rate is None <==> last_value(ls, "r_frame_rate"@) is None,
        r.avg_rate is None <==> last_value(ls, "avg_frame_rate"@) is None,
        r.r_rate matches Some(t) ==> (last_value(ls, "r_frame_rate"@) matches Some(v) && t@ == rate(
            trimmed(v),
        )),
        r.avg_rate matches Some(t) ==> (last_value(ls, "avg_frame_rate"@) matches Some(v) && t@
            == rate(trimmed(v))),
{
    lemma_decimal_is_trimmed(w as nat);
    lemma_decimal_is_trimmed(h as nat);
    law_decimal_reads_back(w as nat);
    law_decimal_reads_back(h as nat);
}

proof fn lemma_decimal_is_trimmed(n: nat)
    ensures
        trimmed(decimal(n)) == decimal(n),
{
    law_decimal_reads_back(n);
    let d = decimal(n);
    assert('0' <= d[0] <= '9' && '0' <= d[d.len() - 1] <= '9');
}

/// A rate is read as it was written: the numerator before the first slash and the
/// denominator behind it, or the whole where there is no slash.
pub proof fn law_rate_is_read(num: Seq<char>, den: Seq<char>)
    requires
        lacks(num, '/'),
    ensures
        rate(num + seq!['/'] + den) == (Rate::Ratio { num: trimmed(num), den: trimmed(den) }),
        rate(num) == Rate::Plain(num),
{
    reveal_strlit("/");
    let slash = seq!['/'];
    assert("/"@ =~= slash);
    let s = num + slash + den;
    assert forall|i: int| 0 <= i < num.len() implies !occurs_at(s, slash, i) by {
        if occurs_at(s, slash, i) {
            assert(s.subrange(i, i + 1)[0] == num[i]);
        }
    }
    law_parting_at(num, slash, den);
    law_parting(num, slash);
    if holds(num, slash) {
        let i = choose|i: int| occurs_at(num, slash, i);
        assert(num.subrange(i, i + 1)[0] == num[i]);
    }
}

/// The average rate is played at wherever it is a positive number, the nominal rate
/// only where the average is not, and 24 frames a second where neither is.
pub proof fn law_playback_rate_prefers_the_average(avg: Binary64, nominal: Binary64)
    ensures
        !avg.is_nan() && avg.value() > 0 ==> playback_rate(Some(avg), Some(nominal)) == avg
            && playback_rate(Some(avg), None) == avg,
        (avg.is_nan() || avg.value() <= 0) && !nominal.is_nan() && nominal.value() > 0
            ==> playback_rate(Some(avg), Some(nominal)) == nominal,
        !nominal.is_nan() && nominal.value() > 0 ==> playback_rate(None, Some(nominal)) == nominal,
        (avg.is_nan() || avg.value() <= 0) && (nominal.is_nan() || nominal.value() <= 0) ==> playback_rate(
            Some(avg),
            Some(nominal),
        ) == playback_rate(None, None),
        avg.is_nan() || avg.value() <= 0 ==> playback_rate(Some(avg), None) == playback_rate(
            None,
            None,
        ),
        nominal.is_nan() || nominal.value() <= 0 ==> playback_rate(None, Some(nominal))
            == playback_rate(None, None),
        playback_rate(None, None).bits == 0x4038_0000_0000_0000,
        !playback_rate(None, None).is_nan(),
        playback_rate(None, None).value() == 24 * pow2(1074),
{
    crate::binary64::law_value_of_parts(1027, 0x8_0000_0000_0000);
    vstd::arithmetic::power2::lemma_pow2_adds(48, 1026);
    vstd::arithmetic::power2::lemma2_to64();
    vstd::arithmetic::power2::lemma_pow2_adds(32, 16);
    assert(pow2(48) == 0x1_0000_0000_0000);
    assert(0x18_0000_0000_0000int * pow2(1026) == 24 * pow2(1074)) by (nonlinear_arith)
        requires
            pow2(1074) == 0x1_0000_0000_0000int * pow2(1026),
    ;
}

/// An interrupted read changes nothing, and a failed one is told at once.
pub proof fn law_reads_that_got_nothing(frame_bytes: nat, outcomes: Seq<Outcome>)
    requires
        streamed(frame_bytes, outcomes).next == FrameStep::Read,
    ensures
        streamed(frame_bytes, outcomes.push(Outcome::Interrupted)) == streamed(
            frame_bytes,
            outcomes,
        ),
        streamed(frame_bytes, outcomes.push(Outcome::Failed)).next == FrameStep::Failed,
        streamed(frame_bytes, outcomes.push(Outcome::Failed)).frames == streamed(
            frame_bytes,
            outcomes,
        ).frames,
{
    let s = streamed(frame_bytes, outcomes);
    assert(outcomes.push(Outcome::Interrupted).drop_last() =~= outcomes);
    assert(outcomes.push(Outcome::Failed).drop_last() =~= outcomes);
    assert(s.bytes + Seq::<u8>::empty() =~= s.bytes);
}

/// A frame is complete as soon as all its bytes are there, and not before.
pub proof fn law_frame_is_complete(frame_bytes: nat, bytes: Seq<u8>, more: Seq<u8>)
    requires
        more.len() > 0,
        bytes.len() + more.len() <= frame_bytes,
    ensures
        step(frame_bytes, bytes, Outcome::Bytes(more)) == (if bytes.len() + more.len()
            == frame_bytes {
            FrameStep::Frame
        } else {
            FrameStep::Read
        }),
        gained(Outcome::Bytes(more)) == more,
        gained(Outcome::Interrupted).len() == 0,
        gained(Outcome::Failed).len() == 0,
{
}

/// The size in the scale filter is written in decimal, the width before the height.
pub proof fn law_scale_filter(cols: u32, rows: u32)
    ensures
        split_by(scale_text(cols, rows), seq![':']) == seq![
            "scale="@ + decimal(cols as nat),
            decimal(rows as nat),
            "flags=bilinear"@,
        ],
{
    reveal_strlit("scale=");
    reveal_strlit(":");
    reveal_strlit(":flags=bilinear");
    reveal_strlit("flags=bilinear");
    let sep = seq![':'];
    assert(":"@ =~= sep);
    assert(":flags=bilinear"@ =~= sep + "flags=bilinear"@);
    law_decimal_reads_back(cols as nat);
    law_decimal_reads_back(rows as nat);
    let a = "scale="@ + decimal(cols as nat);
    let b = decimal(rows as nat);
    let c = "flags=bilinear"@;
    assert forall|i: int| 0 <= i < a.len() implies #[trigger] a[i] != ':' by {
        if i >= 6 {
            assert(a[i] == decimal(cols as nat)[i - 6]);
        }
    }
    assert(scale_text(cols, rows) =~= a + (sep + (b + (sep + c))));
    lemma_split_prefix(a, sep + (b + (sep + c)), ':');
    lemma_split_at_start(b + (sep + c), ':');
    lemma_split_prefix(b, sep + c, ':');
    lemma_split_at_start(c, ':');
    lemma_split_prefix(c, Seq::empty(), ':');
    lemma_split_step(Seq::empty(), sep);
    assert(c + Seq::<char>::empty() =~= c);
    assert(split_by(c, sep) =~= seq![c]);
    assert(split_by(b + (sep + c), sep) =~= seq![b, c]);
    assert(split_by(scale_text(cols, rows), sep) =~= seq![a, b, c]);
}

/// What a value reads as is what its fields read as.
pub proof fn law_decoder_views(num: String, den: String, b: &[u8])
    ensures
        (RateText::Ratio { num, den })@ == (Rate::Ratio { num: num@, den: den@ }),
        RateText::Plain(num)@ == Rate::Plain(num@),
        ReadOutcome::Bytes(b)@ == Outcome::Bytes(b@),
        ReadOutcome::Interrupted@ == Outcome::Interrupted,
        ReadOutcome::Failed@ == Outcome::Failed,
{
}

/// A dimension is the number that its value reads as, whatever white space is round
/// it, and 0 where it reads as none.
pub proof fn law_dimensions(
    r: ProbeReport,
    ls: Seq<Seq<char>>,
    before: Seq<char>,
    v: Seq<char>,
    behind: Seq<char>,
)
    requires
        r.tells(ls),
        is_blank(before),
        is_blank(behind),
        v.len() > 0,
        !is_white_space(v[0]),
        !is_white_space(v.last()),
    ensures
        last_value(ls, "width"@) == Some(before + v + behind) ==> r.width == (match u32_value(v) {
            Some(n) => n,
            None => 0,
        }),
        last_value(ls, "height"@) == Some(before + v + behind) ==> r.height == (match u32_value(v) {
            Some(n) => n,
            None => 0,
        }),
{
    law_white_space_around(before, v, behind);
}

} // verus!
