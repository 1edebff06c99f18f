//! Subtitle support: timed lookup and track choice.
//!
//! Two sources feed the same `Subtitles` cue list: an external `.srt` file, or a
//! text subtitle stream embedded in the container, which is transcoded to SRT
//! first. Only *text* subtitle codecs are supported; bitmap subtitles can't be
//! turned into text and are rejected.

use crate::binary64::Binary64;
use crate::srt::{nonempty, timed_texts, CueText, TimedText};
use crate::text::{
    chars_of, decimal, is_white_space, joined_by, lacks, law_lines_read_back, lines, lines_of,
    pieces, push_decimal, reads, string_of, texts, trim, trimmed,
};
use vstd::prelude::*;

verus! {

// ── Timed cues ──────────────────────────────────────────────────────────

/// One subtitle cue: shown from `start` to `end` (seconds), with `lines` of
/// already-cleaned plain text.
#[derive(Debug, Clone, PartialEq)]
pub struct Cue {
    pub start: Binary64,
    pub end: Binary64,
    pub lines: Vec<String>,
}

/// Whether a cue is on at time `t`.
pub open spec fn shows(cue: Cue, t: Binary64) -> bool {
    cue.start.at_most(t) && t.at_most(cue.end)
}

/// Whether all times are numbers.
pub open spec fn are_numbers(cues: Seq<Cue>) -> bool {
    forall|i: int|
        0 <= i < cues.len() ==> !(#[trigger] cues[i]).start.is_nan() && !cues[i].end.is_nan()
}

/// Whether all start times are numbers.
pub open spec fn starts_are_numbers(cues: Seq<Cue>) -> bool {
    forall|i: int| 0 <= i < cues.len() ==> !(#[trigger] cues[i]).start.is_nan()
}

/// Whether `p` lists the numbers below its length, each once.
pub open spec fn is_permutation(p: Seq<int>) -> bool {
    &&& forall|i: int| 0 <= i < p.len() ==> 0 <= #[trigger] p[i] < p.len()
    &&& forall|i: int, j: int|
        0 <= i < j < p.len() ==> #[trigger] p[i] != #[trigger] p[j]
}

/// Whether `out` holds the cues of `cues` in the order `p`.
pub open spec fn arranged(cues: Seq<Cue>, out: Seq<Cue>, p: Seq<int>) -> bool {
    &&& p.len() == cues.len()
    &&& out.len() == cues.len()
    &&& is_permutation(p)
    &&& forall|i: int| 0 <= i < out.len() ==> #[trigger] out[i] == cues[p[i]]
}

/// Whether the order `p` is by start time, and among equal starts as before.
pub open spec fn is_stable_order(cues: Seq<Cue>, p: Seq<int>) -> bool {
    forall|i: int, j: int|
        0 <= i < j < p.len() ==> {
            let a = cues[#[trigger] p[i]].start.value();
            let b = cues[#[trigger] p[j]].start.value();
            a < b || (a == b && p[i] < p[j])
        }
}

/// Whether `out` is the stable sort of `cues` by start time. Where a start time
/// is no number there is no order to sort by: then `out` holds the same cues in
/// some order.
pub open spec fn sorted_by_start(cues: Seq<Cue>, out: Seq<Cue>) -> bool {
    exists|p: Seq<int>|
        #[trigger] arranged(cues, out, p) && (starts_are_numbers(cues) ==> is_stable_order(
            cues,
            p,
        ))
}

/// Sorts the cues by start time; equal starts keep their order.
fn sort_cues(cues: &mut Vec<Cue>)
    ensures
        sorted_by_start(old(cues)@, final(cues)@),
{
    let ghost input = cues@;
    let ghost mut p: Seq<int> = Seq::new(input.len(), |i: int| i);
    let len: usize = cues.len();
    for i in 0..len
        invariant
            len == cues@.len(),
            len == input.len(),
            arranged(input, cues@, p),
            forall|k: int| i <= k < len ==> #[trigger] p[k] == k,
            forall|k: int| 0 <= k < i ==> #[trigger] p[k] < i,
            starts_are_numbers(input) ==> forall|a: int, b: int|
                0 <= a < b < i ==> {
                    let x = input[#[trigger] p[a]].start.value();
                    let y = input[#[trigger] p[b]].start.value();
                    x < y || (x == y && p[a] < p[b])
                },
    {
        let mut j: usize = i;
        assert(p[i as int] == i);
        while j > 0 && cues[i].start.less(cues[j - 1].start)
            invariant
                j <= i < len,
                len == cues@.len(),
                len == input.len(),
                arranged(input, cues@, p),
                forall|k: int|
                    j <= k < i ==> cues@[i as int].start.below((#[trigger] cues@[k]).start),
            decreases j,
        {
            j = j - 1;
        }
        let ghost before = cues@;
        let ghost old_p = p;
        let cue = cues.remove(i);
        cues.insert(j, cue);
        proof {
            p = old_p.remove(i as int).insert(j as int, old_p[i as int]);
            assert(cues@ == before.remove(i as int).insert(j as int, before[i as int]));
            assert forall|k: int| 0 <= k < len implies #[trigger] p[k] == (if k < j {
                old_p[k]
            } else if k == j {
                old_p[i as int]
            } else if k <= i {
                old_p[k - 1]
            } else {
                old_p[k]
            }) by {}
            assert(forall|k: int| 0 <= k < len ==> (#[trigger] cues@[k]) == input[p[k]]);
            if starts_are_numbers(input) {
                let v = input[i as int].start.value();
                assert(forall|k: int| 0 <= k < len ==> before[k] == input[#[trigger] old_p[k]]);
                assert forall|k: int| j <= k < i implies v < input[
                    #[trigger] old_p[k]].start.value() by {
                    assert(before[k] == input[old_p[k]]);
                    assert(before[i as int].start.below(before[k].start));
                }
                assert forall|k: int| 0 <= k < j implies input[
                    #[trigger] old_p[k]].start.value() <= v by {
                    assert(before[j - 1] == input[old_p[j - 1]]);
                    assert(old_p[k] == old_p[k] && old_p[j - 1] == old_p[j - 1]);
                }
            }
        }
    }
    assert(sorted_by_start(input, cues@)) by {
        assert(arranged(input, cues@, p));
    }
}

/// A time-ordered list of cues with a cursor for monotonic playback lookup.
pub struct Subtitles {
    cues: Vec<Cue>,
    /// Cache of the last index returned, so `active_at` is O(1) amortized as
    /// playback time advances monotonically.
    cursor: usize,
    /// No cue ends later than this, so a later time needs no search.
    horizon: Binary64,
}

/// The first cue at or after `from` that has not ended before `t`, or the number
/// of cues if all have.
pub open spec fn first_open(cues: Seq<Cue>, from: int, t: Binary64) -> int
    decreases cues.len() - from,
{
    if from >= cues.len() {
        cues.len() as int
    } else if cues[from].end.below(t) {
        first_open(cues, from + 1, t)
    } else {
        from
    }
}

/// Where a lookup at time `t` starts: where the one before stopped, or at the
/// first cue if `t` has fallen behind the cue found there, or if there is none.
pub open spec fn rewound(cues: Seq<Cue>, cursor: int, t: Binary64) -> int {
    if cursor < cues.len() && !t.below(cues[cursor].start) {
        cursor
    } else {
        0
    }
}

/// Where a lookup at time `t` stops, if the one before stopped at `cursor`.
pub open spec fn looked_up(cues: Seq<Cue>, cursor: int, t: Binary64) -> int {
    first_open(cues, rewound(cues, cursor, t), t)
}

/// The lines to show at time `t` once the lookup has stopped at `cursor`.
pub open spec fn lines_at(cues: Seq<Cue>, cursor: int, t: Binary64) -> Seq<String> {
    if 0 <= cursor < cues.len() && shows(cues[cursor], t) {
        cues[cursor].lines@
    } else {
        Seq::empty()
    }
}

/// Whether `lines` is right for time `t`: the lines of a cue that is on, or no
/// lines where none is.
pub open spec fn tells(cues: Seq<Cue>, t: Binary64, lines: Seq<String>) -> bool {
    if exists|i: int| 0 <= i < cues.len() && shows(#[trigger] cues[i], t) {
        exists|i: int|
            0 <= i < cues.len() && shows(#[trigger] cues[i], t) && lines == cues[i].lines@
    } else {
        lines.len() == 0
    }
}

/// Whether the cues are in the order of their start times.
spec fn in_order(cues: Seq<Cue>) -> bool {
    forall|i: int, j: int|
        0 <= i < j < cues.len() ==> (#[trigger] cues[i]).start.value() <= (
        #[trigger] cues[j]).start.value()
}

/// Whether every cue that the cursor has passed ends before the one it is at.
spec fn passed(cues: Seq<Cue>, cursor: int) -> bool {
    forall|j: int|
        0 <= j < cursor < cues.len() ==> (#[trigger] cues[j]).end.value()
            < cues[cursor].end.value()
}

proof fn lemma_first_open(cues: Seq<Cue>, from: int, t: Binary64)
    requires
        0 <= from <= cues.len(),
    ensures
        from <= first_open(cues, from, t) <= cues.len(),
        forall|k: int|
            from <= k < first_open(cues, from, t) ==> (#[trigger] cues[k]).end.below(t),
        first_open(cues, from, t) < cues.len() ==> !cues[first_open(cues, from, t)].end.below(t),
    decreases cues.len() - from,
{
    if from < cues.len() && cues[from].end.below(t) {
        lemma_first_open(cues, from + 1, t);
    }
}

proof fn lemma_first_open_is(cues: Seq<Cue>, from: int, t: Binary64, c: int)
    requires
        0 <= from <= c <= cues.len(),
        forall|k: int| from <= k < c ==> (#[trigger] cues[k]).end.below(t),
        c < cues.len() ==> !cues[c].end.below(t),
    ensures
        first_open(cues, from, t) == c,
    decreases cues.len() - from,
{
    if from < c {
        assert(cues[from].end.below(t));
        lemma_first_open_is(cues, from + 1, t, c);
    }
}

proof fn lemma_lookup_tells(cues: Seq<Cue>, cursor: int, t: Binary64)
    requires
        0 <= cursor <= cues.len(),
        are_numbers(cues),
        in_order(cues),
        passed(cues, cursor),
    ensures
        tells(cues, t, lines_at(cues, looked_up(cues, cursor, t), t)),
        passed(cues, looked_up(cues, cursor, t)),
{
    let from = rewound(cues, cursor, t);
    let c = looked_up(cues, cursor, t);
    lemma_first_open(cues, from, t);
    if t.is_nan() {
        assert(c == from);
    } else {
        assert forall|i: int| 0 <= i < c implies (#[trigger] cues[i]).end.below(t) || (c == from && c
            < cues.len() && shows(cues[c], t)) by {
            if i < from {
                assert(from == cursor);
                assert(cues[i].end.value() < cues[cursor].end.value());
                if c > from {
                    assert(cues[from].end.below(t));
                }
            }
        }
        if c < cues.len() && shows(cues[c], t) {
            assert forall|j: int| 0 <= j < c implies (#[trigger] cues[j]).end.value()
                < cues[c].end.value() by {}
        } else {
            assert forall|i: int| 0 <= i < cues.len() implies !shows(#[trigger] cues[i], t) by {
                if i < c {
                    assert(cues[i].end.below(t));
                } else if i > c {
                    assert(cues[c].start.value() <= cues[i].start.value());
                }
            }
        }
    }
}

impl Subtitles {
    #[verifier::type_invariant]
    spec fn well_formed(self) -> bool {
        &&& self.cursor <= self.cues@.len()
        &&& forall|t: Binary64, i: int|
            #![trigger self.horizon.below(t), self.cues@[i]]
            0 <= i < self.cues@.len() && self.horizon.below(t) ==> self.cues@[i].end.below(t)
        &&& are_numbers(self.cues@) ==> in_order(self.cues@) && passed(
            self.cues@,
            self.cursor as int,
        )
    }

    /// The cues, in order.
    pub closed spec fn cues(&self) -> Seq<Cue> {
        self.cues@
    }

    /// Where the last lookup stopped.
    pub closed spec fn cursor(&self) -> int {
        self.cursor as int
    }

    /// Number of cues loaded (for the info screen).
    pub fn len(&self) -> (n: usize)
        ensures
            n == self.cues().len(),
    {
        self.cues.len()
    }

    /// Orders the cues by start time.
    pub fn from_cues(cues: Vec<Cue>) -> (s: Subtitles)
        ensures
            sorted_by_start(cues@, s.cues()),
            s.cursor() == 0,
    {
        let ghost input = cues@;
        let mut cues = cues;
        sort_cues(&mut cues);
        let mut horizon = Binary64 { bits: 0 };
        for i in 0..cues.len()
            invariant
                forall|t: Binary64, k: int|
                    #![trigger horizon.below(t), cues@[k]]
                    0 <= k < i && horizon.below(t) ==> cues@[k].end.below(t),
        {
            let end = cues[i].end;
            let ghost before = horizon;
            if !horizon.nan() && !end.less_or_equal(horizon) {
                horizon = end;
            }
            assert forall|t: Binary64, k: int|
                #![trigger horizon.below(t), cues@[k]]
                0 <= k < i + 1 && horizon.below(t) implies cues@[k].end.below(t) by {
                if k < i {
                    assert(before.below(t));
                }
            }
        }
        proof {
            let p = choose|p: Seq<int>|
                #[trigger] arranged(input, cues@, p) && (starts_are_numbers(input)
                    ==> is_stable_order(input, p));
            if are_numbers(cues@) {
                assert forall|i: int| 0 <= i < input.len() implies !(
                #[trigger] input[i]).start.is_nan() by {
                    lemma_permutation_hits(p, i);
                    let k = choose|k: int| 0 <= k < p.len() && #[trigger] p[k] == i;
                    assert(cues@[k] == input[p[k]]);
                }
                assert forall|i: int, j: int| 0 <= i < j < cues@.len() implies (
                #[trigger] cues@[i]).start.value() <= (#[trigger] cues@[j]).start.value() by {
                    assert(cues@[i] == input[p[i]] && cues@[j] == input[p[j]]);
                }
            }
        }
        Subtitles { cues, cursor: 0, horizon }
    }

    /// Lines to display at playback time `t` (seconds), or `&[]` if none.
    ///
    /// Optimized for monotonically increasing `t`: advances a cursor forward,
    /// but also handles seeks/restarts by resetting when `t` falls behind.
    pub fn active_at(&mut self, t: Binary64) -> (lines: &[String])
        ensures
            final(self).cues() == old(self).cues(),
            final(self).cursor() == looked_up(old(self).cues(), old(self).cursor(), t),
            lines@ == lines_at(old(self).cues(), final(self).cursor(), t),
            are_numbers(old(self).cues()) ==> tells(old(self).cues(), t, lines@),
    {
        proof {
            use_type_invariant(&*self);
            if are_numbers(self.cues@) {
                lemma_lookup_tells(self.cues@, self.cursor as int, t);
            }
        }
        let ghost cues = self.cues@;
        let len: usize = self.cues.len();
        let mut c: usize = self.cursor;
        if c < len {
            // If time jumped backwards (restart), rewind the cursor.
            if t.less(self.cues[c].start) {
                c = 0;
            }
        } else if !self.horizon.less(t) {
            // All cues had ended, and at `t` perhaps not all of them have.
            c = 0;
        }
        let ghost from = c;
        // Advance past cues that have fully ended.
        while c < len && self.cues[c].end.less(t)
            invariant
                cues == self.cues@,
                len == cues.len(),
                from <= c <= len,
                forall|k: int| from <= k < c ==> (#[trigger] cues[k]).end.below(t),
            decreases len - c,
        {
            c = c + 1;
        }
        proof {
            lemma_first_open_is(cues, from as int, t, c as int);
            if from == len {
                assert forall|k: int| 0 <= k < len implies (#[trigger] cues[k]).end.below(
                    t,
                ) by {}
                lemma_first_open_is(cues, 0, t, len as int);
            }
        }
        self.cursor = c;
        if c < len && self.cues[c].start.less_or_equal(t) && t.less_or_equal(self.cues[c].end) {
            self.cues[c].lines.as_slice()
        } else {
            let none: &[String] = &[];
            assert(none@ =~= Seq::<String>::empty());
            none
        }
    }
}

/// A list of `n` different numbers below `n` leaves none of them out.
proof fn lemma_permutation_hits(p: Seq<int>, v: int)
    requires
        is_permutation(p),
        0 <= v < p.len(),
    ensures
        exists|k: int| 0 <= k < p.len() && #[trigger] p[k] == v,
{
    if forall|k: int| 0 <= k < p.len() ==> #[trigger] p[k] != v {
        let n = p.len() as int;
        let s = p.to_set();
        p.unique_seq_to_set();
        let all = vstd::set_lib::set_int_range(0, n);
        vstd::set_lib::lemma_int_range(0, n);
        assert(s.subset_of(all.remove(v)));
        vstd::set_lib::lemma_len_subset(s, all.remove(v));
        assert(false);
    }
}

/// A cue, with its lines as text.
pub struct PlainCue {
    pub start: Binary64,
    pub end: Binary64,
    pub lines: Seq<Seq<char>>,
}

impl View for Cue {
    type V = PlainCue;

    open spec fn view(&self) -> PlainCue {
        PlainCue { start: self.start, end: self.end, lines: texts(self.lines@) }
    }
}

/// What a list of cues reads as.
pub open spec fn plain_cues(cues: Seq<Cue>) -> Seq<PlainCue> {
    cues.map_values(|c: Cue| c@)
}

/// The cues of an SRT text, given the seconds that the timestamps of each stand
/// for; one whose timestamps stand for none is left out.
pub open spec fn timed(
    cues: Seq<TimedText>,
    times: Seq<Option<(Binary64, Binary64)>>,
) -> Seq<PlainCue>
    decreases cues.len(),
{
    if cues.len() == 0 || times.len() == 0 {
        Seq::empty()
    } else {
        let before = timed(cues.drop_last(), times.drop_last());
        match times.last() {
            Some((start, end)) => before.push(
                PlainCue { start, end, lines: cues.last().lines },
            ),
            None => before,
        }
    }
}

/// The cues of an SRT text, once its timestamps are read: of each of the `cues`
/// the start and the end in seconds, or nothing where they denote no numbers.
pub fn timed_cues(cues: Vec<CueText>, times: &Vec<Option<(Binary64, Binary64)>>) -> (out: Vec<Cue>)
    requires
        cues@.len() == times@.len(),
    ensures
        plain_cues(out@) == timed(timed_texts(cues@), times@),
{
    let ghost want = timed_texts(cues@);
    let mut out: Vec<Cue> = Vec::new();
    let mut i: usize = 0;
    assert(plain_cues(out@) =~= timed(want.take(0), times@.take(0)));
    for cue in it: cues
        invariant
            it.seq() == cues@,
            i == it.index(),
            want == timed_texts(cues@),
            want.len() == times@.len(),
            plain_cues(out@) == timed(want.take(i as int), times@.take(i as int)),
    {
        let ghost before = out@;
        assert(want.take(i + 1).drop_last() == want.take(i as int));
        assert(times@.take(i + 1).drop_last() == times@.take(i as int));
        match times[i] {
            Some((start, end)) => {
                out.push(Cue { start, end, lines: cue.lines });
                assert(plain_cues(out@) =~= plain_cues(before).push(out@.last()@));
            },
            None => {},
        }
        assert(times@.len() == times.len());
        i = i + 1;
    }
    assert(want.take(want.len() as int) =~= want);
    assert(times@.take(want.len() as int) =~= times@);
    out
}

/// Whether `out` is the stable sort by start time of cues that read `cues`.
pub open spec fn sorted_from(cues: Seq<PlainCue>, out: Seq<Cue>) -> bool {
    exists|source: Seq<Cue>|
        plain_cues(source) == cues && #[trigger] sorted_by_start(source, out)
}

impl Subtitles {
    /// The subtitles of an SRT text, once its timestamps are read; nothing where
    /// no cue is left.
    pub fn from_timed(cues: Vec<CueText>, times: &Vec<Option<(Binary64, Binary64)>>) -> (r: Option<
        Subtitles,
    >)
        requires
            cues@.len() == times@.len(),
        ensures
            r is None <==> timed(timed_texts(cues@), times@).len() == 0,
            r matches Some(s) ==> s.cursor() == 0 && sorted_from(
                timed(timed_texts(cues@), times@),
                s.cues(),
            ),
    {
        let source = timed_cues(cues, times);
        assert(plain_cues(source@).len() == source@.len());
        if source.len() == 0 {
            None
        } else {
            let subtitles = Subtitles::from_cues(source);
            assert(sorted_from(timed(timed_texts(cues@), times@), subtitles.cues())) by {
                assert(sorted_by_start(source@, subtitles.cues()));
            }
            Some(subtitles)
        }
    }
}

// ── Tracks ──────────────────────────────────────────────────────────────

/// A subtitle stream as reported by ffprobe.
#[derive(Debug, PartialEq, Eq)]
pub struct SubStream {
    /// Index among *subtitle* streams (for ffmpeg's `0:s:<n>` selector).
    pub sub_index: u32,
    pub codec: String,
    pub is_text: bool,
}

/// A subtitle stream, with its codec as text.
pub struct StreamInfo {
    pub sub_index: u32,
    pub codec: Seq<char>,
    pub is_text: bool,
}

impl View for SubStream {
    type V = StreamInfo;

    open spec fn view(&self) -> StreamInfo {
        StreamInfo { sub_index: self.sub_index, codec: self.codec@, is_text: self.is_text }
    }
}

/// The subtitle codecs that are text formats.
pub open spec fn is_text(codec: Seq<char>) -> bool {
    ||| codec == "subrip"@
    ||| codec == "srt"@
    ||| codec == "ass"@
    ||| codec == "ssa"@
    ||| codec == "mov_text"@
    ||| codec == "webvtt"@
    ||| codec == "text"@
    ||| codec == "subviewer"@
    ||| codec == "subviewer1"@
}

/// Whether an ffmpeg subtitle codec name is a text format we can transcode to
/// SRT. Bitmap formats (hdmv_pgs_subtitle, dvd_subtitle, dvb_subtitle…) are not.
pub fn is_text_codec(codec: &str) -> (r: bool)
    ensures
        r == is_text(codec@),
{
    let c = chars_of(codec);
    let c = c.as_slice();
    reads(c, "subrip") || reads(c, "srt") || reads(c, "ass") || reads(c, "ssa") || reads(
        c,
        "mov_text",
    ) || reads(c, "webvtt") || reads(c, "text") || reads(c, "subviewer") || reads(c, "subviewer1")
}

/// The codec names in a report: its lines, trimmed, without the empty ones.
pub open spec fn codec_names(report: Seq<char>) -> Seq<Seq<char>> {
    nonempty(lines_of(report).map_values(|l: Seq<char>| trimmed(l)))
}

/// The streams with the given codecs, numbered in order.
pub open spec fn numbered_streams(codecs: Seq<Seq<char>>) -> Seq<StreamInfo> {
    Seq::new(
        codecs.len(),
        |i: int|
            StreamInfo { sub_index: i as u32, codec: codecs[i], is_text: is_text(codecs[i]) },
    )
}

/// What a list of streams reads as.
pub open spec fn stream_infos(streams: Seq<SubStream>) -> Seq<StreamInfo> {
    streams.map_values(|s: SubStream| s@)
}

/// List subtitle streams in order, from a report with one codec name on each
/// line.
pub fn subtitle_streams(report: &str) -> (streams: Vec<SubStream>)
    ensures
        stream_infos(streams@) == numbered_streams(codec_names(report@)),
{
    let ls = lines(chars_of(report).as_slice());
    let ghost want = pieces(ls@).map_values(|l: Seq<char>| trimmed(l));
    let mut streams: Vec<SubStream> = Vec::new();
    assert(stream_infos(streams@) =~= numbered_streams(nonempty(want.take(0))));
    for i in 0..ls.len()
        invariant
            want == pieces(ls@).map_values(|l: Seq<char>| trimmed(l)),
            stream_infos(streams@) == numbered_streams(nonempty(want.take(i as int))),
    {
        let codec = trim(ls[i].as_slice());
        let ghost before = streams@;
        let ghost names = nonempty(want.take(i as int));
        assert(want.take(i + 1).drop_last() == want.take(i as int));
        assert(want[i as int] == codec@);
        assert(stream_infos(before).len() == before.len());
        if codec.len() > 0 {
            let name = string_of(codec);
            let text = is_text_codec(name.as_str());
            streams.push(
                SubStream { sub_index: streams.len() as u32, codec: name, is_text: text },
            );
            assert(stream_infos(streams@) =~= stream_infos(before).push(streams@.last()@));
            assert(numbered_streams(names.push(codec@)) =~= numbered_streams(names).push(
                streams@.last()@,
            ));
        }
    }
    assert(want.take(ls@.len() as int) =~= want);
    streams
}

/// Why no embedded track can be used.
#[derive(Debug, PartialEq, Eq)]
pub enum TrackError {
    /// There are no subtitle tracks.
    NoTracks,
    /// The wanted track is not among the `available` ones.
    OutOfRange { track: u32, available: usize },
    /// The track is a bitmap format, which can't be rendered as text.
    Bitmap { sub_index: u32, codec: String },
}

/// Whether `i` is the first text track.
pub open spec fn is_first_text(streams: Seq<StreamInfo>, i: int) -> bool {
    &&& 0 <= i < streams.len()
    &&& streams[i].is_text
    &&& forall|j: int| 0 <= j < i ==> !(#[trigger] streams[j]).is_text
}

/// The track meant by `track`: that one, or where none is given the first text
/// track, or the first track where there is no text track.
pub open spec fn wanted_track(streams: Seq<StreamInfo>, track: Option<u32>) -> int {
    match track {
        Some(t) => t as int,
        None => if exists|i: int| is_first_text(streams, i) {
            choose|i: int| is_first_text(streams, i)
        } else {
            0
        },
    }
}

/// Choose the embedded track to use.
///
/// `track` is the index *among subtitle streams* (0 = first subtitle track).
/// When `None`, the first text subtitle track found is used.
pub fn choose_track(streams: &Vec<SubStream>, track: Option<u32>) -> (r: Result<usize, TrackError>)
    ensures
        ({
            let infos = stream_infos(streams@);
            let wanted = wanted_track(infos, track);
            match r {
                Ok(i) => i == wanted && i < infos.len() && infos[i as int].is_text,
                Err(TrackError::NoTracks) => infos.len() == 0,
                Err(TrackError::OutOfRange { track: t, available }) => {
                    &&& infos.len() > 0
                    &&& track == Some(t)
                    &&& available == infos.len()
                    &&& t >= available
                },
                Err(TrackError::Bitmap { sub_index, codec }) => {
                    &&& 0 <= wanted < infos.len()
                    &&& !infos[wanted].is_text
                    &&& sub_index == infos[wanted].sub_index
                    &&& codec@ == infos[wanted].codec
                },
            }
        }),
{
    let ghost infos = stream_infos(streams@);
    assert(infos.len() == streams@.len());
    assert(forall|i: int| 0 <= i < infos.len() ==> infos[i] == (#[trigger] streams@[i])@);
    if streams.len() == 0 {
        return Err(TrackError::NoTracks);
    }
    let chosen: usize = match track {
        Some(t) => {
            if t as usize >= streams.len() {
                return Err(TrackError::OutOfRange { track: t, available: streams.len() });
            }
            t as usize
        },
        None => first_text(streams),
    };
    if !streams[chosen].is_text {
        return Err(
            TrackError::Bitmap {
                sub_index: streams[chosen].sub_index,
                codec: streams[chosen].codec.clone(),
            },
        );
    }
    Ok(chosen)
}

/// The first text track, or the first track where there is no text track.
fn first_text(streams: &Vec<SubStream>) -> (r: usize)
    requires
        streams@.len() > 0,
    ensures
        r == wanted_track(stream_infos(streams@), None),
        r < streams@.len(),
{
    let ghost infos = stream_infos(streams@);
    assert(forall|i: int| 0 <= i < infos.len() ==> infos[i] == (#[trigger] streams@[i])@);
    for i in 0..streams.len()
        invariant
            infos == stream_infos(streams@),
            forall|k: int| 0 <= k < infos.len() ==> infos[k] == (#[trigger] streams@[k])@,
            forall|k: int| 0 <= k < i ==> !(#[trigger] infos[k]).is_text,
    {
        if streams[i].is_text {
            proof {
                assert(infos[i as int] == streams@[i as int]@);
                assert(is_first_text(infos, i as int));
                let c = choose|c: int| is_first_text(infos, c);
                if c < i {
                    assert(!infos[c].is_text);
                } else if c > i {
                    assert(!infos[i as int].is_text);
                }
            }
            return i;
        }
    }
    0
}

impl TrackError {
    /// What to tell the user, given the video's name in quotes.
    pub open spec fn told(&self, video: Seq<char>) -> Seq<char> {
        match self {
            TrackError::NoTracks => "no subtitle tracks found in "@ + video,
            TrackError::OutOfRange { track, available } => "subtitle track "@ + decimal(
                *track as nat,
            ) + " out of range: "@ + decimal(*available as nat) + " text track(s) available (0.."@
                + decimal(
                if *available > 0 {
                    (available - 1) as nat
                } else {
                    0
                },
            ) + ")"@,
            TrackError::Bitmap { sub_index, codec } => "subtitle track "@ + decimal(
                *sub_index as nat,
            ) + " is a bitmap format ("@ + codec@
                + "), which can't be rendered as text; pick a text track with --subtitles-track <n>"@,
        }
    }

    /// What to tell the user, given the video's name in quotes.
    pub fn message(&self, video: &str) -> (out: String)
        ensures
            out@ == self.told(video@),
    {
        let mut out = String::new();
        match self {
            TrackError::NoTracks => {
                out.append("no subtitle tracks found in ");
                out.append(video);
            },
            TrackError::OutOfRange { track, available } => {
                let last: usize = if *available > 0 {
                    *available - 1
                } else {
                    0
                };
                out.append("subtitle track ");
                push_decimal(&mut out, *track as usize);
                out.append(" out of range: ");
                push_decimal(&mut out, *available);
                out.append(" text track(s) available (0..");
                push_decimal(&mut out, last);
                out.append(")");
            },
            TrackError::Bitmap { sub_index, codec } => {
                out.append("subtitle track ");
                push_decimal(&mut out, *sub_index as usize);
                out.append(" is a bitmap format (");
                out.append(codec.as_str());
                out.append(
                    "), which can't be rendered as text; pick a text track with --subtitles-track <n>",
                );
            },
        }
        assert(out@ =~= self.told(video@));
        out
    }
}

/// ffmpeg's selector of a subtitle stream.
pub fn stream_selector(sub_index: u32) -> (out: String)
    ensures
        out@ == "0:s:"@ + decimal(sub_index as nat),
{
    let mut out = String::new();
    out.append("0:s:");
    push_decimal(&mut out, sub_index as usize);
    assert(out@ =~= "0:s:"@ + decimal(sub_index as nat));
    out
}

// ── Laws ────────────────────────────────────────────────────────────────

/// Where the lookups at the given times, one after the other, stop.
pub open spec fn cursor_after(cues: Seq<Cue>, times: Seq<Binary64>) -> int
    decreases times.len(),
{
    if times.len() == 0 {
        0
    } else {
        looked_up(cues, cursor_after(cues, times.drop_last()), times.last())
    }
}

/// While time does not run backwards, a lookup finds what one that knows nothing
/// of the earlier ones finds: the first cue in order that has not ended.
pub proof fn law_forward_playback(cues: Seq<Cue>, times: Seq<Binary64>)
    requires
        times.len() > 0,
        forall|i: int, j: int|
            0 <= i < j < times.len() ==> (#[trigger] times[i]).at_most(#[trigger] times[j]),
    ensures
        cursor_after(cues, times) == first_open(cues, 0, times.last()),
    decreases times.len(),
{
    let t = times.last();
    if times.len() == 1 {
        assert(cursor_after(cues, times.drop_last()) == 0);
    } else {
        let earlier = times.drop_last();
        law_forward_playback(cues, earlier);
        let c = cursor_after(cues, earlier);
        let t0 = earlier.last();
        assert(t0 == times[times.len() - 2] && t == times[times.len() - 1]);
        assert(t0.at_most(t));
        lemma_first_open(cues, 0, t0);
        if rewound(cues, c, t) == c {
            lemma_first_open(cues, c, t);
            assert forall|k: int| 0 <= k < first_open(cues, c, t) implies (
            #[trigger] cues[k]).end.below(t) by {
                if k < c {
                    assert(cues[k].end.below(t0));
                }
            }
            lemma_first_open_is(cues, 0, t, first_open(cues, c, t));
        }
    }
}

/// A restart is noticed: a time before the cue that the cursor is at, or any time
/// once all cues were passed, is looked up as if it were the first.
pub proof fn law_restart_rewinds(cues: Seq<Cue>, cursor: int, t: Binary64)
    requires
        0 <= cursor <= cues.len(),
        cursor == cues.len() || t.below(cues[cursor].start),
    ensures
        looked_up(cues, cursor, t) == looked_up(cues, 0, t),
        looked_up(cues, cursor, t) == first_open(cues, 0, t),
{
}

/// Without a request, the first text track is used wherever there is one, also
/// where bitmap tracks come before it.
pub proof fn law_first_text_track_is_used(streams: Seq<StreamInfo>, k: int)
    requires
        0 <= k < streams.len(),
        streams[k].is_text,
    ensures
        is_first_text(streams, wanted_track(streams, None)),
        wanted_track(streams, None) <= k,
{
    lemma_first_text_exists(streams, k);
    let w = wanted_track(streams, None);
    if w > k {
        assert(!streams[k].is_text);
    }
}

proof fn lemma_first_text_exists(streams: Seq<StreamInfo>, k: int)
    requires
        0 <= k < streams.len(),
        streams[k].is_text,
    ensures
        exists|i: int| is_first_text(streams, i),
    decreases k,
{
    if forall|j: int| 0 <= j < k ==> !(#[trigger] streams[j]).is_text {
        assert(is_first_text(streams, k));
    } else {
        let j = choose|j: int| 0 <= j < k && (#[trigger] streams[j]).is_text;
        lemma_first_text_exists(streams, j);
    }
}

/// Whether a cue is on at a time, in numbers.
pub open spec fn is_on(cue: Cue, t: Binary64) -> bool {
    &&& !cue.start.is_nan() && !t.is_nan() && !cue.end.is_nan()
    &&& cue.start.value() <= t.value() <= cue.end.value()
}

/// What is shown is right: where a cue is on, the lines of one that is on, and
/// where none is, no line.
pub proof fn law_lines_told(cues: Seq<Cue>, t: Binary64, lines: Seq<String>, i: int)
    requires
        tells(cues, t, lines),
    ensures
        lines.len() > 0 ==> exists|j: int|
            0 <= j < cues.len() && is_on(#[trigger] cues[j], t) && lines == cues[j].lines@,
        0 <= i < cues.len() && is_on(cues[i], t) ==> exists|j: int|
            0 <= j < cues.len() && is_on(#[trigger] cues[j], t) && lines == cues[j].lines@,
{
    if exists|j: int| 0 <= j < cues.len() && shows(#[trigger] cues[j], t) {
        let j = choose|j: int|
            0 <= j < cues.len() && shows(#[trigger] cues[j], t) && lines == cues[j].lines@;
        assert(is_on(cues[j], t));
    } else if 0 <= i < cues.len() && is_on(cues[i], t) {
        assert(shows(cues[i], t));
    }
}

/// A lookup goes on from where the one before stopped, or from the first cue if time
/// has fallen behind or no cue was left; it passes the cues that have ended, stops
/// at the first one that has not, and shows that one's lines if it is on.
pub proof fn law_lookup(cues: Seq<Cue>, cursor: int, t: Binary64)
    requires
        0 <= cursor <= cues.len(),
        are_numbers(cues),
        !t.is_nan(),
    ensures
        ({
            let from = if cursor < cues.len() && cues[cursor].start.value() <= t.value() {
                cursor
            } else {
                0
            };
            let c = looked_up(cues, cursor, t);
            &&& from <= c <= cues.len()
            &&& forall|k: int| from <= k < c ==> (#[trigger] cues[k]).end.value() < t.value()
            &&& c < cues.len() ==> t.value() <= cues[c].end.value()
            &&& c < cues.len() && cues[c].start.value() <= t.value() ==> lines_at(cues, c, t)
                == cues[c].lines@
            &&& c == cues.len() || t.value() < cues[c].start.value() ==> lines_at(
                cues,
                c,
                t,
            ).len() == 0
        }),
{
    if cursor < cues.len() {
        assert(!cues[cursor].start.is_nan());
    }
    lemma_first_open(cues, rewound(cues, cursor, t), t);
    let c = looked_up(cues, cursor, t);
    if c < cues.len() {
        assert(!cues[c].end.is_nan());
    }
}

/// How many of the first `n` pairs of times are there.
pub open spec fn timed_before(times: Seq<Option<(Binary64, Binary64)>>, n: int) -> int
    decreases n,
{
    if n <= 0 {
        0
    } else {
        timed_before(times, n - 1) + (if times[n - 1] is Some {
            1int
        } else {
            0
        })
    }
}

/// Each cue whose times are numbers is kept, in order, with its own start, its own
/// end and its own lines; the others are left out.
pub proof fn law_cues_get_their_times(
    cues: Seq<TimedText>,
    times: Seq<Option<(Binary64, Binary64)>>,
    i: int,
)
    requires
        cues.len() == times.len(),
    ensures
        timed(cues, times).len() == timed_before(times, times.len() as int),
        0 <= i < cues.len() ==> (times[i] matches Some((start, end)) ==> 0 <= timed_before(times, i)
            < timed(cues, times).len() && timed(cues, times)[timed_before(times, i)].start == start
            && timed(cues, times)[timed_before(times, i)].end == end && timed(
            cues,
            times,
        )[timed_before(times, i)].lines == cues[i].lines),
    decreases cues.len(),
{
    if cues.len() > 0 {
        let n = cues.len() - 1;
        let before = times.drop_last();
        law_cues_get_their_times(cues.drop_last(), before, i);
        lemma_timed_before(times, before, n);
        if 0 <= i <= n {
            lemma_timed_before(times, before, i);
            if i < n {
                assert(times[i] == before[i]);
            }
        }
    }
}

proof fn lemma_timed_before(
    a: Seq<Option<(Binary64, Binary64)>>,
    b: Seq<Option<(Binary64, Binary64)>>,
    n: int,
)
    requires
        n <= a.len(),
        n <= b.len(),
        forall|i: int| 0 <= i < n ==> a[i] == #[trigger] b[i],
    ensures
        timed_before(a, n) == timed_before(b, n),
        0 <= timed_before(a, n),
        n >= 0 ==> timed_before(a, n) <= n,
    decreases n,
{
    if n > 0 {
        assert(a[n - 1] == b[n - 1]);
        lemma_timed_before(a, b, n - 1);
    }
}

/// Whether `out` holds each of the cues once, the `i`-th of them being the `p[i]`-th
/// before, and cues that start together are in the order in which they were.
pub open spec fn rearranges(cues: Seq<Cue>, out: Seq<Cue>, p: Seq<int>) -> bool {
    &&& p.len() == cues.len() == out.len()
    &&& forall|i: int|
        0 <= i < p.len() ==> 0 <= #[trigger] p[i] < cues.len() && out[i] == cues[p[i]]
    &&& forall|i: int, j: int| 0 <= i < j < p.len() ==> #[trigger] p[i] != #[trigger] p[j]
    &&& forall|i: int, j: int|
        0 <= i < j < p.len() && cues[p[i]].start.value() == cues[p[j]].start.value()
            ==> #[trigger] p[i] < #[trigger] p[j]
}

/// Sorting keeps every cue once and orders them by start; two cues that start
/// together keep their order.
pub proof fn law_cues_are_sorted(cues: Seq<Cue>, out: Seq<Cue>)
    requires
        sorted_by_start(cues, out),
        forall|i: int| 0 <= i < cues.len() ==> !(#[trigger] cues[i]).start.is_nan(),
    ensures
        forall|i: int, j: int|
            0 <= i < j < out.len() ==> (#[trigger] out[i]).start.value() <= (
            #[trigger] out[j]).start.value(),
        exists|p: Seq<int>| rearranges(cues, out, p),
{
    let p = choose|p: Seq<int>|
        #[trigger] arranged(cues, out, p) && (starts_are_numbers(cues) ==> is_stable_order(cues, p));
    assert forall|i: int, j: int| 0 <= i < j < out.len() implies (#[trigger] out[i]).start.value()
        <= (#[trigger] out[j]).start.value() by {
        assert(out[i] == cues[p[i]] && out[j] == cues[p[j]]);
    }
    assert(rearranges(cues, out, p)) by {
        assert forall|i: int| 0 <= i < p.len() implies 0 <= #[trigger] p[i] < cues.len() && out[i]
            == cues[p[i]] by {
            assert(out[i] == cues[p[i]]);
        }
    }
}

/// Sorting loses no cue, also where a start is no number.
pub proof fn law_no_cue_is_lost(cues: Seq<Cue>, out: Seq<Cue>, i: int)
    requires
        sorted_by_start(cues, out),
        0 <= i < cues.len(),
    ensures
        out.len() == cues.len(),
        out.contains(cues[i]),
        cues.contains(out[i]),
{
    let p = choose|p: Seq<int>|
        #[trigger] arranged(cues, out, p) && (starts_are_numbers(cues) ==> is_stable_order(cues, p));
    lemma_permutation_hits(p, i);
    let k = choose|k: int| 0 <= k < p.len() && #[trigger] p[k] == i;
    assert(out[k] == cues[p[k]]);
    assert(out[i] == cues[p[i]]);
}

/// Whether a name can stand alone on a line of a report.
pub open spec fn is_name(s: Seq<char>) -> bool {
    s.len() > 0 && forall|i: int| 0 <= i < s.len() ==> !is_white_space(#[trigger] s[i])
}

/// A report is read as it was written: one stream for each codec, numbered from 0
/// in order.
pub proof fn law_streams_are_read(names: Seq<Seq<char>>, i: int)
    requires
        forall|k: int| 0 <= k < names.len() ==> is_name(#[trigger] names[k]),
        0 <= i < names.len() <= u32::MAX,
    ensures
        ({
            let streams = numbered_streams(codec_names(joined_by(names, seq!['\n']) + seq!['\n']));
            &&& streams.len() == names.len()
            &&& streams[i].sub_index == i
            &&& streams[i].codec == names[i]
            &&& streams[i].is_text == is_text(names[i])
        }),
{
    assert forall|k: int| 0 <= k < names.len() implies lacks(#[trigger] names[k], '\n') && lacks(
        names[k],
        '\r',
    ) by {
        assert(is_name(names[k]));
    }
    law_lines_read_back(names);
    let f = |l: Seq<char>| trimmed(l);
    assert forall|k: int| 0 <= k < names.len() implies trimmed(#[trigger] names[k]) == names[k] by {
        assert(is_name(names[k]));
        assert(!is_white_space(names[k][0]));
        assert(!is_white_space(names[k][names[k].len() - 1]));
    }
    assert(names.map_values(f) =~= names);
    lemma_names_stay(names);
}

proof fn lemma_names_stay(names: Seq<Seq<char>>)
    requires
        forall|k: int| 0 <= k < names.len() ==> is_name(#[trigger] names[k]),
    ensures
        nonempty(names) == names,
    decreases names.len(),
{
    if names.len() > 0 {
        let before = names.drop_last();
        assert(is_name(names[names.len() - 1]));
        assert forall|k: int| 0 <= k < before.len() implies is_name(#[trigger] before[k]) by {
            assert(before[k] == names[k]);
        }
        lemma_names_stay(before);
        assert(nonempty(names) =~= names);
    }
}

/// The text codecs are these and no others.
pub proof fn law_text_codecs(codec: Seq<char>)
    ensures
        is_text(codec) <==> seq![
            "subrip"@,
            "srt"@,
            "ass"@,
            "ssa"@,
            "mov_text"@,
            "webvtt"@,
            "text"@,
            "subviewer"@,
            "subviewer1"@,
        ].contains(codec),
{
    let all = seq![
        "subrip"@,
        "srt"@,
        "ass"@,
        "ssa"@,
        "mov_text"@,
        "webvtt"@,
        "text"@,
        "subviewer"@,
        "subviewer1"@,
    ];
    assert(all[0] == "subrip"@ && all[1] == "srt"@ && all[2] == "ass"@ && all[3] == "ssa"@ && all[4]
        == "mov_text"@ && all[5] == "webvtt"@ && all[6] == "text"@ && all[7] == "subviewer"@
        && all[8] == "subviewer1"@);
}

/// A track that is asked for is the one that is meant, and where there is no text
/// track the first track is.
pub proof fn law_requested_track(streams: Seq<StreamInfo>, n: u32)
    ensures
        wanted_track(streams, Some(n)) == n,
        (forall|j: int| 0 <= j < streams.len() ==> !(#[trigger] streams[j]).is_text)
            ==> wanted_track(streams, None) == 0,
{
}

/// What a value reads as is what its fields read as.
pub proof fn law_subtitle_views(c: Cue, s: SubStream, cues: Seq<Cue>, streams: Seq<SubStream>, i: int)
    ensures
        c@.start == c.start,
        c@.end == c.end,
        c@.lines.len() == c.lines@.len(),
        forall|k: int| 0 <= k < c.lines@.len() ==> #[trigger] c@.lines[k] == c.lines@[k]@,
        s@.sub_index == s.sub_index,
        s@.codec == s.codec@,
        s@.is_text == s.is_text,
        plain_cues(cues).len() == cues.len(),
        0 <= i < cues.len() ==> plain_cues(cues)[i] == cues[i]@,
        stream_infos(streams).len() == streams.len(),
        0 <= i < streams.len() ==> stream_infos(streams)[i] == streams[i]@,
{
}

/// The cues of an SRT text are all kept when they are ordered: each of them is there
/// as it reads, and nothing else, in the order of their starts.
pub proof fn law_read_cues_are_kept(cues: Seq<PlainCue>, out: Seq<Cue>, i: int)
    requires
        sorted_from(cues, out),
        0 <= i < cues.len(),
    ensures
        out.len() == cues.len(),
        plain_cues(out).contains(cues[i]),
        cues.contains(out[i]@),
        (forall|k: int| 0 <= k < cues.len() ==> !(#[trigger] cues[k]).start.is_nan()) ==> forall|
            a: int,
            b: int,
        |
            0 <= a < b < out.len() ==> (#[trigger] out[a]).start.value() <= (
            #[trigger] out[b]).start.value(),
{
    let source = choose|source: Seq<Cue>|
        plain_cues(source) == cues && #[trigger] sorted_by_start(source, out);
    assert(plain_cues(source).len() == source.len());
    assert forall|k: int| 0 <= k < source.len() implies (#[trigger] source[k])@ == cues[k] by {
        assert(plain_cues(source)[k] == source[k]@);
    }
    law_no_cue_is_lost(source, out, i);
    let k = choose|k: int| 0 <= k < out.len() && out[k] == source[i];
    assert(plain_cues(out)[k] == out[k]@);
    let j = choose|j: int| 0 <= j < source.len() && source[j] == out[i];
    assert(cues[j] == source[j]@);
    if forall|k: int| 0 <= k < cues.len() ==> !(#[trigger] cues[k]).start.is_nan() {
        assert forall|k: int| 0 <= k < source.len() implies !(
        #[trigger] source[k]).start.is_nan() by {
            assert(source[k]@ == cues[k]);
        }
        law_cues_are_sorted(source, out);
    }
}

/// What the user is told of a track that cannot be used.
pub proof fn law_track_errors(track: u32, available: usize, codec: String, video: Seq<char>)
    requires
        available > 0,
    ensures
        TrackError::NoTracks.told(video) == "no subtitle tracks found in "@ + video,
        (TrackError::OutOfRange { track, available }).told(video) == "subtitle track "@ + decimal(
            track as nat,
        ) + " out of range: "@ + decimal(available as nat) + " text track(s) available (0.."@
            + decimal((available - 1) as nat) + ")"@,
        (TrackError::Bitmap { sub_index: track, codec }).told(video) == "subtitle track "@ + decimal(
            track as nat,
        ) + " is a bitmap format ("@ + codec@
            + "), which can't be rendered as text; pick a text track with --subtitles-track <n>"@,
{
}

} // verus!
