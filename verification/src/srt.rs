//! SRT parsing: timestamps, markup, cue lines and blocks.
//!
//! Styling/markup is stripped down to plain text: ASS override blocks (`{...}`),
//! SRT/HTML tags (`<i>`…), and ASS `\N` line breaks are all flattened.

use crate::text::{
    blank, chars_of, chomped, contains, first_at, holds, is_blank, is_white_space, joined_by, lacks,
    law_lines_read_back, law_parting, law_parting_at, law_trimming, law_words_read_back,
    lemma_find_from, lemma_replaced_absent, lemma_replaced_lacks, lemma_replaced_not_held,
    lemma_replaced_pair, lemma_replaced_without_end, lemma_split_at_start, lemma_split_holds,
    lemma_split_lacks, lemma_split_prefix, lemma_split_step, lemma_trimmed_ends,
    lemma_trimmed_holds, lemma_trimmed_lacks, lines, lines_of, occurs_at, owned, parted, pieces,
    prefixed, replace, replaced, split, split_by, split_once, string_of, texts, trim, trim_start,
    trimmed, word_len, words, words_of,
};
use vstd::prelude::*;

verus! {

// ── Timestamps ──────────────────────────────────────────────────────────

/// The three fields of a timestamp, as they are written, with a `.` before the
/// fraction of a second.
#[derive(Debug, PartialEq, Eq)]
pub struct TimestampText {
    pub hours: String,
    pub minutes: String,
    pub seconds: String,
}

/// The three fields of a timestamp.
pub struct Timestamp {
    pub hours: Seq<char>,
    pub minutes: Seq<char>,
    pub seconds: Seq<char>,
}

impl View for TimestampText {
    type V = Timestamp;

    open spec fn view(&self) -> Timestamp {
        Timestamp { hours: self.hours@, minutes: self.minutes@, seconds: self.seconds@ }
    }
}

/// The fields of the timestamp `HH:MM:SS,mmm` or `HH:MM:SS.mmm` that the first
/// word of `s` is. Fields beyond the third, and words beyond the first, are
/// dropped.
pub open spec fn timestamp(s: Seq<char>) -> Option<Timestamp> {
    let ws = words_of(s);
    if ws.len() == 0 {
        None
    } else {
        let fields = split_by(replaced(ws[0], ","@, "."@), ":"@);
        if fields.len() < 3 {
            None
        } else {
            Some(Timestamp { hours: fields[0], minutes: fields[1], seconds: fields[2] })
        }
    }
}

/// Take `HH:MM:SS,mmm` (or `.mmm`) apart.
pub fn parse_timestamp(s: &str) -> (r: Option<TimestampText>)
    ensures
        match r {
            Some(t) => timestamp(s@) == Some(t@),
            None => timestamp(s@) is None,
        },
{
    proof {
        reveal_strlit(",");
        reveal_strlit(":");
    }
    let chars = chars_of(s);
    // Drop anything after the timestamp (ASS/VTT may append position cues).
    let ws = words(chars.as_slice());
    if ws.len() == 0 {
        return None;
    }
    assert(pieces(ws@)[0] == ws@[0]@);
    let dotted = replace(
        ws[0].as_slice(),
        chars_of(",").as_slice(),
        chars_of(".").as_slice(),
    );
    let fields = split(dotted.as_slice(), chars_of(":").as_slice());
    assert(pieces(fields@).len() == fields@.len());
    if fields.len() < 3 {
        return None;
    }
    assert(forall|i: int| 0 <= i < 3 ==> pieces(fields@)[i] == (#[trigger] fields@[i])@);
    Some(
        TimestampText {
            hours: string_of(fields[0].as_slice()),
            minutes: string_of(fields[1].as_slice()),
            seconds: string_of(fields[2].as_slice()),
        },
    )
}

/// The two timestamps of a timing line.
pub open spec fn timing(line: Seq<char>) -> Option<(Timestamp, Timestamp)> {
    match parted(line, "-->"@) {
        Some((l, r)) => match (timestamp(trimmed(l)), timestamp(trimmed(r))) {
            (Some(start), Some(end)) => Some((start, end)),
            _ => None,
        },
        None => None,
    }
}

/// Parse an SRT timing line: `00:01:02,500 --> 00:01:05,000`.
/// Also tolerates `.` as the millisecond separator (WebVTT style).
pub fn parse_timing(line: &str) -> (r: Option<(TimestampText, TimestampText)>)
    ensures
        match r {
            Some((start, end)) => timing(line@) == Some((start@, end@)),
            None => timing(line@) is None,
        },
{
    let chars = chars_of(line);
    match split_once(chars.as_slice(), chars_of("-->").as_slice()) {
        Some((l, r)) => {
            match parse_timestamp(string_of(trim(l)).as_str()) {
                Some(start) => match parse_timestamp(string_of(trim(r)).as_str()) {
                    Some(end) => Some((start, end)),
                    None => None,
                },
                None => None,
            }
        },
        None => None,
    }
}

// ── Markup ──────────────────────────────────────────────────────────────

/// Whether the end of `s` lies inside a span: the last bracket in `s` is an
/// opening one.
pub open spec fn in_span(s: Seq<char>, open: char, close: char) -> bool
    decreases s.len(),
{
    if s.len() == 0 || s.last() == close {
        false
    } else {
        s.last() == open || in_span(s.drop_last(), open, close)
    }
}

/// `s` without its brackets and what stands inside of a span.
pub open spec fn stripped(s: Seq<char>, open: char, close: char) -> Seq<char>
    decreases s.len(),
{
    if s.len() == 0 {
        s
    } else if s.last() == open || s.last() == close || in_span(s.drop_last(), open, close) {
        stripped(s.drop_last(), open, close)
    } else {
        stripped(s.drop_last(), open, close).push(s.last())
    }
}

/// Remove the brackets and what stands inside of a span.
fn strip(s: &[char], open: char, close: char) -> (out: Vec<char>)
    requires
        open != close,
    ensures
        out@ == stripped(s@, open, close),
{
    let mut out: Vec<char> = Vec::new();
    let mut inside = false;
    for i in 0..s.len()
        invariant
            open != close,
            inside == in_span(s@.take(i as int), open, close),
            out@ == stripped(s@.take(i as int), open, close),
    {
        let c = s[i];
        assert(s@.take(i + 1).drop_last() == s@.take(i as int));
        if c == open {
            inside = true;
        } else if c == close {
            inside = false;
        } else if !inside {
            out.push(c);
        }
    }
    assert(s@.take(s@.len() as int) == s@);
    out
}

/// Remove `<...>` tag spans (HTML/SRT styling) from a string.
pub fn strip_tags(s: &str) -> (out: String)
    ensures
        out@ == stripped(s@, '<', '>'),
{
    string_of(strip(chars_of(s).as_slice(), '<', '>').as_slice())
}

/// A source line without `{...}` and `<...>` spans.
pub open spec fn unstyled(line: Seq<char>) -> Seq<char> {
    stripped(stripped(line, '{', '}'), '<', '>')
}

/// The plain-text lines of a source line: without markup, split at `\N` and
/// `\n`, and trimmed.
pub open spec fn plain_lines(line: Seq<char>) -> Seq<Seq<char>> {
    split_by(
        replaced(replaced(unstyled(line), "\\N"@, "\n"@), "\\n"@, "\n"@),
        "\n"@,
    ).map_values(|l: Seq<char>| trimmed(l))
}

/// Strip styling markup from one source line, splitting on ASS `\N`/`\n` breaks.
/// Returns one or more plain-text lines.
pub fn clean_text(line: &str) -> (out: Vec<String>)
    ensures
        texts(out@) == plain_lines(line@),
{
    proof {
        reveal_strlit("\\N");
        reveal_strlit("\\n");
        reveal_strlit("\n");
    }
    let newline = chars_of("\n");
    // Remove ASS override blocks: {\an8}, {\i1}, etc.
    let s = strip(chars_of(line).as_slice(), '{', '}');
    // Strip simple HTML/SRT tags: <i>, </i>, <b>, <font ...>, etc.
    let s = strip(s.as_slice(), '<', '>');
    // Split on ASS hard line breaks (\N and \n as literal backslash sequences).
    let s = replace(s.as_slice(), chars_of("\\N").as_slice(), newline.as_slice());
    let s = replace(s.as_slice(), chars_of("\\n").as_slice(), newline.as_slice());
    let parts = split(s.as_slice(), newline.as_slice());
    let ghost want = pieces(parts@).map_values(|l: Seq<char>| trimmed(l));
    let mut out: Vec<String> = Vec::new();
    for i in 0..parts.len()
        invariant
            want == pieces(parts@).map_values(|l: Seq<char>| trimmed(l)),
            texts(out@) =~= want.take(i as int),
    {
        let ghost before = out@;
        out.push(string_of(trim(parts[i].as_slice())));
        assert(texts(out@) =~= texts(before).push(want[i as int]));
        assert(want.take(i + 1) =~= want.take(i as int).push(want[i as int]));
    }
    assert(want.take(parts@.len() as int) =~= want);
    out
}

// ── SRT ─────────────────────────────────────────────────────────────────

/// One subtitle cue as it is written: the fields of its two timestamps, and its
/// lines of already-cleaned plain text.
#[derive(Debug, PartialEq, Eq)]
pub struct CueText {
    pub start: TimestampText,
    pub end: TimestampText,
    pub lines: Vec<String>,
}

/// One subtitle cue.
pub struct TimedText {
    pub start: Timestamp,
    pub end: Timestamp,
    pub lines: Seq<Seq<char>>,
}

impl View for CueText {
    type V = TimedText;

    open spec fn view(&self) -> TimedText {
        TimedText { start: self.start@, end: self.end@, lines: texts(self.lines@) }
    }
}

/// What a list of cues reads as.
pub open spec fn timed_texts(cues: Seq<CueText>) -> Seq<TimedText> {
    cues.map_values(|c: CueText| c@)
}

/// The lines that hold more than white space.
pub open spec fn nonblank(ls: Seq<Seq<char>>) -> Seq<Seq<char>>
    decreases ls.len(),
{
    if ls.len() == 0 {
        ls
    } else if is_blank(ls.last()) {
        nonblank(ls.drop_last())
    } else {
        nonblank(ls.drop_last()).push(ls.last())
    }
}

/// The lines that hold at least one character.
pub open spec fn nonempty(ls: Seq<Seq<char>>) -> Seq<Seq<char>>
    decreases ls.len(),
{
    if ls.len() == 0 {
        ls
    } else if ls.last().len() == 0 {
        nonempty(ls.drop_last())
    } else {
        nonempty(ls.drop_last()).push(ls.last())
    }
}

/// The plain-text lines of a cue's source lines.
pub open spec fn cue_lines(ls: Seq<Seq<char>>) -> Seq<Seq<char>>
    decreases ls.len(),
{
    if ls.len() == 0 {
        ls
    } else {
        cue_lines(ls.drop_last()) + nonempty(plain_lines(ls.last()))
    }
}

/// Where the timing line of a block stands: it is the first line, or else the
/// second, behind an index.
pub open spec fn timing_at(ls: Seq<Seq<char>>) -> Option<int> {
    if ls.len() >= 1 && holds(ls[0], "-->"@) {
        Some(0)
    } else if ls.len() >= 2 && holds(ls[1], "-->"@) {
        Some(1)
    } else {
        None
    }
}

/// The cue of a block: a valid timing line, and at least one line of text left
/// below it.
pub open spec fn block_cue(block: Seq<char>) -> Option<TimedText> {
    let ls = nonblank(lines_of(block));
    match timing_at(ls) {
        Some(k) => match timing(ls[k]) {
            Some((start, end)) => {
                let lines = cue_lines(ls.skip(k + 1));
                if lines.len() > 0 {
                    Some(TimedText { start, end, lines })
                } else {
                    None
                }
            },
            None => None,
        },
        None => None,
    }
}

/// The cues of a sequence of blocks; a block without one is ignored.
pub open spec fn block_cues(blocks: Seq<Seq<char>>) -> Seq<TimedText>
    decreases blocks.len(),
{
    if blocks.len() == 0 {
        Seq::empty()
    } else {
        match block_cue(blocks.last()) {
            Some(cue) => block_cues(blocks.drop_last()).push(cue),
            None => block_cues(blocks.drop_last()),
        }
    }
}

/// `text` with every line end written as a newline.
pub open spec fn normalized(text: Seq<char>) -> Seq<char> {
    replaced(replaced(text, "\r\n"@, "\n"@), "\r"@, "\n"@)
}

/// The cues of an SRT text: those of its blocks, which blank lines separate.
pub open spec fn srt_cues(text: Seq<char>) -> Seq<TimedText> {
    block_cues(split_by(normalized(text), "\n\n"@))
}

/// The lines of a block that hold more than white space.
fn block_lines(block: &[char]) -> (out: Vec<Vec<char>>)
    ensures
        pieces(out@) == nonblank(lines_of(block@)),
{
    let all = lines(block);
    let ghost want = pieces(all@);
    let mut out: Vec<Vec<char>> = Vec::new();
    assert(pieces(out@) =~= nonblank(want.take(0)));
    for i in 0..all.len()
        invariant
            want == pieces(all@),
            pieces(out@) == nonblank(want.take(i as int)),
    {
        let line = &all[i];
        let ghost before = out@;
        assert(want.take(i + 1).drop_last() == want.take(i as int));
        assert(want[i as int] == line@);
        if !blank(line.as_slice()) {
            out.push(owned(line.as_slice()));
            assert(pieces(out@) =~= pieces(before).push(line@));
        }
    }
    assert(want.take(all@.len() as int) =~= want);
    out
}

/// The plain-text lines of the source lines from `from` on.
fn text_lines(ls: &Vec<Vec<char>>, from: usize) -> (out: Vec<String>)
    requires
        from <= ls@.len(),
    ensures
        texts(out@) == cue_lines(pieces(ls@).skip(from as int)),
{
    let ghost source = pieces(ls@).skip(from as int);
    let mut out: Vec<String> = Vec::new();
    assert(texts(out@) =~= cue_lines(source.take(0)));
    for i in from..ls.len()
        invariant
            from <= ls@.len(),
            source == pieces(ls@).skip(from as int),
            texts(out@) == cue_lines(source.take(i - from)),
    {
        let ghost start = texts(out@);
        let ghost line = ls@[i as int]@;
        let cleaned = clean_text(string_of(ls[i].as_slice()).as_str());
        let ghost want = texts(cleaned@);
        assert(start + nonempty(want.take(0)) =~= start);
        for j in 0..cleaned.len()
            invariant
                want == texts(cleaned@),
                texts(out@) == start + nonempty(want.take(j as int)),
        {
            let ghost before = out@;
            assert(want.take(j + 1).drop_last() == want.take(j as int));
            assert(want[j as int] == cleaned@[j as int]@);
            if !cleaned[j].as_str().is_empty() {
                out.push(cleaned[j].clone());
                assert(texts(out@) =~= texts(before).push(want[j as int]));
                assert(texts(out@) =~= start + nonempty(want.take(j + 1)));
            }
        }
        assert(want.take(cleaned@.len() as int) =~= want);
        assert(source.take(i + 1 - from).drop_last() == source.take(i - from));
        assert(source.take(i + 1 - from).last() == line);
    }
    assert(source.take(ls@.len() - from) =~= source);
    out
}

/// The cue of a block.
fn parse_block(block: &[char]) -> (r: Option<CueText>)
    ensures
        match r {
            Some(cue) => block_cue(block@) == Some(cue@),
            None => block_cue(block@) is None,
        },
{
    let ls = block_lines(block);
    let arrow = chars_of("-->");
    assert(pieces(ls@).len() == ls@.len());
    assert(forall|i: int| 0 <= i < ls@.len() ==> pieces(ls@)[i] == (#[trigger] ls@[i])@);
    // First line may be a numeric index (skip it) or the timing line itself.
    let k: usize = if ls.len() >= 1 && contains(ls[0].as_slice(), arrow.as_slice()) {
        0
    } else if ls.len() >= 2 && contains(ls[1].as_slice(), arrow.as_slice()) {
        1
    } else {
        return None;
    };
    match parse_timing(string_of(ls[k].as_slice()).as_str()) {
        Some((start, end)) => {
            let lines = text_lines(&ls, k + 1);
            assert(texts(lines@).len() == lines@.len());
            if lines.len() == 0 {
                None
            } else {
                Some(CueText { start, end, lines })
            }
        },
        None => None,
    }
}

/// Parse SRT text into cues. Tolerant of missing indices, CRLF, and blank-line
/// padding; ignores blocks without a valid timing line.
pub fn parse_srt(text: &str) -> (cues: Vec<CueText>)
    ensures
        timed_texts(cues@) == srt_cues(text@),
{
    proof {
        reveal_strlit("\r\n");
        reveal_strlit("\r");
        reveal_strlit("\n\n");
    }
    // Split into blocks on blank lines (handles \r\n and \n).
    let newline = chars_of("\n");
    let unixed = replace(
        chars_of(text).as_slice(),
        chars_of("\r\n").as_slice(),
        newline.as_slice(),
    );
    let unixed = replace(unixed.as_slice(), chars_of("\r").as_slice(), newline.as_slice());
    let blocks = split(unixed.as_slice(), chars_of("\n\n").as_slice());
    let ghost want = pieces(blocks@);
    let mut cues: Vec<CueText> = Vec::new();
    assert(timed_texts(cues@) =~= block_cues(want.take(0)));
    for i in 0..blocks.len()
        invariant
            want == pieces(blocks@),
            timed_texts(cues@) == block_cues(want.take(i as int)),
    {
        let ghost before = cues@;
        assert(want.take(i + 1).drop_last() == want.take(i as int));
        assert(want[i as int] == blocks@[i as int]@);
        match parse_block(blocks[i].as_slice()) {
            Some(cue) => {
                cues.push(cue);
                assert(timed_texts(cues@) =~= timed_texts(before).push(cue@));
            },
            None => {},
        }
    }
    assert(want.take(blocks@.len() as int) =~= want);
    cues
}

// ── Laws ────────────────────────────────────────────────────────────────

/// Stripping leaves no bracket and adds no character; a text without brackets is
/// left alone, so stripping twice is stripping once.
pub proof fn law_stripping_removes_markup(s: Seq<char>, open: char, close: char)
    ensures
        lacks(stripped(s, open, close), open),
        lacks(stripped(s, open, close), close),
        lacks(s, open) && lacks(s, close) ==> stripped(s, open, close) == s,
        stripped(stripped(s, open, close), open, close) == stripped(s, open, close),
{
    lemma_stripped_lacks(s, open, close);
    lemma_unstripped(stripped(s, open, close), open, close);
    if lacks(s, open) && lacks(s, close) {
        lemma_unstripped(s, open, close);
    }
}

proof fn lemma_stripped_lacks(s: Seq<char>, open: char, close: char)
    ensures
        lacks(stripped(s, open, close), open),
        lacks(stripped(s, open, close), close),
    decreases s.len(),
{
    if s.len() > 0 {
        lemma_stripped_lacks(s.drop_last(), open, close);
    }
}

proof fn lemma_stripped_keeps_lacking(s: Seq<char>, open: char, close: char, c: char)
    requires
        lacks(s, c),
    ensures
        lacks(stripped(s, open, close), c),
    decreases s.len(),
{
    if s.len() > 0 {
        lemma_stripped_keeps_lacking(s.drop_last(), open, close, c);
    }
}

proof fn lemma_unstripped(s: Seq<char>, open: char, close: char)
    requires
        lacks(s, open),
        lacks(s, close),
    ensures
        stripped(s, open, close) == s,
        !in_span(s, open, close),
    decreases s.len(),
{
    if s.len() > 0 {
        lemma_unstripped(s.drop_last(), open, close);
        assert(s.last() == s[s.len() - 1]);
        assert(s.drop_last().push(s.last()) =~= s);
    }
}

/// Whether a line is plain text: no markup, no newline, no ASS line break, and no
/// white space at its ends.
pub open spec fn is_plain(l: Seq<char>) -> bool {
    &&& lacks(l, '{')
    &&& lacks(l, '}')
    &&& lacks(l, '<')
    &&& lacks(l, '>')
    &&& lacks(l, '\n')
    &&& !holds(l, "\\N"@)
    &&& !holds(l, "\\n"@)
    &&& trimmed(l) == l
}

/// Whatever a source line holds, what is made of it is plain text.
pub proof fn law_cleaned_lines_are_plain(line: Seq<char>)
    ensures
        plain_lines(line).len() > 0,
        forall|k: int| 0 <= k < plain_lines(line).len() ==> is_plain(#[trigger] plain_lines(line)[k]),
{
    reveal_strlit("\\N");
    reveal_strlit("\\n");
    reveal_strlit("\n");
    let nl = seq!['\n'];
    let upper = seq!['\\', 'N'];
    let lower = seq!['\\', 'n'];
    assert("\n"@ =~= nl && "\\N"@ =~= upper && "\\n"@ =~= lower);
    let braced = stripped(line, '{', '}');
    let bare = unstyled(line);
    let once = replaced(bare, upper, nl);
    let twice = replaced(once, lower, nl);
    let parts = split_by(twice, nl);
    lemma_stripped_lacks(line, '{', '}');
    lemma_stripped_lacks(braced, '<', '>');
    lemma_stripped_keeps_lacking(braced, '<', '>', '{');
    lemma_stripped_keeps_lacking(braced, '<', '>', '}');
    lemma_replaced_pair(bare, upper, '\n', '\\', 'N');
    lemma_replaced_pair(once, lower, '\n', '\\', 'n');
    lemma_replaced_pair(once, lower, '\n', '\\', 'N');
    lemma_split_step(twice, nl);
    assert forall|k: int| 0 <= k < plain_lines(line).len() implies is_plain(
        #[trigger] plain_lines(line)[k],
    ) by {
        let part = parts[k];
        assert(plain_lines(line)[k] == trimmed(part));
        lemma_markup_gone(bare, '{', k);
        lemma_markup_gone(bare, '}', k);
        lemma_markup_gone(bare, '<', k);
        lemma_markup_gone(bare, '>', k);
        lemma_split_lacks(twice, '\n', '\n', k);
        lemma_trimmed_lacks(part, '\n');
        if holds(trimmed(part), upper) {
            lemma_trimmed_holds(part, upper);
            lemma_split_holds(twice, nl, upper, k);
        }
        if holds(trimmed(part), lower) {
            lemma_trimmed_holds(part, lower);
            lemma_split_holds(twice, nl, lower, k);
        }
        lemma_trimmed_ends(part);
    }
}

proof fn lemma_markup_gone(bare: Seq<char>, c: char, k: int)
    requires
        lacks(bare, c),
        c != '\n',
        0 <= k < split_by(
            replaced(
                replaced(bare, seq!['\\', 'N'], seq!['\n']),
                seq!['\\', 'n'],
                seq!['\n'],
            ),
            seq!['\n'],
        ).len(),
    ensures
        lacks(
            trimmed(
                split_by(
                    replaced(
                        replaced(bare, seq!['\\', 'N'], seq!['\n']),
                        seq!['\\', 'n'],
                        seq!['\n'],
                    ),
                    seq!['\n'],
                )[k],
            ),
            c,
        ),
{
    let once = replaced(bare, seq!['\\', 'N'], seq!['\n']);
    let twice = replaced(once, seq!['\\', 'n'], seq!['\n']);
    lemma_replaced_lacks(bare, seq!['\\', 'N'], seq!['\n'], c);
    lemma_replaced_lacks(once, seq!['\\', 'n'], seq!['\n'], c);
    lemma_split_lacks(twice, '\n', c, k);
    lemma_trimmed_lacks(split_by(twice, seq!['\n'])[k], c);
}

/// Whether all lines are plain text, and none is empty.
pub open spec fn all_plain(ls: Seq<Seq<char>>) -> bool {
    forall|k: int| 0 <= k < ls.len() ==> is_plain(#[trigger] ls[k]) && ls[k].len() > 0
}

proof fn lemma_nonempty_plain(ls: Seq<Seq<char>>)
    requires
        forall|k: int| 0 <= k < ls.len() ==> is_plain(#[trigger] ls[k]),
    ensures
        all_plain(nonempty(ls)),
    decreases ls.len(),
{
    if ls.len() > 0 {
        let before = ls.drop_last();
        assert(is_plain(ls[ls.len() - 1]));
        assert forall|k: int| 0 <= k < before.len() implies is_plain(#[trigger] before[k]) by {
            assert(before[k] == ls[k]);
        }
        lemma_nonempty_plain(before);
    }
}

proof fn lemma_cue_lines_plain(ls: Seq<Seq<char>>)
    ensures
        all_plain(cue_lines(ls)),
    decreases ls.len(),
{
    if ls.len() > 0 {
        let before = cue_lines(ls.drop_last());
        let last = nonempty(plain_lines(ls.last()));
        lemma_cue_lines_plain(ls.drop_last());
        law_cleaned_lines_are_plain(ls.last());
        lemma_nonempty_plain(plain_lines(ls.last()));
        assert forall|k: int| 0 <= k < cue_lines(ls).len() implies is_plain(
            #[trigger] cue_lines(ls)[k],
        ) && cue_lines(ls)[k].len() > 0 by {
            if k < before.len() {
                assert(cue_lines(ls)[k] == before[k]);
            } else {
                assert(cue_lines(ls)[k] == last[k - before.len()]);
            }
        }
    }
}

/// Whether the character `c` occurs in none of the lines.
pub open spec fn all_lack(ls: Seq<Seq<char>>, c: char) -> bool {
    forall|k: int| 0 <= k < ls.len() ==> lacks(#[trigger] ls[k], c)
}

proof fn lemma_init_lacks(ls: Seq<Seq<char>>, c: char)
    requires
        ls.len() > 0,
        all_lack(ls, c),
    ensures
        all_lack(ls.drop_last(), c),
        lacks(ls.last(), c),
{
    assert forall|k: int| 0 <= k < ls.len() - 1 implies lacks(#[trigger] ls.drop_last()[k], c) by {
        assert(ls.drop_last()[k] == ls[k]);
    }
    assert(lacks(ls[ls.len() - 1], c));
}

proof fn lemma_nonempty_lacks(ls: Seq<Seq<char>>, c: char)
    requires
        all_lack(ls, c),
    ensures
        all_lack(nonempty(ls), c),
    decreases ls.len(),
{
    if ls.len() > 0 {
        lemma_init_lacks(ls, c);
        lemma_nonempty_lacks(ls.drop_last(), c);
    }
}

proof fn lemma_nonblank_lacks(ls: Seq<Seq<char>>, c: char)
    requires
        all_lack(ls, c),
    ensures
        all_lack(nonblank(ls), c),
    decreases ls.len(),
{
    if ls.len() > 0 {
        lemma_init_lacks(ls, c);
        lemma_nonblank_lacks(ls.drop_last(), c);
    }
}

proof fn lemma_lines_lack(s: Seq<char>, c: char)
    requires
        lacks(s, c),
    ensures
        all_lack(lines_of(s), c),
    decreases s.len(),
{
    if s.len() > 0 {
        let nl = seq!['\n'];
        lemma_find_from(s, nl, 0);
        match first_at(s, nl) {
            Some(i) => {
                let rest = lines_of(s.skip(i + 1));
                lemma_lines_lack(s.skip(i + 1), c);
                assert(lines_of(s) == seq![chomped(s.take(i))] + rest);
                assert forall|k: int| 0 <= k < lines_of(s).len() implies lacks(
                    #[trigger] lines_of(s)[k],
                    c,
                ) by {
                    if k > 0 {
                        assert(lines_of(s)[k] == rest[k - 1]);
                    }
                }
            },
            None => {},
        }
    }
}

proof fn lemma_plain_lines_lack(line: Seq<char>, c: char)
    requires
        lacks(line, c),
        c != '\n',
    ensures
        all_lack(plain_lines(line), c),
{
    reveal_strlit("\\N");
    reveal_strlit("\\n");
    reveal_strlit("\n");
    assert("\n"@ =~= seq!['\n'] && "\\N"@ =~= seq!['\\', 'N'] && "\\n"@ =~= seq!['\\', 'n']);
    lemma_stripped_keeps_lacking(line, '{', '}', c);
    lemma_stripped_keeps_lacking(stripped(line, '{', '}'), '<', '>', c);
    assert forall|k: int| 0 <= k < plain_lines(line).len() implies lacks(
        #[trigger] plain_lines(line)[k],
        c,
    ) by {
        lemma_markup_gone(unstyled(line), c, k);
    }
}

proof fn lemma_cue_lines_lack(ls: Seq<Seq<char>>, c: char)
    requires
        all_lack(ls, c),
        c != '\n',
    ensures
        all_lack(cue_lines(ls), c),
    decreases ls.len(),
{
    if ls.len() > 0 {
        let before = cue_lines(ls.drop_last());
        let last = nonempty(plain_lines(ls.last()));
        lemma_init_lacks(ls, c);
        lemma_cue_lines_lack(ls.drop_last(), c);
        lemma_plain_lines_lack(ls.last(), c);
        lemma_nonempty_lacks(plain_lines(ls.last()), c);
        assert forall|k: int| 0 <= k < cue_lines(ls).len() implies lacks(
            #[trigger] cue_lines(ls)[k],
            c,
        ) by {
            if k < before.len() {
                assert(cue_lines(ls)[k] == before[k]);
            } else {
                assert(cue_lines(ls)[k] == last[k - before.len()]);
            }
        }
    }
}

/// Every cue of an SRT text has something to show: at least one line, none of
/// them empty, all of them plain text without any carriage return.
pub proof fn law_cues_have_plain_text(text: Seq<char>)
    ensures
        forall|i: int|
            0 <= i < srt_cues(text).len() ==> (#[trigger] srt_cues(text)[i]).lines.len() > 0
                && all_plain(srt_cues(text)[i].lines) && all_lack(srt_cues(text)[i].lines, '\r'),
{
    reveal_strlit("\r");
    reveal_strlit("\n");
    reveal_strlit("\n\n");
    assert("\r"@ =~= seq!['\r'] && "\n"@ =~= seq!['\n']);
    let blocks = split_by(normalized(text), "\n\n"@);
    lemma_all_replaced_lacks(replaced(text, "\r\n"@, "\n"@), '\r', '\n');
    assert forall|i: int| 0 <= i < blocks.len() implies lacks(#[trigger] blocks[i], '\r') by {
        lemma_piece_lacks(normalized(text), "\n\n"@, '\r', i);
    }
    lemma_block_cues_plain(blocks);
}

proof fn lemma_block_cues_plain(blocks: Seq<Seq<char>>)
    requires
        all_lack(blocks, '\r'),
    ensures
        forall|i: int|
            0 <= i < block_cues(blocks).len() ==> (#[trigger] block_cues(blocks)[i]).lines.len() > 0
                && all_plain(block_cues(blocks)[i].lines) && all_lack(
                block_cues(blocks)[i].lines,
                '\r',
            ),
    decreases blocks.len(),
{
    if blocks.len() > 0 {
        let before = block_cues(blocks.drop_last());
        lemma_init_lacks(blocks, '\r');
        lemma_block_cues_plain(blocks.drop_last());
        let ls = nonblank(lines_of(blocks.last()));
        lemma_lines_lack(blocks.last(), '\r');
        lemma_nonblank_lacks(lines_of(blocks.last()), '\r');
        match timing_at(ls) {
            Some(k) => {
                let below = ls.skip(k + 1);
                assert forall|j: int| 0 <= j < below.len() implies lacks(
                    #[trigger] below[j],
                    '\r',
                ) by {
                    assert(below[j] == ls[j + k + 1]);
                }
                lemma_cue_lines_plain(below);
                lemma_cue_lines_lack(below, '\r');
            },
            None => {},
        }
        assert forall|i: int| 0 <= i < block_cues(blocks).len() implies (
        #[trigger] block_cues(blocks)[i]).lines.len() > 0 && all_plain(
            block_cues(blocks)[i].lines,
        ) && all_lack(block_cues(blocks)[i].lines, '\r') by {
            if i < before.len() {
                assert(block_cues(blocks)[i] == before[i]);
            }
        }
    }
}

/// How lines end does not matter: a text reads the same with `\r\n` or `\r` for
/// each `\n`.
pub proof fn law_line_ends_do_not_matter(text: Seq<char>)
    requires
        !holds(text, "\r\n"@),
    ensures
        srt_cues(replaced(text, "\n"@, "\r\n"@)) == srt_cues(text),
        srt_cues(replaced(text, "\n"@, "\r"@)) == srt_cues(text),
{
    reveal_strlit("\r\n");
    reveal_strlit("\r");
    reveal_strlit("\n");
    let nl = seq!['\n'];
    let cr = seq!['\r'];
    let crlf = seq!['\r', '\n'];
    assert("\r\n"@ =~= crlf && "\r"@ =~= cr && "\n"@ =~= nl);
    lemma_replaced_not_held(text, crlf, nl);
    lemma_crlf_back(text);
    lemma_all_replaced_lacks(text, '\n', '\r');
    lemma_replaced_without_end(replaced(text, nl, cr), crlf, nl);
    lemma_swapped_back(text, '\n', '\r');
}

proof fn lemma_crlf_back(t: Seq<char>)
    ensures
        replaced(replaced(t, seq!['\n'], seq!['\r', '\n']), seq!['\r', '\n'], seq!['\n']) == t,
        t.len() > 0 ==> replaced(t, seq!['\n'], seq!['\r', '\n']).len() > 0 && replaced(
            t,
            seq!['\n'],
            seq!['\r', '\n'],
        )[0] != '\n',
    decreases t.len(),
{
    let nl = seq!['\n'];
    let crlf = seq!['\r', '\n'];
    let u = replaced(t, nl, crlf);
    if t.len() > 0 {
        lemma_crlf_back(t.skip(1));
        let v = replaced(t.skip(1), nl, crlf);
        assert(t.subrange(0, 1) =~= seq![t[0]]);
        if t[0] == '\n' {
            assert(u =~= crlf + v);
            assert(u.subrange(0, 2) =~= crlf);
            assert(u.skip(2) =~= v);
            assert(occurs_at(u, crlf, 0));
        } else {
            assert(seq![t[0]] != nl) by {
                assert(seq![t[0]][0] != nl[0]);
            }
            assert(u =~= seq![t[0]] + v);
            assert(u.skip(1) =~= v);
            if occurs_at(u, crlf, 0) {
                assert(u.subrange(0, 2)[1] == v[0]);
            }
        }
        assert(replaced(u, crlf, nl) =~= t);
    }
}

/// Once every `a` is replaced by `b`, no `a` is left.
proof fn lemma_all_replaced_lacks(t: Seq<char>, a: char, b: char)
    requires
        a != b,
    ensures
        lacks(replaced(t, seq![a], seq![b]), a),
    decreases t.len(),
{
    if t.len() > 0 {
        lemma_all_replaced_lacks(t.skip(1), a, b);
        assert(t.subrange(0, 1) =~= seq![t[0]]);
        if t[0] == a {
            assert(occurs_at(t, seq![a], 0));
        }
    }
}

/// Replacing each `a` by `b` does not matter where each `b` is replaced by `a`
/// then.
proof fn lemma_swapped_back(t: Seq<char>, a: char, b: char)
    requires
        a != b,
    ensures
        replaced(replaced(t, seq![a], seq![b]), seq![b], seq![a]) == replaced(t, seq![b], seq![a]),
    decreases t.len(),
{
    if t.len() > 0 {
        let u = replaced(t, seq![a], seq![b]);
        let v = replaced(t.skip(1), seq![a], seq![b]);
        lemma_swapped_back(t.skip(1), a, b);
        assert(t.subrange(0, 1) =~= seq![t[0]]);
        assert(seq![t[0]][0] == t[0] && seq![a][0] == a);
        assert(u.subrange(0, 1) =~= seq![u[0]]);
        assert(seq![u[0]][0] == u[0] && seq![b][0] == b);
        assert(u.skip(1) =~= v);
        assert(replaced(u, seq![b], seq![a]) =~= replaced(t, seq![b], seq![a]));
    }
}

/// A text with a point for each comma.
spec fn dotted(s: Seq<char>) -> Seq<char> {
    Seq::new(
        s.len(),
        |i: int|
            if s[i] == ',' {
                '.'
            } else {
                s[i]
            },
    )
}

proof fn lemma_dotted(s: Seq<char>)
    ensures
        replaced(s, seq![','], seq!['.']) == dotted(s),
    decreases s.len(),
{
    if s.len() > 0 {
        lemma_dotted(s.skip(1));
        assert(s.subrange(0, 1) =~= seq![s[0]]);
        assert(seq![s[0]][0] == s[0] && seq![','][0] == ',');
        assert(replaced(s, seq![','], seq!['.']) =~= dotted(s));
    } else {
        assert(s =~= dotted(s));
    }
}

proof fn lemma_dotted_trim_start(s: Seq<char>)
    ensures
        trim_start(dotted(s)) == dotted(trim_start(s)),
    decreases s.len(),
{
    if s.len() > 0 && is_white_space(s[0]) {
        lemma_dotted_trim_start(s.skip(1));
        assert(dotted(s).skip(1) =~= dotted(s.skip(1)));
    }
}

proof fn lemma_dotted_word_len(s: Seq<char>)
    ensures
        word_len(dotted(s)) == word_len(s),
        word_len(s) <= s.len(),
    decreases s.len(),
{
    if s.len() > 0 {
        lemma_dotted_word_len(s.skip(1));
        assert(dotted(s).skip(1) =~= dotted(s.skip(1)));
    }
}

/// A fraction of a second may follow a point as well as a comma.
pub proof fn law_point_or_comma(s: Seq<char>)
    ensures
        timestamp(replaced(s, ","@, "."@)) == timestamp(s),
{
    reveal_strlit(",");
    reveal_strlit(".");
    assert(","@ =~= seq![','] && "."@ =~= seq!['.']);
    lemma_dotted(s);
    lemma_dotted_trim_start(s);
    let t = trim_start(s);
    lemma_dotted_word_len(t);
    let n = word_len(t) as int;
    let word = t.take(n);
    lemma_dotted(word);
    lemma_dotted(dotted(word));
    assert(dotted(t).take(n) =~= dotted(word));
    assert(dotted(dotted(word)) =~= dotted(word));
}

/// Blocks stand alone: two texts with a blank line between them give the cues of
/// the first and then the cues of the second.
pub proof fn law_blocks_stand_alone(a: Seq<char>, b: Seq<char>)
    ensures
        srt_cues(a + "\n\n"@ + b) == srt_cues(a) + srt_cues(b),
{
    reveal_strlit("\r\n");
    reveal_strlit("\r");
    reveal_strlit("\n");
    reveal_strlit("\n\n");
    let nl = seq!['\n'];
    let cr = seq!['\r'];
    let crlf = seq!['\r', '\n'];
    let gap = seq!['\n', '\n'];
    assert("\r\n"@ =~= crlf && "\r"@ =~= cr && "\n"@ =~= nl && "\n\n"@ =~= gap);
    let x = replaced(b, crlf, nl);
    let y = replaced(x, cr, nl);
    lemma_gap_unchanged();
    lemma_all_replaced_lacks(x, '\r', '\n');
    if a.len() > 0 && a.last() == '\r' {
        let c = a.drop_last();
        let d = replaced(c, crlf, nl);
        let e = replaced(d, cr, nl);
        lemma_all_replaced_lacks(d, '\r', '\n');
        // The carriage return ends a line with the newline that follows it.
        assert(a + gap + b =~= c + (crlf + (nl + b)));
        lemma_crlf_replaced_add(c, crlf + (nl + b));
        lemma_crlf_replaced_add(crlf, nl + b);
        lemma_crlf_replaced_add(nl, b);
        assert(replaced(a + gap + b, crlf, nl) =~= d + (gap + x));
        lemma_replaced_char_add(d, gap + x, '\r', nl);
        lemma_replaced_char_add(gap, x, '\r', nl);
        assert(normalized(a + gap + b) =~= e + gap + y);
        assert(a =~= c + cr);
        lemma_crlf_replaced_add(c, cr);
        lemma_replaced_char_add(d, cr, '\r', nl);
        assert(normalized(a) =~= e + nl);
        lemma_gap_between(e, y);
        lemma_trailing_newlines(e, 1);
        assert(repeat_newline(1) =~= nl);
    } else {
        let d = replaced(a, crlf, nl);
        let e = replaced(d, cr, nl);
        lemma_all_replaced_lacks(d, '\r', '\n');
        assert(a + gap + b =~= a + (gap + b));
        lemma_crlf_replaced_add(a, gap + b);
        lemma_crlf_replaced_add(gap, b);
        assert(replaced(a + gap + b, crlf, nl) =~= d + (gap + x));
        lemma_replaced_char_add(d, gap + x, '\r', nl);
        lemma_replaced_char_add(gap, x, '\r', nl);
        assert(normalized(a + gap + b) =~= e + gap + y);
        lemma_gap_between(e, y);
    }
}

/// What the two replacements make of the characters that stand between texts.
proof fn lemma_gap_unchanged()
    ensures
        replaced(seq!['\n', '\n'], seq!['\r', '\n'], seq!['\n']) == seq!['\n', '\n'],
        replaced(seq!['\n', '\n'], seq!['\r'], seq!['\n']) == seq!['\n', '\n'],
        replaced(seq!['\n'], seq!['\r', '\n'], seq!['\n']) == seq!['\n'],
        replaced(seq!['\r', '\n'], seq!['\r', '\n'], seq!['\n']) == seq!['\n'],
        replaced(seq!['\r'], seq!['\r', '\n'], seq!['\n']) == seq!['\r'],
        replaced(seq!['\r'], seq!['\r'], seq!['\n']) == seq!['\n'],
{
    reveal_with_fuel(replaced, 3);
    let nl = seq!['\n'];
    let cr = seq!['\r'];
    let crlf = seq!['\r', '\n'];
    let gap = seq!['\n', '\n'];
    lemma_replaced_absent(gap, crlf, nl);
    lemma_replaced_absent(gap, cr, nl);
    lemma_replaced_absent(nl, crlf, nl);
    lemma_replaced_without_end(cr, crlf, nl);
    assert(crlf.subrange(0, 2) =~= crlf);
    assert(crlf.skip(2) =~= Seq::empty());
    assert(replaced(crlf, crlf, nl) =~= nl);
    assert(cr.subrange(0, 1) =~= cr);
    assert(cr.skip(1) =~= Seq::empty());
    assert(replaced(cr, cr, nl) =~= nl);
}

/// Where no `\r\n` lies across the seam of two texts, each is replaced alone.
proof fn lemma_crlf_replaced_add(u: Seq<char>, v: Seq<char>)
    requires
        !(u.len() > 0 && v.len() > 0 && u.last() == '\r' && v[0] == '\n'),
    ensures
        replaced(u + v, seq!['\r', '\n'], seq!['\n']) == replaced(u, seq!['\r', '\n'], seq!['\n'])
            + replaced(v, seq!['\r', '\n'], seq!['\n']),
    decreases u.len(),
{
    let crlf = seq!['\r', '\n'];
    let nl = seq!['\n'];
    let both = u + v;
    if u.len() == 0 {
        assert(both =~= v);
        assert(replaced(u, crlf, nl) + replaced(v, crlf, nl) =~= replaced(v, crlf, nl));
    } else {
        if occurs_at(both, crlf, 0) {
            assert(both.subrange(0, 2)[0] == both[0] && both.subrange(0, 2)[1] == both[1]);
            assert(u.len() > 1);
            assert(u.subrange(0, 2) =~= both.subrange(0, 2));
            assert(both.skip(2) =~= u.skip(2) + v);
            lemma_crlf_replaced_add(u.skip(2), v);
        } else {
            if occurs_at(u, crlf, 0) {
                assert(u.subrange(0, 2) =~= both.subrange(0, 2));
            }
            assert(both.skip(1) =~= u.skip(1) + v);
            lemma_crlf_replaced_add(u.skip(1), v);
        }
        assert(replaced(both, crlf, nl) =~= replaced(u, crlf, nl) + replaced(v, crlf, nl));
    }
}

/// A single character is replaced in each part of a text alone.
proof fn lemma_replaced_char_add(u: Seq<char>, v: Seq<char>, c: char, rep: Seq<char>)
    ensures
        replaced(u + v, seq![c], rep) == replaced(u, seq![c], rep) + replaced(v, seq![c], rep),
    decreases u.len(),
{
    let pat = seq![c];
    let both = u + v;
    if u.len() == 0 {
        assert(both =~= v);
        assert(replaced(u, pat, rep) + replaced(v, pat, rep) =~= replaced(v, pat, rep));
    } else {
        lemma_replaced_char_add(u.skip(1), v, c, rep);
        assert(both.skip(1) =~= u.skip(1) + v);
        assert(both.subrange(0, 1) =~= u.subrange(0, 1));
        assert(replaced(both, pat, rep) =~= replaced(u, pat, rep) + replaced(v, pat, rep));
    }
}

/// The cues of a text whose lines end in newlines.
spec fn gap_cues(s: Seq<char>) -> Seq<TimedText> {
    block_cues(split_by(s, seq!['\n', '\n']))
}

spec fn repeat_newline(k: nat) -> Seq<char> {
    Seq::new(k, |i: int| '\n')
}

/// A newline above a block makes no difference to its cue.
proof fn lemma_block_below_newline(block: Seq<char>)
    ensures
        block_cue(seq!['\n'] + block) == block_cue(block),
{
    let nl = seq!['\n'];
    let s = nl + block;
    assert(s.subrange(0, 1) =~= nl);
    assert(occurs_at(s, nl, 0));
    assert(s.take(0) =~= Seq::empty());
    assert(s.skip(1) =~= block);
    assert(lines_of(s) == seq![Seq::<char>::empty()] + lines_of(block));
    lemma_nonblank_head(Seq::empty(), lines_of(block));
}

/// Neither does one below it.
proof fn lemma_block_above_newline(block: Seq<char>)
    requires
        lacks(block, '\r'),
    ensures
        nonblank(lines_of(block + seq!['\n'])) == nonblank(lines_of(block)),
        block_cue(block + seq!['\n']) == block_cue(block),
    decreases block.len(),
{
    let nl = seq!['\n'];
    let s = block + nl;
    let n = block.len() as int;
    lemma_find_from(block, nl, 0);
    lemma_find_from(s, nl, 0);
    assert(s.subrange(n, n + 1) =~= nl);
    assert(occurs_at(s, nl, n));
    match first_at(block, nl) {
        Some(i) => {
            assert(s.subrange(i, i + 1) =~= block.subrange(i, i + 1));
            assert(occurs_at(s, nl, i));
            assert forall|j: int| 0 <= j < i implies !occurs_at(s, nl, j) by {
                assert(s.subrange(j, j + 1) =~= block.subrange(j, j + 1));
                assert(!occurs_at(block, nl, j));
            }
            assert(first_at(s, nl) == Some(i));
            let rest = block.skip(i + 1);
            lemma_block_above_newline(rest);
            assert(s.skip(i + 1) =~= rest + nl);
            assert(s.take(i) =~= block.take(i));
            lemma_nonblank_head(chomped(block.take(i)), lines_of(rest));
            lemma_nonblank_head(chomped(block.take(i)), lines_of(rest + nl));
        },
        None => {
            assert forall|j: int| 0 <= j < n implies !occurs_at(s, nl, j) by {
                assert(s.subrange(j, j + 1) =~= block.subrange(j, j + 1));
                assert(!occurs_at(block, nl, j));
            }
            assert(first_at(s, nl) == Some(n));
            assert(s.take(n) =~= block);
            assert(s.skip(n + 1) =~= Seq::empty());
            assert(lines_of(Seq::empty()) =~= Seq::empty());
            assert(chomped(block) == block);
            assert(lines_of(s) =~= seq![block]);
            if n == 0 {
                reveal_with_fuel(nonblank, 2);
                assert(seq![block].drop_last() =~= Seq::empty());
                assert(nonblank(seq![block]) =~= Seq::empty());
            }
        },
    }
}

proof fn lemma_piece_lacks(s: Seq<char>, sep: Seq<char>, c: char, k: int)
    requires
        sep.len() > 0,
        lacks(s, c),
        0 <= k < split_by(s, sep).len(),
    ensures
        lacks(split_by(s, sep)[k], c),
    decreases s.len(),
{
    lemma_find_from(s, sep, 0);
    match first_at(s, sep) {
        Some(i) => {
            if k > 0 {
                lemma_piece_lacks(s.skip(i + sep.len()), sep, c, k - 1);
            }
        },
        None => {},
    }
}

proof fn lemma_leading_newline(s: Seq<char>)
    ensures
        gap_cues(seq!['\n'] + s) == gap_cues(s),
    decreases s.len(),
{
    let nl = seq!['\n'];
    let sep = seq!['\n', '\n'];
    let t = nl + s;
    lemma_split_step(s, sep);
    lemma_split_step(t, sep);
    assert(t.skip(1) =~= s);
    if s.len() > 0 && s[0] == '\n' {
        assert(t.subrange(0, 2) =~= sep);
        assert(t.skip(2) =~= s.skip(1));
        let below = split_by(s.skip(1), sep);
        lemma_block_cues_add(seq![Seq::<char>::empty()], below);
        lemma_no_cue();
        assert(Seq::<TimedText>::empty() + block_cues(below) =~= block_cues(below));
        lemma_leading_newline(s.skip(1));
        assert(nl + s.skip(1) =~= s);
    } else {
        if occurs_at(t, sep, 0) {
            assert(t.subrange(0, 2)[1] == t[1]);
        }
        let ps = split_by(s, sep);
        assert(seq![t[0]] =~= nl);
        assert(split_by(t, sep) == prefixed(nl, ps));
        lemma_block_cues_add(seq![nl + ps[0]], ps.skip(1));
        lemma_block_cues_add(seq![ps[0]], ps.skip(1));
        assert(seq![ps[0]] + ps.skip(1) =~= ps);
        lemma_block_below_newline(ps[0]);
        reveal_with_fuel(block_cues, 2);
        assert(seq![nl + ps[0]].drop_last() =~= Seq::empty());
        assert(seq![ps[0]].drop_last() =~= Seq::empty());
    }
}

/// An empty block has no cue.
proof fn lemma_no_cue()
    ensures
        block_cues(seq![Seq::<char>::empty()]) == Seq::<TimedText>::empty(),
        gap_cues(Seq::empty()) == Seq::<TimedText>::empty(),
{
    let none = Seq::<char>::empty();
    reveal_with_fuel(block_cues, 2);
    assert(seq![none].drop_last() =~= Seq::empty());
    lemma_split_step(none, seq!['\n', '\n']);
    assert(lines_of(none) =~= Seq::empty());
}

proof fn lemma_leading_newlines(k: nat, s: Seq<char>)
    ensures
        gap_cues(repeat_newline(k) + s) == gap_cues(s),
    decreases k,
{
    if k == 0 {
        assert(repeat_newline(k) + s =~= s);
    } else {
        lemma_leading_newlines((k - 1) as nat, s);
        assert(repeat_newline(k) + s =~= seq!['\n'] + (repeat_newline((k - 1) as nat) + s));
        lemma_leading_newline(repeat_newline((k - 1) as nat) + s);
    }
}

proof fn lemma_split_newline_end(a: Seq<char>)
    requires
        a.len() > 0 ==> a.last() != '\n',
    ensures
        ({
            let ps = split_by(a, seq!['\n', '\n']);
            &&& ps.len() > 0
            &&& split_by(a + seq!['\n'], seq!['\n', '\n']) == ps.drop_last().push(
                ps.last() + seq!['\n'],
            )
        }),
    decreases a.len(),
{
    let nl = seq!['\n'];
    let sep = seq!['\n', '\n'];
    let t = a + nl;
    let ps = split_by(a, sep);
    lemma_split_step(a, sep);
    lemma_split_step(t, sep);
    if a.len() == 0 {
        assert(t.skip(1) =~= a);
        assert(a =~= Seq::empty());
        assert(split_by(t, sep) =~= ps.drop_last().push(ps.last() + nl));
    } else if occurs_at(a, sep, 0) {
        assert(a.subrange(0, 2)[1] == a[1]);
        assert(t.subrange(0, 2) =~= a.subrange(0, 2));
        assert(t.skip(2) =~= a.skip(2) + nl);
        lemma_split_newline_end(a.skip(2));
        let qs = split_by(a.skip(2), sep);
        assert(ps.last() == qs.last());
        assert(split_by(t, sep) =~= ps.drop_last().push(ps.last() + nl));
    } else {
        if occurs_at(t, sep, 0) {
            assert(t.subrange(0, 2)[0] == a[0]);
            assert(a.len() > 1);
            assert(a.subrange(0, 2) =~= t.subrange(0, 2));
        }
        assert(t.skip(1) =~= a.skip(1) + nl);
        lemma_split_newline_end(a.skip(1));
        let qs = split_by(a.skip(1), sep);
        if qs.len() == 1 {
            assert(ps.last() == seq![a[0]] + qs[0]);
            assert(seq![a[0]] + (qs[0] + nl) =~= (seq![a[0]] + qs[0]) + nl);
        } else {
            assert(ps.last() == qs.last());
        }
        assert(split_by(t, sep) =~= ps.drop_last().push(ps.last() + nl));
    }
}

/// Newlines at the end of a text make no difference to its cues.
proof fn lemma_trailing_newlines_bare(a: Seq<char>, k: nat)
    requires
        lacks(a, '\r'),
        a.len() > 0 ==> a.last() != '\n',
    ensures
        gap_cues(a + repeat_newline(k)) == gap_cues(a),
{
    let sep = seq!['\n', '\n'];
    if k == 0 {
        assert(a + repeat_newline(k) =~= a);
    } else if k == 1 {
        assert(repeat_newline(k) =~= seq!['\n']);
        lemma_split_newline_end(a);
        let ps = split_by(a, sep);
        lemma_piece_lacks(a, sep, '\r', ps.len() - 1);
        lemma_block_above_newline(ps.last());
        let qs = ps.drop_last().push(ps.last() + seq!['\n']);
        assert(qs.drop_last() =~= ps.drop_last());
    } else {
        let rest = repeat_newline((k - 2) as nat);
        assert(a + repeat_newline(k) =~= a + sep + rest);
        lemma_split_blocks(a, rest);
        lemma_block_cues_add(split_by(a, sep), split_by(rest, sep));
        lemma_leading_newlines((k - 2) as nat, Seq::empty());
        assert(rest + Seq::<char>::empty() =~= rest);
        lemma_no_cue();
        assert(gap_cues(a) + Seq::<TimedText>::empty() =~= gap_cues(a));
    }
}

/// How many newlines a text ends with.
spec fn newlines_at_end(s: Seq<char>) -> nat
    decreases s.len(),
{
    if s.len() > 0 && s.last() == '\n' {
        newlines_at_end(s.drop_last()) + 1
    } else {
        0
    }
}

proof fn lemma_newlines_at_end(s: Seq<char>)
    ensures
        newlines_at_end(s) <= s.len(),
        ({
            let a = s.take(s.len() - newlines_at_end(s));
            &&& s == a + repeat_newline(newlines_at_end(s))
            &&& a.len() > 0 ==> a.last() != '\n'
        }),
    decreases s.len(),
{
    let k = newlines_at_end(s);
    if s.len() > 0 && s.last() == '\n' {
        let t = s.drop_last();
        lemma_newlines_at_end(t);
        let a = t.take(t.len() - newlines_at_end(t));
        assert(s.take(s.len() - k) =~= a);
        assert(s =~= t.push('\n'));
        assert(repeat_newline(k) =~= repeat_newline(newlines_at_end(t)).push('\n'));
        assert(s =~= a + repeat_newline(k));
    } else {
        assert(s =~= s.take(s.len() - k) + repeat_newline(k));
    }
}

proof fn lemma_trailing_newlines(s: Seq<char>, k: nat)
    requires
        lacks(s, '\r'),
    ensures
        gap_cues(s + repeat_newline(k)) == gap_cues(s),
{
    lemma_newlines_at_end(s);
    let j = newlines_at_end(s);
    let a = s.take(s.len() - j);
    lemma_trailing_newlines_bare(a, j);
    lemma_trailing_newlines_bare(a, j + k);
    assert(s + repeat_newline(k) =~= a + repeat_newline(j + k));
}

proof fn lemma_gap_between(s: Seq<char>, b: Seq<char>)
    requires
        lacks(s, '\r'),
    ensures
        gap_cues(s + seq!['\n', '\n'] + b) == gap_cues(s) + gap_cues(b),
{
    let sep = seq!['\n', '\n'];
    lemma_newlines_at_end(s);
    let j = newlines_at_end(s);
    let a = s.take(s.len() - j);
    assert(s + sep + b =~= a + sep + (repeat_newline(j) + b));
    lemma_split_blocks(a, repeat_newline(j) + b);
    lemma_block_cues_add(split_by(a, sep), split_by(repeat_newline(j) + b, sep));
    lemma_leading_newlines(j, b);
    lemma_trailing_newlines_bare(a, j);
}

proof fn lemma_split_blocks(a: Seq<char>, b: Seq<char>)
    requires
        a.len() > 0 ==> a.last() != '\n',
    ensures
        split_by(a + seq!['\n', '\n'] + b, seq!['\n', '\n']) == split_by(a, seq!['\n', '\n'])
            + split_by(b, seq!['\n', '\n']),
    decreases a.len(),
{
    let sep = seq!['\n', '\n'];
    let both = a + sep + b;
    lemma_split_step(a, sep);
    lemma_split_step(both, sep);
    if a.len() == 0 {
        assert(both.subrange(0, 2) =~= sep);
        assert(both.skip(2) =~= b);
        assert(a =~= Seq::empty());
        assert(split_by(both, sep) =~= split_by(a, sep) + split_by(b, sep));
    } else if occurs_at(a, sep, 0) {
        assert(a.subrange(0, 2)[1] == a[1]);
        assert(both.subrange(0, 2) =~= a.subrange(0, 2));
        assert(both.skip(2) =~= a.skip(2) + sep + b);
        lemma_split_blocks(a.skip(2), b);
        assert(split_by(both, sep) =~= split_by(a, sep) + split_by(b, sep));
    } else {
        if occurs_at(both, sep, 0) {
            assert(both.subrange(0, 2)[0] == a[0]);
            assert(a.len() > 1);
            assert(a.subrange(0, 2) =~= both.subrange(0, 2));
        }
        assert(both.skip(1) =~= a.skip(1) + sep + b);
        lemma_split_blocks(a.skip(1), b);
        lemma_split_step(a.skip(1), sep);
        assert(split_by(both, sep) =~= split_by(a, sep) + split_by(b, sep));
    }
}

proof fn lemma_block_cues_add(p: Seq<Seq<char>>, q: Seq<Seq<char>>)
    ensures
        block_cues(p + q) == block_cues(p) + block_cues(q),
    decreases q.len(),
{
    if q.len() == 0 {
        assert(p + q =~= p);
        assert(block_cues(p) + block_cues(q) =~= block_cues(p));
    } else {
        lemma_block_cues_add(p, q.drop_last());
        assert((p + q).drop_last() =~= p + q.drop_last());
        assert(block_cues(p + q) =~= block_cues(p) + block_cues(q));
    }
}

/// The index line of a block is optional: a block whose timing line comes first
/// gives the same cue with any index line above it.
pub proof fn law_index_is_optional(index: Seq<char>, block: Seq<char>)
    requires
        lacks(index, '\n'),
        lacks(index, '\r'),
        !is_blank(index),
        !holds(index, "-->"@),
        timing_at(nonblank(lines_of(block))) == Some(0int),
    ensures
        block_cue(index + "\n"@ + block) == block_cue(block),
{
    reveal_strlit("\n");
    let nl = seq!['\n'];
    assert("\n"@ =~= nl);
    let whole = index + nl + block;
    let n = index.len() as int;
    lemma_find_from(whole, nl, 0);
    assert(whole.subrange(n, n + 1) =~= nl);
    assert(occurs_at(whole, nl, n));
    match first_at(whole, nl) {
        Some(i) => {
            if i < n {
                assert(whole.subrange(i, i + 1)[0] == index[i]);
            }
            assert(i == n);
        },
        None => {},
    }
    assert(whole.take(n) =~= index);
    assert(whole.skip(n + 1) =~= block);
    assert(chomped(index) == index);
    assert(lines_of(whole) == seq![index] + lines_of(block));
    lemma_nonblank_head(index, lines_of(block));
    let ls = nonblank(lines_of(block));
    let with_index = seq![index] + ls;
    assert(with_index[1] == ls[0]);
    assert(with_index.skip(2) =~= ls.skip(1));
}

proof fn lemma_nonblank_head(l: Seq<char>, ls: Seq<Seq<char>>)
    ensures
        nonblank(seq![l] + ls) == (if is_blank(l) {
            nonblank(ls)
        } else {
            seq![l] + nonblank(ls)
        }),
    decreases ls.len(),
{
    if ls.len() == 0 {
        reveal_with_fuel(nonblank, 2);
        assert(seq![l] + ls =~= seq![l]);
        assert(seq![l].drop_last() =~= Seq::empty());
        assert(ls =~= Seq::empty());
        assert(nonblank(seq![l] + ls) =~= (if is_blank(l) {
            nonblank(ls)
        } else {
            seq![l] + nonblank(ls)
        }));
    } else {
        lemma_nonblank_head(l, ls.drop_last());
        assert((seq![l] + ls).drop_last() =~= seq![l] + ls.drop_last());
        assert(nonblank(seq![l] + ls) =~= (if is_blank(l) {
            nonblank(ls)
        } else {
            seq![l] + nonblank(ls)
        }));
    }
}

// ── What was written is read ────────────────────────────────────────────

/// Whether `s` can be a field of a timestamp: it holds none of the characters that
/// end one, and no arrow can start or end in it.
pub open spec fn is_field(s: Seq<char>) -> bool {
    &&& lacks(s, ':')
    &&& lacks(s, ',')
    &&& lacks(s, '>')
    &&& forall|i: int| 0 <= i < s.len() ==> !is_white_space(#[trigger] s[i])
}

/// A timestamp as it is written.
pub open spec fn written(t: Timestamp) -> Seq<char> {
    t.hours + seq![':'] + t.minutes + seq![':'] + t.seconds
}

/// Whether all fields of a timestamp can be written.
pub open spec fn is_writable(t: Timestamp) -> bool {
    is_field(t.hours) && is_field(t.minutes) && is_field(t.seconds)
}

proof fn lemma_split_field(field: Seq<char>, rest: Seq<char>)
    requires
        lacks(field, ':'),
    ensures
        split_by(field + seq![':'] + rest, seq![':']) == seq![field] + split_by(rest, seq![':']),
        split_by(field, seq![':']) == seq![field],
{
    let sep = seq![':'];
    assert(field + sep + rest =~= field + (sep + rest));
    lemma_split_prefix(field, sep + rest, ':');
    lemma_split_at_start(rest, ':');
    assert(field + Seq::<char>::empty() =~= field);
    assert((seq![Seq::<char>::empty()] + split_by(rest, sep)).skip(1) =~= split_by(rest, sep));
    lemma_split_prefix(field, Seq::empty(), ':');
    lemma_split_step(Seq::empty(), sep);
    assert(seq![Seq::<char>::empty()].skip(1) =~= Seq::empty());
    assert(prefixed(field, seq![Seq::<char>::empty()]) =~= seq![field]);
}

proof fn lemma_dotted_add(a: Seq<char>, b: Seq<char>)
    requires
        lacks(a, ','),
    ensures
        replaced(a + b, seq![','], seq!['.']) == a + replaced(b, seq![','], seq!['.']),
{
    lemma_dotted(a + b);
    lemma_dotted(b);
    assert(dotted(a + b) =~= a + dotted(b));
}

proof fn lemma_first_word(pre: Seq<char>, core: Seq<char>, tail: Seq<char>) -> (word: Seq<char>)
    requires
        is_blank(pre),
        core.len() > 0,
        forall|i: int| 0 <= i < core.len() ==> !is_white_space(#[trigger] core[i]),
    ensures
        words_of(pre + core + tail).len() > 0,
        words_of(pre + core + tail)[0] == core + word,
        tail.len() == 0 || is_white_space(tail[0]) ==> word.len() == 0,
        tail.len() > 0 && !is_white_space(tail[0]) ==> word.len() > 0 && word[0] == tail[0],
{
    lemma_dotted_word_len(tail);
    let n = word_len(tail) as int;
    let word = tail.take(n);
    let rest = tail.skip(n);
    lemma_word_ends(tail);
    let whole = core + word;
    assert forall|i: int| 0 <= i < whole.len() implies !is_white_space(#[trigger] whole[i]) by {
        if i < core.len() {
            assert(whole[i] == core[i]);
        } else {
            assert(whole[i] == tail[i - core.len()]);
        }
    }
    law_words_read_back(pre, whole, rest);
    assert(pre + core + tail =~= pre + whole + rest);
    word
}

proof fn lemma_word_ends(s: Seq<char>)
    ensures
        word_len(s) <= s.len(),
        forall|i: int| 0 <= i < word_len(s) ==> !is_white_space(#[trigger] s[i]),
        s.skip(word_len(s) as int).len() == 0 || is_white_space(s.skip(word_len(s) as int)[0]),
        s.len() > 0 && !is_white_space(s[0]) ==> word_len(s) > 0,
    decreases s.len(),
{
    if s.len() > 0 && !is_white_space(s[0]) {
        let t = s.skip(1);
        lemma_word_ends(t);
        assert(s.skip(word_len(s) as int) =~= t.skip(word_len(t) as int));
        assert forall|i: int| 0 <= i < word_len(s) implies !is_white_space(#[trigger] s[i]) by {
            if i > 0 {
                assert(s[i] == t[i - 1]);
            }
        }
    } else {
        assert(s.skip(0) =~= s);
    }
}

/// A timestamp is read as it was written, field by field: hours, then minutes, then
/// seconds. White space before it is skipped, and what follows behind white space
/// or a further colon is dropped.
pub proof fn law_timestamp_is_read(pre: Seq<char>, t: Timestamp, tail: Seq<char>)
    requires
        is_blank(pre),
        is_writable(t),
        tail.len() == 0 || is_white_space(tail[0]) || tail[0] == ':',
    ensures
        timestamp(pre + written(t) + tail) == Some(t),
{
    reveal_strlit(",");
    reveal_strlit(".");
    reveal_strlit(":");
    assert(","@ =~= seq![','] && "."@ =~= seq!['.'] && ":"@ =~= seq![':']);
    let sep = seq![':'];
    let core = written(t);
    let (h, m, s) = (t.hours, t.minutes, t.seconds);
    assert forall|i: int| 0 <= i < core.len() implies !is_white_space(#[trigger] core[i])
        && core[i] != ',' by {
        if i < h.len() {
            assert(core[i] == h[i]);
        } else if h.len() < i < h.len() + 1 + m.len() {
            assert(core[i] == m[i - h.len() - 1]);
        } else if i > h.len() + 1 + m.len() {
            assert(core[i] == s[i - h.len() - m.len() - 2]);
        }
    }
    let word = lemma_first_word(pre, core, tail);
    lemma_dotted_add(core, word);
    let end = replaced(word, seq![','], seq!['.']);
    lemma_dotted(word);
    assert(core + end =~= h + sep + (m + sep + (s + end)));
    lemma_split_field(h, m + sep + (s + end));
    lemma_split_field(m, s + end);
    lemma_split_step(s + end, sep);
    if word.len() == 0 {
        assert(end =~= Seq::empty());
        assert(s + end =~= s);
        lemma_split_field(s, Seq::empty());
    } else {
        let rest = end.skip(1);
        assert(end =~= sep + rest);
        assert(s + end =~= s + sep + rest);
        lemma_split_field(s, rest);
    }
    let fields = split_by(core + end, sep);
    assert(fields[0] == h && fields[1] == m && fields[2] == s);
}

/// A word with fewer than three fields is no timestamp, and neither is white space.
pub proof fn law_timestamp_needs_three_fields(
    pre: Seq<char>,
    h: Seq<char>,
    m: Seq<char>,
    tail: Seq<char>,
)
    requires
        is_blank(pre),
        is_field(h),
        is_field(m),
        tail.len() == 0 || is_white_space(tail[0]),
    ensures
        timestamp(pre) is None,
        h.len() > 0 ==> timestamp(pre + h + tail) is None,
        timestamp(pre + (h + seq![':'] + m) + tail) is None,
{
    reveal_strlit(",");
    reveal_strlit(".");
    reveal_strlit(":");
    assert(","@ =~= seq![','] && "."@ =~= seq!['.'] && ":"@ =~= seq![':']);
    law_words_read_back(pre, Seq::empty(), Seq::empty());
    let core = h + seq![':'] + m;
    assert forall|i: int| 0 <= i < core.len() implies !is_white_space(#[trigger] core[i])
        && core[i] != ',' by {
        if i < h.len() {
            assert(core[i] == h[i]);
        } else if i > h.len() {
            assert(core[i] == m[i - h.len() - 1]);
        }
    }
    let word = lemma_first_word(pre, core, tail);
    assert(core + word =~= core);
    lemma_replaced_absent(core, seq![','], seq!['.']);
    lemma_split_field(h, m);
    lemma_split_field(m, Seq::empty());
    if h.len() > 0 {
        let word = lemma_first_word(pre, h, tail);
        assert(h + word =~= h);
        lemma_replaced_absent(h, seq![','], seq!['.']);
    }
}

/// The start of a timing line is what stands before the first arrow, and its end is
/// what stands behind it, each in all its fields. Neither depends on the other
/// side, and a line whose side is no timestamp has no timing.
pub proof fn law_timing_sides(a: Seq<char>, b: Seq<char>)
    requires
        forall|i: int| 0 <= i < a.len() ==> !occurs_at(a + "-->"@ + b, "-->"@, i),
    ensures
        timing(a + "-->"@ + b) matches Some((start, end)) ==> timestamp(trimmed(a)) == Some(start)
            && timestamp(trimmed(b)) == Some(end),
        timing(a + "-->"@ + b) is None <==> timestamp(trimmed(a)) is None || timestamp(trimmed(b))
            is None,
{
    law_parting_at(a, "-->"@, b);
}

/// A line without an arrow has no timing.
pub proof fn law_timing_needs_an_arrow(line: Seq<char>)
    requires
        !holds(line, "-->"@),
    ensures
        timing(line) is None,
{
    law_parting(line, "-->"@);
}

proof fn lemma_trimmed_core(pre: Seq<char>, core: Seq<char>, post: Seq<char>)
    requires
        is_blank(pre),
        is_blank(post),
        core.len() > 0,
        !is_white_space(core[0]),
        !is_white_space(core.last()),
    ensures
        trimmed(pre + core + post) == core,
{
    let s = pre + core + post;
    let n = pre.len() as int;
    let m = n + core.len();
    law_trimming(s);
    let (a, b) = choose|a: int, b: int|
        #![trigger s.subrange(a, b)]
        0 <= a <= b <= s.len() && trimmed(s) == s.subrange(a, b) && is_blank(s.subrange(0, a))
            && is_blank(s.subrange(b, s.len() as int));
    if a > n {
        assert(s.subrange(0, a)[n] == core[0]);
    }
    if b < m {
        assert(s.subrange(b, s.len() as int)[m - 1 - b] == core.last());
    }
    if a < n {
        assert(trimmed(s)[0] == pre[a]);
    }
    if b > m {
        assert(trimmed(s)[b - a - 1] == post[b - 1 - m]);
    }
    assert(s.subrange(n, m) =~= core);
}

/// A timing line is read as it was written: the start before the arrow, the end
/// behind it, whatever white space stands around them.
pub proof fn law_timing_is_read(
    start: Timestamp,
    end: Timestamp,
    p: Seq<char>,
    q: Seq<char>,
    r: Seq<char>,
    tail: Seq<char>,
)
    requires
        is_writable(start),
        is_writable(end),
        is_blank(p),
        is_blank(q),
        is_blank(r),
        is_blank(tail),
    ensures
        timing(p + written(start) + q + "-->"@ + (r + written(end) + tail)) == Some((start, end)),
{
    reveal_strlit("-->");
    let a = p + written(start) + q;
    let b = r + written(end) + tail;
    let line = a + "-->"@ + b;
    assert(lacks(a, '>')) by {
        lemma_written_lacks(start, '>');
        lemma_blank_lacks(p, '>');
        lemma_blank_lacks(q, '>');
        assert forall|i: int| 0 <= i < a.len() implies #[trigger] a[i] != '>' by {
            if i < p.len() {
                assert(a[i] == p[i]);
            } else if i < p.len() + written(start).len() {
                assert(a[i] == written(start)[i - p.len()]);
            } else {
                assert(a[i] == q[i - p.len() - written(start).len()]);
            }
        }
    }
    assert forall|i: int| 0 <= i < a.len() implies !occurs_at(line, "-->"@, i) by {
        if occurs_at(line, "-->"@, i) {
            assert(line.subrange(i, i + 3)[2] == line[i + 2]);
            assert("-->"@[2] == '>');
            if i + 2 < a.len() {
                assert(line[i + 2] == a[i + 2]);
            } else if i + 2 == a.len() {
                assert(line[i + 2] == '-');
            } else {
                assert(line[i + 2] == '-');
            }
        }
    }
    law_timing_sides(a, b);
    lemma_written_ends(start);
    lemma_written_ends(end);
    lemma_trimmed_core(p, written(start), q);
    lemma_trimmed_core(r, written(end), tail);
    law_timestamp_is_read(Seq::empty(), start, Seq::empty());
    law_timestamp_is_read(Seq::empty(), end, Seq::empty());
    assert(Seq::<char>::empty() + written(start) + Seq::<char>::empty() =~= written(start));
    assert(Seq::<char>::empty() + written(end) + Seq::<char>::empty() =~= written(end));
}

proof fn lemma_blank_lacks(s: Seq<char>, c: char)
    requires
        is_blank(s),
        !is_white_space(c),
    ensures
        lacks(s, c),
{
}

proof fn lemma_written_lacks(t: Timestamp, c: char)
    requires
        lacks(t.hours, c),
        lacks(t.minutes, c),
        lacks(t.seconds, c),
        c != ':',
    ensures
        lacks(written(t), c),
{
    let core = written(t);
    let (h, m, s) = (t.hours, t.minutes, t.seconds);
    assert forall|i: int| 0 <= i < core.len() implies #[trigger] core[i] != c by {
        if i < h.len() {
            assert(core[i] == h[i]);
        } else if h.len() < i < h.len() + 1 + m.len() {
            assert(core[i] == m[i - h.len() - 1]);
        } else if i > h.len() + 1 + m.len() {
            assert(core[i] == s[i - h.len() - m.len() - 2]);
        }
    }
}

proof fn lemma_written_ends(t: Timestamp)
    requires
        is_writable(t),
    ensures
        written(t).len() > 0,
        !is_white_space(written(t)[0]),
        !is_white_space(written(t).last()),
        lacks(written(t), '\n'),
        lacks(written(t), '\r'),
{
    let core = written(t);
    let (h, m, s) = (t.hours, t.minutes, t.seconds);
    if h.len() > 0 {
        assert(core[0] == h[0]);
    }
    if s.len() > 0 {
        assert(core.last() == s[s.len() - 1]);
    }
    assert forall|x: Seq<char>| is_field(x) implies lacks(x, '\n') && #[trigger] lacks(x, '\r') by {}
    assert(lacks(h, '\r') && lacks(m, '\r') && lacks(s, '\r'));
    lemma_written_lacks(t, '\n');
    lemma_written_lacks(t, '\r');
}

// ── Markup ──────────────────────────────────────────────────────────────

proof fn lemma_stripped_add(a: Seq<char>, b: Seq<char>, open: char, close: char)
    requires
        !in_span(a, open, close),
    ensures
        stripped(a + b, open, close) == stripped(a, open, close) + stripped(b, open, close),
        in_span(a + b, open, close) == in_span(b, open, close),
    decreases b.len(),
{
    if b.len() == 0 {
        assert(a + b =~= a);
        assert(stripped(a, open, close) + stripped(b, open, close) =~= stripped(a, open, close));
    } else {
        lemma_stripped_add(a, b.drop_last(), open, close);
        assert((a + b).drop_last() =~= a + b.drop_last());
        assert(stripped(a + b, open, close) =~= stripped(a, open, close) + stripped(
            b,
            open,
            close,
        ));
    }
}

proof fn lemma_open_span(inner: Seq<char>, open: char, close: char)
    requires
        open != close,
        lacks(inner, close),
    ensures
        stripped(seq![open] + inner, open, close).len() == 0,
        in_span(seq![open] + inner, open, close),
    decreases inner.len(),
{
    let s = seq![open] + inner;
    if inner.len() == 0 {
        reveal_with_fuel(stripped, 2);
        reveal_with_fuel(in_span, 2);
        assert(s =~= seq![open]);
        assert(s.drop_last() =~= Seq::empty());
    } else {
        lemma_open_span(inner.drop_last(), open, close);
        assert(s.drop_last() =~= seq![open] + inner.drop_last());
        assert(s.last() == inner[inner.len() - 1]);
    }
}

/// What stands outside of a span is kept and what stands inside is dropped: a span
/// reaches from an opening bracket to the next closing one, or to the end; a closing
/// bracket without a span is dropped alone.
pub proof fn law_spans_are_cut_out(
    before: Seq<char>,
    inner: Seq<char>,
    after: Seq<char>,
    open: char,
    close: char,
)
    requires
        open != close,
        lacks(before, open),
        lacks(before, close),
        lacks(inner, close),
    ensures
        stripped(before, open, close) == before,
        stripped(before + (seq![open] + inner + seq![close]) + after, open, close) == before
            + stripped(after, open, close),
        stripped(before + (seq![open] + inner), open, close) == before,
        stripped(before + seq![close] + after, open, close) == before + stripped(
            after,
            open,
            close,
        ),
{
    let opened = seq![open] + inner;
    let span = opened + seq![close];
    let stray = seq![close];
    lemma_unstripped(before, open, close);
    lemma_open_span(inner, open, close);
    lemma_stripped_add(before, opened, open, close);
    assert(before + Seq::<char>::empty() =~= before);
    assert(stripped(opened, open, close) =~= Seq::empty());
    assert(span.drop_last() =~= opened);
    assert(stripped(span, open, close) =~= Seq::empty());
    lemma_stripped_add(before, span, open, close);
    lemma_stripped_add(before + span, after, open, close);
    assert(before + span =~= before + (seq![open] + inner + seq![close]));
    reveal_with_fuel(stripped, 2);
    reveal_with_fuel(in_span, 2);
    assert(stray.drop_last() =~= Seq::empty());
    assert(stripped(stray, open, close) =~= Seq::empty());
    lemma_stripped_add(before, stray, open, close);
    lemma_stripped_add(before + stray, after, open, close);
}

/// Whether a text holds no bracket.
pub open spec fn is_unstyled(s: Seq<char>) -> bool {
    lacks(s, '{') && lacks(s, '}') && lacks(s, '<') && lacks(s, '>')
}

proof fn lemma_pair_replaced_add(u: Seq<char>, v: Seq<char>, a: char, b: char)
    requires
        !(u.len() > 0 && v.len() > 0 && u.last() == a && v[0] == b),
    ensures
        replaced(u + v, seq![a, b], seq!['\n']) == replaced(u, seq![a, b], seq!['\n']) + replaced(
            v,
            seq![a, b],
            seq!['\n'],
        ),
    decreases u.len(),
{
    let pair = seq![a, b];
    let nl = seq!['\n'];
    let both = u + v;
    if u.len() == 0 {
        assert(both =~= v);
        assert(replaced(u, pair, nl) + replaced(v, pair, nl) =~= replaced(v, pair, nl));
    } else {
        if occurs_at(both, pair, 0) {
            assert(both.subrange(0, 2)[0] == both[0] && both.subrange(0, 2)[1] == both[1]);
            assert(u.len() > 1);
            assert(u.subrange(0, 2) =~= both.subrange(0, 2));
            assert(both.skip(2) =~= u.skip(2) + v);
            lemma_pair_replaced_add(u.skip(2), v, a, b);
        } else {
            if occurs_at(u, pair, 0) {
                assert(u.subrange(0, 2) =~= both.subrange(0, 2));
            }
            assert(both.skip(1) =~= u.skip(1) + v);
            lemma_pair_replaced_add(u.skip(1), v, a, b);
        }
        assert(replaced(both, pair, nl) =~= replaced(u, pair, nl) + replaced(v, pair, nl));
    }
}

proof fn lemma_split_newline_between(a: Seq<char>, b: Seq<char>)
    ensures
        split_by(a + seq!['\n'] + b, seq!['\n']) == split_by(a, seq!['\n']) + split_by(
            b,
            seq!['\n'],
        ),
    decreases a.len(),
{
    let nl = seq!['\n'];
    let s = a + nl + b;
    lemma_split_step(a, nl);
    if a.len() == 0 {
        assert(s =~= nl + b);
        lemma_split_at_start(b, '\n');
        assert(a =~= Seq::empty());
    } else {
        let t = a.skip(1);
        lemma_split_newline_between(t, b);
        lemma_split_step(t, nl);
        lemma_split_step(s, nl);
        assert(s.skip(1) =~= t + nl + b);
        assert(s.subrange(0, 1) =~= a.subrange(0, 1));
        assert(split_by(s, nl) =~= split_by(a, nl) + split_by(b, nl));
    }
}

/// An ASS line break splits a line, in either form: what stands before it and what
/// stands behind it give their own plain lines.
pub proof fn law_breaks_split_lines(a: Seq<char>, b: Seq<char>)
    requires
        is_unstyled(a),
        is_unstyled(b),
    ensures
        plain_lines(a + "\\N"@ + b) == plain_lines(a) + plain_lines(b),
        plain_lines(a + "\\n"@ + b) == plain_lines(a) + plain_lines(b),
{
    reveal_strlit("\\N");
    reveal_strlit("\\n");
    reveal_strlit("\n");
    let nl = seq!['\n'];
    let upper = seq!['\\', 'N'];
    let lower = seq!['\\', 'n'];
    assert("\n"@ =~= nl && "\\N"@ =~= upper && "\\n"@ =~= lower);
    let x = replaced(a, upper, nl);
    let y = replaced(b, upper, nl);
    let s = a + upper + b;
    let t = a + lower + b;
    lemma_no_markup(a);
    lemma_no_markup(b);
    lemma_no_markup(s);
    lemma_no_markup(t);
    // The break in its upper form goes first.
    lemma_pair_replaced_add(a, upper + b, '\\', 'N');
    lemma_pair_replaced_add(upper, b, '\\', 'N');
    assert(s =~= a + (upper + b));
    lemma_whole_pair('\\', 'N');
    assert(replaced(s, upper, nl) =~= x + (nl + y));
    lemma_pair_replaced_add(x, nl + y, '\\', 'n');
    lemma_pair_replaced_add(nl, y, '\\', 'n');
    lemma_replaced_absent(nl, lower, nl);
    let p = replaced(x, lower, nl);
    let q = replaced(y, lower, nl);
    assert(replaced(replaced(s, upper, nl), lower, nl) =~= p + nl + q);
    // In its lower form it passes the first step untouched.
    lemma_pair_replaced_add(a, lower + b, '\\', 'N');
    lemma_pair_replaced_add(lower, b, '\\', 'N');
    assert(t =~= a + (lower + b));
    lemma_replaced_without_end(lower, upper, nl);
    assert(replaced(t, upper, nl) =~= x + (lower + y));
    lemma_pair_replaced_add(x, lower + y, '\\', 'n');
    lemma_pair_replaced_add(lower, y, '\\', 'n');
    lemma_whole_pair('\\', 'n');
    assert(replaced(replaced(t, upper, nl), lower, nl) =~= p + nl + q);
    lemma_split_newline_between(p, q);
    let f = |l: Seq<char>| trimmed(l);
    assert((split_by(p, nl) + split_by(q, nl)).map_values(f) =~= split_by(p, nl).map_values(f)
        + split_by(q, nl).map_values(f));
}

proof fn lemma_whole_pair(a: char, b: char)
    ensures
        replaced(seq![a, b], seq![a, b], seq!['\n']) == seq!['\n'],
{
    let pair = seq![a, b];
    reveal_with_fuel(replaced, 2);
    assert(pair.subrange(0, 2) =~= pair);
    assert(pair.skip(2) =~= Seq::empty());
    assert(replaced(pair, pair, seq!['\n']) =~= seq!['\n']);
}

proof fn lemma_no_markup(s: Seq<char>)
    requires
        is_unstyled(s),
    ensures
        unstyled(s) == s,
{
    lemma_unstripped(s, '{', '}');
    lemma_unstripped(s, '<', '>');
}

/// A line that is plain text already is left as it is, in one piece.
pub proof fn law_plain_lines_stay(l: Seq<char>)
    requires
        is_plain(l),
    ensures
        plain_lines(l) == seq![l],
{
    reveal_strlit("\\N");
    reveal_strlit("\\n");
    reveal_strlit("\n");
    let nl = seq!['\n'];
    assert("\n"@ =~= nl);
    lemma_no_markup(l);
    lemma_replaced_not_held(l, "\\N"@, nl);
    lemma_replaced_not_held(l, "\\n"@, nl);
    lemma_split_prefix(l, Seq::empty(), '\n');
    lemma_split_step(Seq::empty(), nl);
    assert(l + Seq::<char>::empty() =~= l);
    assert(seq![Seq::<char>::empty()].skip(1) =~= Seq::empty());
    assert(split_by(l, nl) =~= seq![l]);
    assert(plain_lines(l) =~= seq![l]);
}

// ── Cues ────────────────────────────────────────────────────────────────

proof fn lemma_cue_lines_stay(ls: Seq<Seq<char>>)
    requires
        all_plain(ls),
    ensures
        cue_lines(ls) == ls,
        nonblank(ls) == ls,
    decreases ls.len(),
{
    if ls.len() > 0 {
        let before = ls.drop_last();
        let l = ls.last();
        assert(ls[ls.len() - 1] == l);
        assert forall|k: int| 0 <= k < before.len() implies is_plain(#[trigger] before[k])
            && before[k].len() > 0 by {
            assert(before[k] == ls[k]);
        }
        lemma_cue_lines_stay(before);
        law_plain_lines_stay(l);
        reveal_with_fuel(nonempty, 2);
        assert(seq![l].drop_last() =~= Seq::empty());
        assert(nonempty(seq![l]) =~= seq![l]);
        assert(cue_lines(ls) =~= ls);
        lemma_trimmed_ends(l);
        assert(!is_blank(l));
        assert(nonblank(ls) =~= ls);
    }
}

/// Whether no two newlines stand next to each other, and none at an end.
spec fn is_tight(s: Seq<char>) -> bool {
    &&& s.len() > 0
    &&& s[0] != '\n'
    &&& s.last() != '\n'
    &&& forall|i: int| 0 <= i < s.len() - 1 && #[trigger] s[i] == '\n' ==> s[i + 1] != '\n'
}

proof fn lemma_joined_is_tight(ls: Seq<Seq<char>>)
    requires
        ls.len() > 0,
        forall|k: int| 0 <= k < ls.len() ==> lacks(#[trigger] ls[k], '\n') && ls[k].len() > 0,
    ensures
        is_tight(joined_by(ls, seq!['\n'])),
    decreases ls.len(),
{
    let nl = seq!['\n'];
    let l = ls[0];
    assert(lacks(l, '\n') && l.len() > 0);
    if ls.len() > 1 {
        let below = ls.skip(1);
        assert forall|k: int| 0 <= k < below.len() implies lacks(#[trigger] below[k], '\n')
            && below[k].len() > 0 by {
            assert(below[k] == ls[k + 1]);
        }
        lemma_joined_is_tight(below);
        let rest = joined_by(below, nl);
        let s = l + nl + rest;
        assert(joined_by(ls, nl) == s);
        assert forall|i: int| 0 <= i < s.len() - 1 && #[trigger] s[i] == '\n' implies s[i + 1]
            != '\n' by {
            if i < l.len() {
                assert(s[i] == l[i]);
            } else if i == l.len() {
                assert(s[i + 1] == rest[0]);
            } else {
                assert(s[i] == rest[i - l.len() - 1]);
                assert(s[i + 1] == rest[i - l.len()]);
            }
        }
        assert(s.last() == rest.last());
    } else {
        assert(l.last() == l[l.len() - 1]);
    }
}

/// A block as it is written: the timing line, and below it the lines of text.
pub open spec fn written_cue(cue: TimedText) -> Seq<char> {
    joined_by(
        seq![written(cue.start) + " --> "@ + written(cue.end)] + cue.lines,
        seq!['\n'],
    )
}

spec fn timing_line(start: Timestamp, end: Timestamp) -> Seq<char> {
    written(start) + " --> "@ + written(end)
}

proof fn lemma_timing_line(start: Timestamp, end: Timestamp)
    requires
        is_writable(start),
        is_writable(end),
    ensures
        timing(timing_line(start, end)) == Some((start, end)),
        holds(timing_line(start, end), "-->"@),
        lacks(timing_line(start, end), '\n'),
        lacks(timing_line(start, end), '\r'),
        timing_line(start, end).len() > 0,
        !is_blank(timing_line(start, end)),
{
    reveal_strlit("-->");
    reveal_strlit(" --> ");
    let sp = seq![' '];
    let none = Seq::<char>::empty();
    let line = timing_line(start, end);
    assert(is_white_space(' '));
    law_timing_is_read(start, end, none, sp, sp, none);
    assert(" --> "@ =~= sp + "-->"@ + sp);
    assert(line =~= none + written(start) + sp + "-->"@ + (sp + written(end) + none));
    lemma_written_ends(start);
    lemma_written_ends(end);
    let n = written(start).len() as int;
    assert forall|i: int| 0 <= i < line.len() implies #[trigger] line[i] != '\n' && line[i]
        != '\r' by {
        if i < n {
            assert(line[i] == written(start)[i]);
        } else if i >= n + 5 {
            assert(line[i] == written(end)[i - n - 5]);
        } else {
            assert(line[i] == " --> "@[i - n]);
        }
    }
    assert(line[0] == written(start)[0]);
    assert(line.subrange(n + 1, n + 4) =~= "-->"@);
    assert(occurs_at(line, "-->"@, n + 1));
}

proof fn lemma_written_lines(cue: TimedText)
    requires
        is_writable(cue.start),
        is_writable(cue.end),
        all_plain(cue.lines),
        all_lack(cue.lines, '\r'),
    ensures
        ({
            let ls = seq![timing_line(cue.start, cue.end)] + cue.lines;
            &&& written_cue(cue) == joined_by(ls, seq!['\n'])
            &&& forall|k: int|
                0 <= k < ls.len() ==> lacks(#[trigger] ls[k], '\n') && lacks(ls[k], '\r')
                    && ls[k].len() > 0
        }),
{
    let ls = seq![timing_line(cue.start, cue.end)] + cue.lines;
    lemma_timing_line(cue.start, cue.end);
    assert forall|k: int| 0 <= k < ls.len() implies lacks(#[trigger] ls[k], '\n') && lacks(
        ls[k],
        '\r',
    ) && ls[k].len() > 0 by {
        if k > 0 {
            assert(ls[k] == cue.lines[k - 1]);
            assert(is_plain(cue.lines[k - 1]));
        }
    }
}

proof fn lemma_written_block(cue: TimedText)
    requires
        is_writable(cue.start),
        is_writable(cue.end),
        cue.lines.len() > 0,
        all_plain(cue.lines),
        all_lack(cue.lines, '\r'),
    ensures
        block_cue(written_cue(cue)) == Some(cue),
{
    let line = timing_line(cue.start, cue.end);
    let ls = seq![line] + cue.lines;
    lemma_timing_line(cue.start, cue.end);
    lemma_written_lines(cue);
    law_lines_read_back(ls);
    assert(ls.last() == ls[ls.len() - 1]);
    assert(lines_of(written_cue(cue)) == ls);
    lemma_nonblank_head(line, cue.lines);
    lemma_cue_lines_stay(cue.lines);
    assert(nonblank(ls) == ls);
    assert(ls[0] == line);
    assert(timing_at(ls) == Some(0int));
    assert(ls.skip(1) =~= cue.lines);
}

proof fn lemma_single_block(text: Seq<char>)
    requires
        is_tight(text),
        lacks(text, '\r'),
    ensures
        split_by(normalized(text), "\n\n"@) == seq![text],
{
    reveal_strlit("\r\n");
    reveal_strlit("\r");
    reveal_strlit("\n\n");
    assert("\r\n"@[0] == '\r' && "\r"@[0] == '\r');
    lemma_replaced_absent(text, "\r\n"@, "\n"@);
    lemma_replaced_absent(text, "\r"@, "\n"@);
    lemma_find_from(text, "\n\n"@, 0);
    match first_at(text, "\n\n"@) {
        Some(i) => {
            assert(text.subrange(i, i + 2)[0] == text[i] && text.subrange(i, i + 2)[1] == text[i
                + 1]);
            assert("\n\n"@[0] == '\n' && "\n\n"@[1] == '\n');
        },
        None => {},
    }
}

/// A cue that is written is read back: its two timestamps, each on its own side,
/// and all its lines in order.
pub proof fn law_written_cue_is_read(cue: TimedText)
    requires
        is_writable(cue.start),
        is_writable(cue.end),
        cue.lines.len() > 0,
        all_plain(cue.lines),
        all_lack(cue.lines, '\r'),
    ensures
        block_cue(written_cue(cue)) == Some(cue),
        srt_cues(written_cue(cue)) == seq![cue],
{
    let ls = seq![timing_line(cue.start, cue.end)] + cue.lines;
    let text = written_cue(cue);
    lemma_written_block(cue);
    lemma_written_lines(cue);
    lemma_joined_is_tight(ls);
    lemma_joined_lacks(ls, '\r');
    lemma_single_block(text);
    assert(seq![text].drop_last() =~= Seq::empty());
    assert(block_cues(Seq::empty()) =~= Seq::empty());
    assert(block_cues(seq![text]) =~= seq![cue]);
}

proof fn lemma_joined_lacks(ls: Seq<Seq<char>>, c: char)
    requires
        forall|k: int| 0 <= k < ls.len() ==> lacks(#[trigger] ls[k], c),
        c != '\n',
    ensures
        lacks(joined_by(ls, seq!['\n']), c),
    decreases ls.len(),
{
    if ls.len() > 0 {
        assert(lacks(ls[0], c));
        if ls.len() > 1 {
            let below = ls.skip(1);
            assert forall|k: int| 0 <= k < below.len() implies lacks(#[trigger] below[k], c) by {
                assert(below[k] == ls[k + 1]);
            }
            lemma_joined_lacks(below, c);
        }
    }
}

/// Cues as they are written, a blank line between two of them.
pub open spec fn written_cues(cues: Seq<TimedText>) -> Seq<char>
    decreases cues.len(),
{
    if cues.len() == 0 {
        Seq::empty()
    } else if cues.len() == 1 {
        written_cue(cues[0])
    } else {
        written_cues(cues.drop_last()) + "\n\n"@ + written_cue(cues.last())
    }
}

/// An SRT text is read as it was written: all its cues, in order, each with its own
/// start, its own end and its own lines.
pub proof fn law_written_srt_is_read(cues: Seq<TimedText>)
    requires
        forall|i: int|
            0 <= i < cues.len() ==> is_writable((#[trigger] cues[i]).start) && is_writable(
                cues[i].end,
            ) && cues[i].lines.len() > 0 && all_plain(cues[i].lines) && all_lack(cues[i].lines, '\r'),
    ensures
        srt_cues(written_cues(cues)) == cues,
    decreases cues.len(),
{
    if cues.len() == 0 {
        reveal_strlit("\n\n");
        assert("\n\n"@ =~= seq!['\n', '\n']);
        lemma_no_cue();
        assert(normalized(Seq::empty()) =~= Seq::empty());
        assert(cues =~= Seq::empty());
    } else {
        let last = cues.last();
        assert(last == cues[cues.len() - 1]);
        law_written_cue_is_read(last);
        if cues.len() == 1 {
            assert(cues =~= seq![last]);
        } else {
            let before = cues.drop_last();
            assert forall|i: int| 0 <= i < before.len() implies is_writable(
                (#[trigger] before[i]).start,
            ) && is_writable(before[i].end) && before[i].lines.len() > 0 && all_plain(
                before[i].lines,
            ) && all_lack(before[i].lines, '\r') by {
                assert(before[i] == cues[i]);
            }
            law_written_srt_is_read(before);
            law_blocks_stand_alone(written_cues(before), written_cue(last));
            assert(before + seq![last] =~= cues);
        }
    }
}

/// What a value reads as is what its fields read as.
pub proof fn law_cue_views(t: TimestampText, c: CueText, cues: Seq<CueText>, i: int)
    ensures
        t@.hours == t.hours@,
        t@.minutes == t.minutes@,
        t@.seconds == t.seconds@,
        c@.start == c.start@,
        c@.end == c.end@,
        c@.lines.len() == c.lines@.len(),
        forall|k: int| 0 <= k < c.lines@.len() ==> #[trigger] c@.lines[k] == c.lines@[k]@,
        timed_texts(cues).len() == cues.len(),
        0 <= i < cues.len() ==> timed_texts(cues)[i] == cues[i]@,
{
}

/// Blank lines and empty lines are left out, and all others kept in order.
pub proof fn law_lines_kept(ls: Seq<Seq<char>>)
    ensures
        nonblank(ls) == ls.filter(|l: Seq<char>| !is_blank(l)),
        nonempty(ls) == ls.filter(|l: Seq<char>| l.len() > 0),
    decreases ls.len(),
{
    reveal(Seq::filter);
    if ls.len() > 0 {
        law_lines_kept(ls.drop_last());
    }
}

/// The text of a cue is that of its source lines, one after the other, without the
/// lines that markup leaves empty.
pub proof fn law_cue_text(a: Seq<Seq<char>>, b: Seq<Seq<char>>, l: Seq<char>)
    ensures
        cue_lines(Seq::empty()).len() == 0,
        cue_lines(seq![l]) == plain_lines(l).filter(|p: Seq<char>| p.len() > 0),
        cue_lines(a + b) == cue_lines(a) + cue_lines(b),
    decreases b.len(),
{
    law_lines_kept(plain_lines(l));
    reveal_with_fuel(cue_lines, 2);
    assert(seq![l].drop_last() =~= Seq::empty());
    assert(cue_lines(seq![l]) =~= nonempty(plain_lines(l)));
    if b.len() == 0 {
        assert(a + b =~= a);
        assert(cue_lines(a) + cue_lines(b) =~= cue_lines(a));
    } else {
        law_cue_text(a, b.drop_last(), l);
        assert((a + b).drop_last() =~= a + b.drop_last());
        assert(cue_lines(a + b) =~= cue_lines(a) + cue_lines(b));
    }
}

/// Whether the `k`-th of a block's lines is its timing line, and a cue is what that
/// line and the lines below it say.
pub open spec fn comes_from(cue: TimedText, ls: Seq<Seq<char>>, k: int) -> bool {
    &&& 0 <= k <= 1
    &&& k < ls.len()
    &&& holds(ls[k], "-->"@)
    &&& k == 1 ==> !holds(ls[0], "-->"@)
    &&& timing(ls[k]) == Some((cue.start, cue.end))
    &&& cue.lines == cue_lines(ls.skip(k + 1))
    &&& cue.lines.len() > 0
}

/// A cue has exactly the two times of its block's timing line, which is the first
/// of the lines that hold anything or the second, and the text below it. A block
/// without such a line, or without text, has no cue.
pub proof fn law_block_carries_its_timing(block: Seq<char>)
    ensures
        ({
            let ls = lines_of(block).filter(|l: Seq<char>| !is_blank(l));
            match block_cue(block) {
                Some(cue) => exists|k: int| comes_from(cue, ls, k),
                None => forall|cue: TimedText, k: int| !comes_from(cue, ls, k),
            }
        }),
{
    law_lines_kept(lines_of(block));
    let ls = nonblank(lines_of(block));
    match block_cue(block) {
        Some(cue) => {
            assert(comes_from(cue, ls, timing_at(ls)->0));
        },
        None => {},
    }
}

/// Line ends become newlines, each of them one, and all else is kept.
pub proof fn law_normalizing(a: Seq<char>, b: Seq<char>)
    ensures
        lacks(normalized(a), '\r'),
        lacks(a, '\r') ==> normalized(a) == a,
        normalized(a + seq!['\r', '\n'] + b) == normalized(a) + seq!['\n'] + normalized(b),
        !(b.len() > 0 && b[0] == '\n') ==> normalized(a + seq!['\r'] + b) == normalized(a) + seq![
            '\n',
        ] + normalized(b),
{
    reveal_strlit("\r\n");
    reveal_strlit("\r");
    reveal_strlit("\n");
    let nl = seq!['\n'];
    let cr = seq!['\r'];
    let crlf = seq!['\r', '\n'];
    assert("\r\n"@ =~= crlf && "\r"@ =~= cr && "\n"@ =~= nl);
    let x = replaced(a, crlf, nl);
    let y = replaced(b, crlf, nl);
    lemma_gap_unchanged();
    lemma_all_replaced_lacks(x, '\r', '\n');
    if lacks(a, '\r') {
        lemma_replaced_absent(a, crlf, nl);
        lemma_replaced_absent(a, cr, nl);
    }
    assert(a + crlf + b =~= a + (crlf + b));
    lemma_crlf_replaced_add(a, crlf + b);
    lemma_crlf_replaced_add(crlf, b);
    assert(replaced(a + crlf + b, crlf, nl) =~= x + (nl + y));
    lemma_replaced_char_add(x, nl + y, '\r', nl);
    lemma_replaced_char_add(nl, y, '\r', nl);
    lemma_replaced_absent(nl, cr, nl);
    assert(normalized(a + crlf + b) =~= normalized(a) + nl + normalized(b));
    if !(b.len() > 0 && b[0] == '\n') {
        assert(a + cr + b =~= a + (cr + b));
        lemma_crlf_replaced_add(a, cr + b);
        lemma_crlf_replaced_add(cr, b);
        assert(replaced(a + cr + b, crlf, nl) =~= x + (cr + y));
        lemma_replaced_char_add(x, cr + y, '\r', nl);
        lemma_replaced_char_add(cr, y, '\r', nl);
        assert(normalized(a + cr + b) =~= normalized(a) + nl + normalized(b));
    }
}

/// Markup has no effect on what a line reads: without its braces, its tags and what
/// stands in them it gives the same plain lines. A line without markup and without
/// breaks is only trimmed.
pub proof fn law_markup_has_no_effect(line: Seq<char>)
    ensures
        plain_lines(line) == plain_lines(stripped(stripped(line, '{', '}'), '<', '>')),
        is_unstyled(line) && lacks(line, '\n') && !holds(line, "\\N"@) && !holds(line, "\\n"@)
            ==> plain_lines(line) == seq![trimmed(line)],
{
    let braced = stripped(line, '{', '}');
    let bare = stripped(braced, '<', '>');
    lemma_stripped_lacks(line, '{', '}');
    lemma_stripped_lacks(braced, '<', '>');
    lemma_stripped_keeps_lacking(braced, '<', '>', '{');
    lemma_stripped_keeps_lacking(braced, '<', '>', '}');
    lemma_no_markup(bare);
    if is_unstyled(line) && lacks(line, '\n') && !holds(line, "\\N"@) && !holds(line, "\\n"@) {
        reveal_strlit("\\N");
        reveal_strlit("\\n");
        reveal_strlit("\n");
        let nl = seq!['\n'];
        assert("\n"@ =~= nl);
        lemma_no_markup(line);
        lemma_replaced_not_held(line, "\\N"@, nl);
        lemma_replaced_not_held(line, "\\n"@, nl);
        lemma_split_prefix(line, Seq::empty(), '\n');
        lemma_split_step(Seq::empty(), nl);
        assert(line + Seq::<char>::empty() =~= line);
        assert(seq![Seq::<char>::empty()].skip(1) =~= Seq::empty());
        assert(split_by(line, nl) =~= seq![line]);
        assert(plain_lines(line) =~= seq![trimmed(line)]);
    }
}

/// A text without a blank line is one block, and holds the cue of that block or none.
pub proof fn law_one_block(text: Seq<char>)
    requires
        lacks(text, '\r'),
        !holds(text, "\n\n"@),
    ensures
        block_cue(text) is None ==> srt_cues(text).len() == 0,
        block_cue(text) matches Some(cue) ==> srt_cues(text) == seq![cue],
{
    reveal_strlit("\n\n");
    law_normalizing(text, Seq::empty());
    lemma_find_from(text, "\n\n"@, 0);
    let blocks = split_by(normalized(text), "\n\n"@);
    assert(blocks =~= seq![text]);
    reveal_with_fuel(block_cues, 2);
    assert(blocks.drop_last() =~= Seq::empty());
    assert(blocks.last() == text);
    if block_cue(text) is Some {
        assert(srt_cues(text) =~= seq![block_cue(text)->0]);
    }
}

} // verus!
