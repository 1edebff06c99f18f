//! What the command line asks for: the glyph palette, and where the subtitles
//! come from.

use crate::text::{
    append, chars_of, is_blank, is_white_space, law_words_read_back, pieces, trim_start, word_len,
    words, words_of,
};
use vstd::prelude::*;

verus! {

/// The characters of several pieces, one after the other.
pub open spec fn flattened(ps: Seq<Seq<char>>) -> Seq<char>
    decreases ps.len(),
{
    if ps.len() == 0 {
        Seq::empty()
    } else {
        flattened(ps.drop_last()) + ps.last()
    }
}

/// The glyphs of a palette: whitespace-separated tokens, flattened to glyphs.
pub fn palette_glyphs(palette: &str) -> (glyphs: Vec<char>)
    ensures
        glyphs@ == flattened(words_of(palette@)),
{
    let tokens = words(chars_of(palette).as_slice());
    let ghost want = pieces(tokens@);
    let mut glyphs: Vec<char> = Vec::new();
    assert(glyphs@ =~= flattened(want.take(0)));
    for i in 0..tokens.len()
        invariant
            want == pieces(tokens@),
            glyphs@ == flattened(want.take(i as int)),
    {
        assert(want.take(i + 1).drop_last() == want.take(i as int));
        assert(want[i as int] == tokens@[i as int]@);
        append(&mut glyphs, tokens[i].as_slice());
    }
    assert(want.take(tokens@.len() as int) =~= want);
    glyphs
}

/// Where the subtitles come from.
#[derive(Debug, PartialEq, Eq)]
pub enum SubtitleSource {
    /// An external file.
    File(String),
    /// The embedded track with that number.
    Track(u32),
    /// The first embedded text track, if there is one.
    FirstText,
}

/// Where the subtitles come from: an external file goes before an embedded
/// track, and a chosen track before the first one.
pub fn subtitle_source(file: Option<String>, track: Option<u32>) -> (s: SubtitleSource)
    ensures
        match s {
            SubtitleSource::File(path) => file == Some(path),
            SubtitleSource::Track(n) => file is None && track == Some(n),
            SubtitleSource::FirstText => file is None && track is None,
        },
{
    match file {
        Some(path) => SubtitleSource::File(path),
        None => match track {
            Some(n) => SubtitleSource::Track(n),
            None => SubtitleSource::FirstText,
        },
    }
}

impl SubtitleSource {
    /// Whether playback must not start without these subtitles: they were asked
    /// for. Without an explicit request a run never fails for lack of subtitles.
    pub fn is_required(&self) -> (r: bool)
        ensures
            r == !(*self is FirstText),
    {
        match self {
            SubtitleSource::FirstText => false,
            _ => true,
        }
    }
}

/// The characters of `s` that are not white space.
pub open spec fn inked(s: Seq<char>) -> Seq<char>
    decreases s.len(),
{
    if s.len() == 0 {
        s
    } else if is_white_space(s[0]) {
        inked(s.skip(1))
    } else {
        seq![s[0]] + inked(s.skip(1))
    }
}

proof fn lemma_inked_trim_start(s: Seq<char>)
    ensures
        inked(trim_start(s)) == inked(s),
    decreases s.len(),
{
    if s.len() > 0 && is_white_space(s[0]) {
        lemma_inked_trim_start(s.skip(1));
    }
}

proof fn lemma_inked_word(s: Seq<char>)
    ensures
        word_len(s) <= s.len(),
        inked(s) == s.take(word_len(s) as int) + inked(s.skip(word_len(s) as int)),
    decreases s.len(),
{
    if s.len() == 0 || is_white_space(s[0]) {
        assert(s.skip(0) == s);
        assert(s.take(0) + inked(s) =~= inked(s));
    } else {
        let n = word_len(s.skip(1)) as int;
        lemma_inked_word(s.skip(1));
        assert(s.skip(1).skip(n) == s.skip(n + 1));
        assert(seq![s[0]] + s.skip(1).take(n) =~= s.take(n + 1));
        assert(inked(s) =~= s.take(n + 1) + inked(s.skip(n + 1)));
    }
}

proof fn lemma_flattened_head(p: Seq<char>, ps: Seq<Seq<char>>)
    ensures
        flattened(seq![p] + ps) == p + flattened(ps),
    decreases ps.len(),
{
    if ps.len() == 0 {
        reveal_with_fuel(flattened, 2);
        assert(seq![p] + ps =~= seq![p]);
        assert(seq![p].drop_last() =~= Seq::empty());
        assert(flattened(seq![p] + ps) =~= p + flattened(ps));
    } else {
        lemma_flattened_head(p, ps.drop_last());
        assert((seq![p] + ps).drop_last() =~= seq![p] + ps.drop_last());
        assert(flattened(seq![p] + ps) =~= p + flattened(ps));
    }
}

/// How a palette is spaced does not matter: its glyphs are its characters that
/// are not white space, in order.
pub proof fn law_palette_ignores_spacing(palette: Seq<char>)
    ensures
        flattened(words_of(palette)) == inked(palette),
    decreases palette.len(),
{
    let t = trim_start(palette);
    let n = word_len(t) as int;
    lemma_inked_trim_start(palette);
    lemma_inked_word(t);
    crate::text::lemma_trim_start_len(palette);
    if n > 0 {
        law_palette_ignores_spacing(t.skip(n));
        lemma_flattened_head(t.take(n), words_of(t.skip(n)));
    } else {
        assert(t.len() == 0);
    }
}

/// The glyphs of a palette stand in the order in which they are written: those of its
/// first word, then those of the rest.
pub proof fn law_palette_keeps_its_order(before: Seq<char>, word: Seq<char>, rest: Seq<char>)
    requires
        is_blank(before),
        word.len() > 0,
        forall|i: int| 0 <= i < word.len() ==> !is_white_space(#[trigger] word[i]),
        rest.len() == 0 || is_white_space(rest[0]),
    ensures
        flattened(words_of(before + word + rest)) == word + flattened(words_of(rest)),
        flattened(words_of(before)) == Seq::<char>::empty(),
{
    law_words_read_back(before, word, rest);
    lemma_flattened_head(word, words_of(rest));
}

} // verus!
