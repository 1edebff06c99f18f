//! Text as a sequence of characters: trimming, splitting, replacing, decimal
//! numbers, and the two `std` functions that the library takes on trust.
//!
//! The specification functions follow the documented behaviour of the `str`
//! methods of the same purpose. The executable functions work on slices of
//! characters and are proved against them.

use vstd::prelude::*;

verus! {

/// `String::push` appends the given character to the end of the string.
pub assume_specification[ String::push ](s: &mut String, c: char)
    ensures
        final(s)@ == old(s)@.push(c),
;

/// `char::from_u32` gives the character with that code point, for every Unicode
/// scalar value, and `None` for a surrogate or a number above `0x10FFFF`.
pub assume_specification[ char::from_u32 ](i: u32) -> (r: Option<char>)
    ensures
        r == (if i <= 0xD7FF || 0xE000 <= i <= 0x10FFFF {
            Some(i as char)
        } else {
            None
        }),
;

// ── Conversions ─────────────────────────────────────────────────────────

/// What a list of strings reads as.
pub open spec fn texts(v: Seq<String>) -> Seq<Seq<char>> {
    v.map_values(|s: String| s@)
}

/// What a list of character vectors reads as.
pub open spec fn pieces(v: Seq<Vec<char>>) -> Seq<Seq<char>> {
    v.map_values(|s: Vec<char>| s@)
}

/// The characters of a string.
pub fn chars_of(s: &str) -> (v: Vec<char>)
    ensures
        v@ == s@,
{
    let mut v: Vec<char> = Vec::new();
    for c in it: s.chars()
        invariant
            it.seq() == s@,
            v@ == s@.take(it.index()),
    {
        v.push(c);
    }
    v
}

/// The string made of the given characters.
pub fn string_of(chars: &[char]) -> (s: String)
    ensures
        s@ == chars@,
{
    let mut s = String::new();
    for i in 0..chars.len()
        invariant
            s@ == chars@.take(i as int),
    {
        s.push(chars[i]);
        assert(chars@.take(i + 1) == chars@.take(i as int).push(chars@[i as int]));
    }
    assert(chars@.take(chars@.len() as int) == chars@);
    s
}

/// Appends `chars` to `out`.
pub fn push_chars(out: &mut String, chars: &[char])
    ensures
        final(out)@ == old(out)@ + chars@,
{
    for i in 0..chars.len()
        invariant
            out@ == old(out)@ + chars@.take(i as int),
    {
        out.push(chars[i]);
        assert(chars@.take(i + 1) == chars@.take(i as int).push(chars@[i as int]));
    }
    assert(chars@.take(chars@.len() as int) == chars@);
}

/// A copy of `chars`.
pub fn owned(chars: &[char]) -> (v: Vec<char>)
    ensures
        v@ == chars@,
{
    let mut v: Vec<char> = Vec::new();
    append(&mut v, chars);
    assert(v@ =~= chars@);
    v
}

/// Whether two character slices hold the same text.
pub fn same(a: &[char], b: &[char]) -> (r: bool)
    ensures
        r == (a@ == b@),
{
    if a.len() != b.len() {
        return false;
    }
    for i in 0..a.len()
        invariant
            a@.len() == b@.len(),
            forall|j: int| 0 <= j < i ==> a@[j] == b@[j],
    {
        if a[i] != b[i] {
            return false;
        }
    }
    assert(a@ =~= b@);
    true
}

/// Whether `s` reads `word`.
pub fn reads(s: &[char], word: &str) -> (r: bool)
    ensures
        r == (s@ == word@),
{
    same(s, chars_of(word).as_slice())
}

// ── White space ─────────────────────────────────────────────────────────

/// Unicode's `White_Space` property.
pub open spec fn is_white_space(c: char) -> bool {
    ||| '\u{9}' <= c <= '\u{d}'
    ||| c == ' '
    ||| c == '\u{85}'
    ||| c == '\u{a0}'
    ||| c == '\u{1680}'
    ||| '\u{2000}' <= c <= '\u{200a}'
    ||| c == '\u{2028}'
    ||| c == '\u{2029}'
    ||| c == '\u{202f}'
    ||| c == '\u{205f}'
    ||| c == '\u{3000}'
}

/// Whether `c` is white space.
pub fn white_space(c: char) -> (r: bool)
    ensures
        r == is_white_space(c),
{
    ('\u{9}' <= c && c <= '\u{d}') || c == ' ' || c == '\u{85}' || c == '\u{a0}' || c == '\u{1680}'
        || ('\u{2000}' <= c && c <= '\u{200a}') || c == '\u{2028}' || c == '\u{2029}' || c
        == '\u{202f}' || c == '\u{205f}' || c == '\u{3000}'
}

/// `s` without its leading white space.
pub open spec fn trim_start(s: Seq<char>) -> Seq<char>
    decreases s.len(),
{
    if s.len() > 0 && is_white_space(s[0]) {
        trim_start(s.skip(1))
    } else {
        s
    }
}

/// `s` without its trailing white space.
pub open spec fn trim_end(s: Seq<char>) -> Seq<char>
    decreases s.len(),
{
    if s.len() > 0 && is_white_space(s.last()) {
        trim_end(s.drop_last())
    } else {
        s
    }
}

/// `s` without the white space at its two ends.
pub open spec fn trimmed(s: Seq<char>) -> Seq<char> {
    trim_end(trim_start(s))
}

/// The part of `s` that is left when the white space at both ends is dropped.
pub fn trim(s: &[char]) -> (r: &[char])
    ensures
        r@ == trimmed(s@),
{
    let mut from: usize = 0;
    assert(s@.skip(0) == s@);
    while from < s.len() && white_space(s[from])
        invariant
            from <= s@.len(),
            trim_start(s@) == trim_start(s@.skip(from as int)),
        decreases s@.len() - from,
    {
        assert(s@.skip(from as int).skip(1) == s@.skip(from + 1));
        from = from + 1;
    }
    let ghost rest = s@.skip(from as int);
    assert(trim_start(s@) == rest);
    let mut to: usize = s.len();
    assert(s@.subrange(from as int, to as int) == rest);
    while from < to && white_space(s[to - 1])
        invariant
            from <= to <= s@.len(),
            trim_end(rest) == trim_end(s@.subrange(from as int, to as int)),
        decreases to,
    {
        assert(s@.subrange(from as int, to as int).drop_last() == s@.subrange(
            from as int,
            to - 1,
        ));
        to = to - 1;
    }
    &s[from..to]
}

/// Whether `s` holds nothing but white space.
pub open spec fn is_blank(s: Seq<char>) -> bool {
    forall|i: int| 0 <= i < s.len() ==> is_white_space(#[trigger] s[i])
}

/// Whether `s` holds nothing but white space.
pub fn blank(s: &[char]) -> (r: bool)
    ensures
        r == is_blank(s@),
{
    for i in 0..s.len()
        invariant
            forall|j: int| 0 <= j < i ==> is_white_space(#[trigger] s@[j]),
    {
        if !white_space(s[i]) {
            return false;
        }
    }
    true
}

// ── Searching ───────────────────────────────────────────────────────────

/// Whether `pat` stands in `s` at position `i`.
pub open spec fn occurs_at(s: Seq<char>, pat: Seq<char>, i: int) -> bool {
    &&& 0 <= i
    &&& i + pat.len() <= s.len()
    &&& s.subrange(i, i + pat.len()) == pat
}

/// The first position at or after `i` where `pat` stands in `s`.
pub open spec fn find_from(s: Seq<char>, pat: Seq<char>, i: int) -> Option<int>
    decreases s.len() + 1 - i,
{
    if i + pat.len() > s.len() {
        None
    } else if occurs_at(s, pat, i) {
        Some(i)
    } else {
        find_from(s, pat, i + 1)
    }
}

/// The first position where `pat` stands in `s`.
pub open spec fn first_at(s: Seq<char>, pat: Seq<char>) -> Option<int> {
    find_from(s, pat, 0)
}

/// Whether `pat` stands anywhere in `s`.
pub open spec fn holds(s: Seq<char>, pat: Seq<char>) -> bool {
    exists|i: int| occurs_at(s, pat, i)
}

/// A found position is an occurrence, and none lies between it and the start of
/// the search; where nothing is found there is no occurrence.
pub proof fn lemma_find_from(s: Seq<char>, pat: Seq<char>, i: int)
    requires
        0 <= i,
    ensures
        match find_from(s, pat, i) {
            Some(k) => i <= k && occurs_at(s, pat, k) && forall|j: int|
                i <= j < k ==> !occurs_at(s, pat, j),
            None => forall|j: int| i <= j ==> !occurs_at(s, pat, j),
        },
    decreases s.len() + 1 - i,
{
    if i + pat.len() > s.len() {
    } else if occurs_at(s, pat, i) {
    } else {
        lemma_find_from(s, pat, i + 1);
    }
}

/// Whether `pat` stands in `s` at position `i`.
fn at(s: &[char], pat: &[char], i: usize) -> (r: bool)
    ensures
        r == occurs_at(s@, pat@, i as int),
{
    if s.len() < i || s.len() - i < pat.len() {
        return false;
    }
    same(&s[i..i + pat.len()], pat)
}

/// The first position where `pat` stands in `s`.
pub fn find(s: &[char], pat: &[char]) -> (r: Option<usize>)
    ensures
        match r {
            Some(i) => first_at(s@, pat@) == Some(i as int),
            None => first_at(s@, pat@) is None,
        },
        r matches Some(i) ==> i + pat@.len() <= s@.len(),
{
    if pat.len() > s.len() {
        return None;
    }
    let last: usize = s.len() - pat.len();
    let mut i: usize = 0;
    loop
        invariant
            i <= last,
            last + pat@.len() == s@.len(),
            first_at(s@, pat@) == find_from(s@, pat@, i as int),
        decreases last - i,
    {
        if at(s, pat, i) {
            return Some(i);
        }
        if i == last {
            assert(find_from(s@, pat@, i + 1) is None);
            return None;
        }
        i = i + 1;
    }
}

/// Whether `pat` stands anywhere in `s`.
pub fn contains(s: &[char], pat: &[char]) -> (r: bool)
    ensures
        r == holds(s@, pat@),
{
    proof {
        lemma_find_from(s@, pat@, 0);
    }
    find(s, pat).is_some()
}

// ── Splitting and replacing ─────────────────────────────────────────────

/// The two sides of the first `sep` in `s`.
pub open spec fn parted(s: Seq<char>, sep: Seq<char>) -> Option<(Seq<char>, Seq<char>)> {
    match first_at(s, sep) {
        Some(i) => Some((s.take(i), s.skip(i + sep.len()))),
        None => None,
    }
}

/// The two sides of the first `sep` in `s`.
pub fn split_once<'a>(s: &'a [char], sep: &[char]) -> (r: Option<(&'a [char], &'a [char])>)
    ensures
        match r {
            Some((a, b)) => parted(s@, sep@) == Some((a@, b@)),
            None => parted(s@, sep@) is None,
        },
{
    match find(s, sep) {
        Some(i) => {
            let len: usize = s.len();
            let a = &s[0..i];
            let b = &s[i + sep.len()..len];
            assert(a@ == s@.take(i as int));
            assert(b@ == s@.skip(i + sep@.len()));
            Some((a, b))
        },
        None => None,
    }
}

/// The pieces of `s` between the occurrences of a non-empty `sep`, in order.
pub open spec fn split_by(s: Seq<char>, sep: Seq<char>) -> Seq<Seq<char>>
    decreases s.len(),
{
    match first_at(s, sep) {
        Some(i) => if 0 < i + sep.len() <= s.len() {
            seq![s.take(i)] + split_by(s.skip(i + sep.len()), sep)
        } else {
            seq![s]
        },
        None => seq![s],
    }
}

/// The pieces of `s` between the occurrences of `sep`, in order.
pub fn split(s: &[char], sep: &[char]) -> (r: Vec<Vec<char>>)
    requires
        sep@.len() > 0,
    ensures
        pieces(r@) == split_by(s@, sep@),
{
    let mut out: Vec<Vec<char>> = Vec::new();
    let mut from: usize = 0;
    assert(s@.skip(0) == s@);
    assert(pieces(out@) =~= Seq::empty());
    loop
        invariant
            sep@.len() > 0,
            from <= s@.len(),
            split_by(s@, sep@) =~= pieces(out@) + split_by(s@.skip(from as int), sep@),
        decreases s@.len() - from,
    {
        let rest = &s[from..s.len()];
        assert(rest@ == s@.skip(from as int));
        let ghost before = pieces(out@);
        match find(rest, sep) {
            Some(i) => {
                let piece = &rest[0..i];
                assert(piece@ == rest@.take(i as int));
                out.push(owned(piece));
                assert(pieces(out@) =~= before.push(rest@.take(i as int)));
                assert(rest@.skip(i + sep@.len()) == s@.skip(from + i + sep@.len()));
                from = from + i + sep.len();
            },
            None => {
                out.push(owned(rest));
                assert(pieces(out@) =~= before.push(rest@));
                return out;
            },
        }
    }
}

/// `s` with every `pat` replaced by `rep`, from left to right.
pub open spec fn replaced(s: Seq<char>, pat: Seq<char>, rep: Seq<char>) -> Seq<char>
    decreases s.len(),
{
    if s.len() == 0 || pat.len() == 0 {
        s
    } else if occurs_at(s, pat, 0) {
        rep + replaced(s.skip(pat.len() as int), pat, rep)
    } else {
        seq![s[0]] + replaced(s.skip(1), pat, rep)
    }
}

/// `s` with every `pat` replaced by `rep`, from left to right.
pub fn replace(s: &[char], pat: &[char], rep: &[char]) -> (r: Vec<char>)
    requires
        pat@.len() > 0,
    ensures
        r@ == replaced(s@, pat@, rep@),
{
    let mut out: Vec<char> = Vec::new();
    let mut from: usize = 0;
    assert(s@.skip(0) == s@);
    while from < s.len()
        invariant
            pat@.len() > 0,
            from <= s@.len(),
            replaced(s@, pat@, rep@) =~= out@ + replaced(s@.skip(from as int), pat@, rep@),
        decreases s@.len() - from,
    {
        let ghost rest = s@.skip(from as int);
        let ghost before = out@;
        assert(occurs_at(s@, pat@, from as int) == occurs_at(rest, pat@, 0)) by {
            if from + pat@.len() <= s@.len() {
                assert(rest.subrange(0, pat@.len() as int) == s@.subrange(
                    from as int,
                    from + pat@.len(),
                ));
            }
        }
        if at(s, pat, from) {
            append(&mut out, rep);
            assert(rest.skip(pat@.len() as int) == s@.skip(from + pat@.len()));
            from = from + pat.len();
        } else {
            out.push(s[from]);
            assert(rest.skip(1) == s@.skip(from + 1));
            assert(out@ =~= before + seq![rest[0]]);
            from = from + 1;
        }
    }
    out
}

/// Appends `more` to `out`.
pub fn append(out: &mut Vec<char>, more: &[char])
    ensures
        final(out)@ == old(out)@ + more@,
{
    for i in 0..more.len()
        invariant
            out@ == old(out)@ + more@.take(i as int),
    {
        out.push(more[i]);
        assert(more@.take(i + 1) == more@.take(i as int).push(more@[i as int]));
    }
    assert(more@.take(more@.len() as int) == more@);
}

/// Dropping the first character moves what is found by one.
pub proof fn lemma_find_from_shift(s: Seq<char>, pat: Seq<char>, i: int)
    requires
        0 <= i,
        s.len() > 0,
    ensures
        find_from(s, pat, i + 1) == (match find_from(s.skip(1), pat, i) {
            Some(k) => Some(k + 1),
            None => None,
        }),
    decreases s.len() + 1 - i,
{
    let t = s.skip(1);
    if i + pat.len() <= t.len() {
        assert(t.subrange(i, i + pat.len()) == s.subrange(i + 1, i + 1 + pat.len()));
        if !occurs_at(t, pat, i) {
            lemma_find_from_shift(s, pat, i + 1);
        }
    }
}

/// `ps` with `x` in front of its first piece.
pub open spec fn prefixed(x: Seq<char>, ps: Seq<Seq<char>>) -> Seq<Seq<char>> {
    seq![x + ps[0]] + ps.skip(1)
}

/// How the pieces of a text come from those of the text without its first
/// separator or its first character.
pub proof fn lemma_split_step(s: Seq<char>, sep: Seq<char>)
    requires
        sep.len() > 0,
    ensures
        split_by(s, sep).len() > 0,
        s.len() == 0 ==> split_by(s, sep) == seq![s],
        occurs_at(s, sep, 0) ==> split_by(s, sep) == seq![Seq::<char>::empty()] + split_by(
            s.skip(sep.len() as int),
            sep,
        ),
        s.len() > 0 && !occurs_at(s, sep, 0) ==> split_by(s, sep) == prefixed(
            seq![s[0]],
            split_by(s.skip(1), sep),
        ),
{
    lemma_find_from(s, sep, 0);
    if occurs_at(s, sep, 0) {
        assert(first_at(s, sep) == Some(0int));
        assert(s.take(0) =~= Seq::empty());
    } else if s.len() > 0 {
        let t = s.skip(1);
        lemma_find_from_shift(s, sep, 0);
        lemma_find_from(t, sep, 0);
        assert(find_from(s, sep, 0) == find_from(s, sep, 1)) by {
            if sep.len() > s.len() {
                assert(find_from(s, sep, 1) is None);
            }
        }
        match first_at(t, sep) {
            Some(i) => {
                assert(s.take(i + 1) =~= seq![s[0]] + t.take(i));
                assert(s.skip(i + 1 + sep.len()) =~= t.skip(i + sep.len()));
                assert(split_by(t, sep).skip(1) =~= split_by(t.skip(i + sep.len()), sep));
            },
            None => {
                assert(seq![s[0]] + t =~= s);
                assert(split_by(t, sep).skip(1) =~= Seq::empty());
                assert(prefixed(seq![s[0]], split_by(t, sep)) =~= seq![s]);
            },
        }
    }
}

/// A text without a separator character goes in front of the first piece.
pub proof fn lemma_split_prefix(x: Seq<char>, s: Seq<char>, c: char)
    requires
        forall|i: int| 0 <= i < x.len() ==> #[trigger] x[i] != c,
    ensures
        split_by(x + s, seq![c]) == prefixed(x, split_by(s, seq![c])),
    decreases x.len(),
{
    let sep = seq![c];
    lemma_split_step(s, sep);
    lemma_split_step(x + s, sep);
    if x.len() == 0 {
        assert(x + s =~= s);
        assert(x + split_by(s, sep)[0] =~= split_by(s, sep)[0]);
        assert(prefixed(x, split_by(s, sep)) =~= split_by(s, sep));
    } else {
        assert((x + s).skip(1) =~= x.skip(1) + s);
        lemma_split_prefix(x.skip(1), s, c);
        if occurs_at(x + s, sep, 0) {
            assert((x + s).subrange(0, 1)[0] == x[0]);
        }
        assert(seq![x[0]] + (x.skip(1) + split_by(s, sep)[0]) =~= x + split_by(s, sep)[0]);
        assert(prefixed(x, split_by(s, sep)) =~= prefixed(
            seq![x[0]],
            prefixed(x.skip(1), split_by(s, sep)),
        ));
    }
}

/// A text that starts with the separator character has an empty first piece.
pub proof fn lemma_split_at_start(s: Seq<char>, c: char)
    ensures
        split_by(seq![c] + s, seq![c]) == seq![Seq::<char>::empty()] + split_by(s, seq![c]),
{
    let t = seq![c] + s;
    lemma_split_step(t, seq![c]);
    assert(t.subrange(0, 1) =~= seq![c]);
    assert(t.skip(1) =~= s);
}

/// `s` without one carriage return at its end.
pub open spec fn chomped(s: Seq<char>) -> Seq<char> {
    if s.len() > 0 && s.last() == '\r' {
        s.drop_last()
    } else {
        s
    }
}

/// The lines of `s`. A line ends with a newline, or with a carriage return and
/// a newline; the end of the last line is optional.
pub open spec fn lines_of(s: Seq<char>) -> Seq<Seq<char>>
    decreases s.len(),
{
    if s.len() == 0 {
        Seq::empty()
    } else {
        match first_at(s, seq!['\n']) {
            Some(i) => if 0 <= i < s.len() {
                seq![chomped(s.take(i))] + lines_of(s.skip(i + 1))
            } else {
                seq![s]
            },
            None => seq![s],
        }
    }
}

/// The lines of `s`.
pub fn lines(s: &[char]) -> (r: Vec<Vec<char>>)
    ensures
        pieces(r@) == lines_of(s@),
{
    let newline: [char; 1] = ['\n'];
    assert(newline@ =~= seq!['\n']);
    let mut out: Vec<Vec<char>> = Vec::new();
    let mut from: usize = 0;
    assert(s@.skip(0) == s@);
    assert(pieces(out@) =~= Seq::empty());
    while from < s.len()
        invariant
            newline@ == seq!['\n'],
            from <= s@.len(),
            lines_of(s@) =~= pieces(out@) + lines_of(s@.skip(from as int)),
        decreases s@.len() - from,
    {
        let rest = &s[from..s.len()];
        assert(rest@ == s@.skip(from as int));
        let ghost before = pieces(out@);
        match find(rest, newline.as_slice()) {
            Some(i) => {
                let to: usize = if i > 0 && rest[i - 1] == '\r' {
                    i - 1
                } else {
                    i
                };
                let line = &rest[0..to];
                assert(line@ == chomped(rest@.take(i as int)));
                out.push(owned(line));
                assert(pieces(out@) =~= before.push(chomped(rest@.take(i as int))));
                assert(rest@.skip(i + 1) == s@.skip(from + i + 1));
                from = from + i + 1;
            },
            None => {
                out.push(owned(rest));
                assert(pieces(out@) =~= before.push(rest@));
                return out;
            },
        }
    }
    assert(lines_of(s@.skip(from as int)) =~= Seq::empty());
    out
}

/// The number of characters before the first white space.
pub open spec fn word_len(s: Seq<char>) -> nat
    decreases s.len(),
{
    if s.len() == 0 || is_white_space(s[0]) {
        0
    } else {
        1 + word_len(s.skip(1))
    }
}

/// Leading white space is dropped, never added.
pub proof fn lemma_trim_start_len(s: Seq<char>)
    ensures
        trim_start(s).len() <= s.len(),
        trim_start(s).len() > 0 ==> !is_white_space(trim_start(s)[0]),
    decreases s.len(),
{
    if s.len() > 0 && is_white_space(s[0]) {
        lemma_trim_start_len(s.skip(1));
    }
}

/// The runs of characters of `s` that are not white space, in order.
pub open spec fn words_of(s: Seq<char>) -> Seq<Seq<char>>
    decreases s.len(),
{
    let t = trim_start(s);
    let n = word_len(t);
    if 0 < n && t.skip(n as int).len() < s.len() {
        seq![t.take(n as int)] + words_of(t.skip(n as int))
    } else {
        Seq::empty()
    }
}

/// The runs of characters of `s` that are not white space, in order.
pub fn words(s: &[char]) -> (r: Vec<Vec<char>>)
    ensures
        pieces(r@) == words_of(s@),
{
    let mut out: Vec<Vec<char>> = Vec::new();
    let mut from: usize = 0;
    assert(s@.skip(0) == s@);
    assert(pieces(out@) =~= Seq::empty());
    loop
        invariant
            from <= s@.len(),
            words_of(s@) =~= pieces(out@) + words_of(s@.skip(from as int)),
        decreases s@.len() - from,
    {
        let ghost rest = s@.skip(from as int);
        let mut start: usize = from;
        while start < s.len() && white_space(s[start])
            invariant
                from <= start <= s@.len(),
                trim_start(rest) == trim_start(s@.skip(start as int)),
            decreases s@.len() - start,
        {
            assert(s@.skip(start as int).skip(1) == s@.skip(start + 1));
            start = start + 1;
        }
        let ghost t = s@.skip(start as int);
        assert(trim_start(rest) == t);
        let mut end: usize = start;
        assert(t.skip(0) == t);
        while end < s.len() && !white_space(s[end])
            invariant
                start <= end <= s@.len(),
                word_len(t) == (end - start) + word_len(s@.skip(end as int)),
            decreases s@.len() - end,
        {
            assert(s@.skip(end as int).skip(1) == s@.skip(end + 1));
            end = end + 1;
        }
        assert(word_len(t) == end - start);
        if start == end {
            return out;
        }
        let word = &s[start..end];
        assert(word@ == t.take(end - start));
        assert(t.skip(end - start) == s@.skip(end as int));
        let ghost before = pieces(out@);
        out.push(owned(word));
        assert(pieces(out@) =~= before.push(t.take(end - start)));
        from = end;
    }
}

// ── Decimal numbers ─────────────────────────────────────────────────────

/// The character of a decimal digit.
pub open spec fn digit(d: nat) -> char {
    (48 + d) as char
}

/// The decimal form of `n`, without leading zeros.
pub open spec fn decimal(n: nat) -> Seq<char>
    decreases n,
{
    if n < 10 {
        seq![digit(n)]
    } else {
        decimal(n / 10).push(digit(n % 10))
    }
}

/// Appends the decimal form of `n`.
pub fn push_decimal(out: &mut String, n: usize)
    ensures
        final(out)@ == old(out)@ + decimal(n as nat),
    decreases n,
{
    if n >= 10 {
        push_decimal(out, n / 10);
    }
    let d: u8 = (n % 10) as u8;
    out.push((48u8 + d) as char);
    assert(final(out)@ =~= old(out)@ + decimal(n as nat));
}

/// Whether `c` is an ASCII decimal digit.
pub open spec fn is_digit(c: char) -> bool {
    '0' <= c <= '9'
}

/// The number that a sequence of decimal digits stands for.
pub open spec fn digits_value(s: Seq<char>) -> nat
    decreases s.len(),
{
    if s.len() == 0 {
        0
    } else {
        10 * digits_value(s.drop_last()) + (s.last() as nat - 48) as nat
    }
}

/// The digits of a number: the text after one optional plus sign.
pub open spec fn unsigned_digits(s: Seq<char>) -> Seq<char> {
    if s.len() > 0 && s[0] == '+' {
        s.skip(1)
    } else {
        s
    }
}

/// The `u32` that `s` denotes: an optional plus sign and at least one decimal
/// digit, with a value that fits.
pub open spec fn u32_value(s: Seq<char>) -> Option<u32> {
    let d = unsigned_digits(s);
    if d.len() > 0 && (forall|i: int| 0 <= i < d.len() ==> is_digit(#[trigger] d[i]))
        && digits_value(d) <= u32::MAX {
        Some(digits_value(d) as u32)
    } else {
        None
    }
}

/// A longer run of digits denotes no smaller number.
proof fn lemma_digits_value_grows(s: Seq<char>, n: int)
    requires
        0 <= n <= s.len(),
    ensures
        digits_value(s.take(n)) <= digits_value(s),
    decreases s.len(),
{
    if n == s.len() {
        assert(s.take(n) == s);
    } else {
        lemma_digits_value_grows(s.drop_last(), n);
        assert(s.drop_last().take(n) == s.take(n));
    }
}

/// The `u32` that `s` denotes.
pub fn parse_u32(s: &[char]) -> (r: Option<u32>)
    ensures
        r == u32_value(s@),
{
    let from: usize = if s.len() > 0 && s[0] == '+' {
        1
    } else {
        0
    };
    let d = &s[from..s.len()];
    assert(d@ == unsigned_digits(s@));
    if d.len() == 0 {
        return None;
    }
    let mut value: u32 = 0;
    for i in 0..d.len()
        invariant
            d@ == unsigned_digits(s@),
            value == digits_value(d@.take(i as int)),
            forall|j: int| 0 <= j < i ==> is_digit(#[trigger] d@[j]),
    {
        let c = d[i];
        if c < '0' || c > '9' {
            return None;
        }
        let next: u64 = 10u64 * value as u64 + (c as u32 - 48u32) as u64;
        assert(d@.take(i + 1).drop_last() == d@.take(i as int));
        assert(next == digits_value(d@.take(i + 1)));
        if next > 0xffff_ffffu64 {
            proof {
                lemma_digits_value_grows(d@, i + 1);
            }
            return None;
        }
        value = next as u32;
    }
    assert(d@.take(d@.len() as int) == d@);
    Some(value)
}

// ── What the operations keep ────────────────────────────────────────────

/// Whether the character `c` does not occur in `s`.
pub open spec fn lacks(s: Seq<char>, c: char) -> bool {
    forall|i: int| 0 <= i < s.len() ==> #[trigger] s[i] != c
}

/// A character that is neither in the text nor in the replacement is not in the
/// result.
pub proof fn lemma_replaced_lacks(s: Seq<char>, pat: Seq<char>, rep: Seq<char>, c: char)
    requires
        lacks(s, c),
        lacks(rep, c),
    ensures
        lacks(replaced(s, pat, rep), c),
    decreases s.len(),
{
    if s.len() == 0 || pat.len() == 0 {
    } else if occurs_at(s, pat, 0) {
        lemma_replaced_lacks(s.skip(pat.len() as int), pat, rep, c);
    } else {
        lemma_replaced_lacks(s.skip(1), pat, rep, c);
    }
}

/// Where the first character of a pattern is missing, nothing is replaced.
pub proof fn lemma_replaced_absent(s: Seq<char>, pat: Seq<char>, rep: Seq<char>)
    requires
        pat.len() > 0,
        lacks(s, pat[0]),
    ensures
        replaced(s, pat, rep) == s,
    decreases s.len(),
{
    if s.len() > 0 {
        if occurs_at(s, pat, 0) {
            assert(s.subrange(0, pat.len() as int)[0] == s[0]);
        }
        lemma_replaced_absent(s.skip(1), pat, rep);
        assert(seq![s[0]] + s.skip(1) =~= s);
    }
}

/// Where a pattern does not stand, nothing is replaced.
pub proof fn lemma_replaced_not_held(s: Seq<char>, pat: Seq<char>, rep: Seq<char>)
    requires
        !holds(s, pat),
    ensures
        replaced(s, pat, rep) == s,
    decreases s.len(),
{
    if s.len() > 0 {
        let t = s.skip(1);
        if holds(t, pat) {
            assert(t =~= s.subrange(1, s.len() as int));
            lemma_holds_in_part(s, 1, s.len() as int, pat);
        }
        lemma_replaced_not_held(t, pat, rep);
        assert(seq![s[0]] + t =~= s);
    }
}

/// Where the last character of a pattern is missing, nothing is replaced.
pub proof fn lemma_replaced_without_end(s: Seq<char>, pat: Seq<char>, rep: Seq<char>)
    requires
        pat.len() > 0,
        lacks(s, pat.last()),
    ensures
        replaced(s, pat, rep) == s,
    decreases s.len(),
{
    if s.len() > 0 {
        if occurs_at(s, pat, 0) {
            assert(s.subrange(0, pat.len() as int)[pat.len() - 1] == s[pat.len() - 1]);
        }
        lemma_replaced_without_end(s.skip(1), pat, rep);
        assert(seq![s[0]] + s.skip(1) =~= s);
    }
}

/// A character that is not in the text is in none of its pieces, and the
/// separator character is in none of them either.
pub proof fn lemma_split_lacks(s: Seq<char>, sep: char, c: char, k: int)
    requires
        lacks(s, c) || c == sep,
        0 <= k < split_by(s, seq![sep]).len(),
    ensures
        lacks(split_by(s, seq![sep])[k], c),
    decreases s.len(),
{
    let pat = seq![sep];
    lemma_split_step(s, pat);
    if s.len() == 0 {
    } else if occurs_at(s, pat, 0) {
        if k > 0 {
            lemma_split_lacks(s.skip(1), sep, c, k - 1);
        }
    } else {
        lemma_split_step(s.skip(1), pat);
        lemma_split_lacks(s.skip(1), sep, c, k);
        assert(s.subrange(0, 1) =~= seq![s[0]]);
    }
}

/// White space is only dropped.
pub proof fn lemma_trimmed_lacks(s: Seq<char>, c: char)
    requires
        lacks(s, c),
    ensures
        lacks(trimmed(s), c),
{
    lemma_trim_start_lacks(s, c);
    lemma_trim_end_lacks(trim_start(s), c);
}

proof fn lemma_trim_start_lacks(s: Seq<char>, c: char)
    requires
        lacks(s, c),
    ensures
        lacks(trim_start(s), c),
    decreases s.len(),
{
    if s.len() > 0 && is_white_space(s[0]) {
        lemma_trim_start_lacks(s.skip(1), c);
    }
}

proof fn lemma_trim_end_lacks(s: Seq<char>, c: char)
    requires
        lacks(s, c),
    ensures
        lacks(trim_end(s), c),
    decreases s.len(),
{
    if s.len() > 0 && is_white_space(s.last()) {
        lemma_trim_end_lacks(s.drop_last(), c);
    }
}

/// What stands in a part of a text stands in the text.
pub proof fn lemma_holds_in_part(s: Seq<char>, from: int, to: int, pat: Seq<char>)
    requires
        0 <= from <= to <= s.len(),
        holds(s.subrange(from, to), pat),
    ensures
        holds(s, pat),
{
    let part = s.subrange(from, to);
    let i = choose|i: int| occurs_at(part, pat, i);
    assert(s.subrange(from + i, from + i + pat.len()) =~= part.subrange(i, i + pat.len()));
    assert(occurs_at(s, pat, from + i));
}

/// What stands in a piece of a text stands in the text.
pub proof fn lemma_split_holds(s: Seq<char>, sep: Seq<char>, pat: Seq<char>, k: int)
    requires
        sep.len() > 0,
        0 <= k < split_by(s, sep).len(),
        holds(split_by(s, sep)[k], pat),
    ensures
        holds(s, pat),
    decreases s.len(),
{
    lemma_find_from(s, sep, 0);
    match first_at(s, sep) {
        Some(i) => {
            if k == 0 {
                assert(s.take(i) =~= s.subrange(0, i));
                lemma_holds_in_part(s, 0, i, pat);
            } else {
                let rest = s.skip(i + sep.len());
                lemma_split_holds(rest, sep, pat, k - 1);
                assert(rest =~= s.subrange(i + sep.len(), s.len() as int));
                lemma_holds_in_part(s, i + sep.len(), s.len() as int, pat);
            }
        },
        None => {},
    }
}

/// What stands in a trimmed text stands in the text.
pub proof fn lemma_trimmed_holds(s: Seq<char>, pat: Seq<char>)
    requires
        holds(trimmed(s), pat),
    ensures
        holds(s, pat),
{
    lemma_trim_end_holds(trim_start(s), pat);
    lemma_trim_start_holds(s, pat);
}

proof fn lemma_trim_start_holds(s: Seq<char>, pat: Seq<char>)
    requires
        holds(trim_start(s), pat),
    ensures
        holds(s, pat),
    decreases s.len(),
{
    if s.len() > 0 && is_white_space(s[0]) {
        lemma_trim_start_holds(s.skip(1), pat);
        assert(s.skip(1) =~= s.subrange(1, s.len() as int));
        lemma_holds_in_part(s, 1, s.len() as int, pat);
    }
}

proof fn lemma_trim_end_holds(s: Seq<char>, pat: Seq<char>)
    requires
        holds(trim_end(s), pat),
    ensures
        holds(s, pat),
    decreases s.len(),
{
    if s.len() > 0 && is_white_space(s.last()) {
        lemma_trim_end_holds(s.drop_last(), pat);
        assert(s.drop_last() =~= s.subrange(0, s.len() - 1));
        lemma_holds_in_part(s, 0, s.len() - 1, pat);
    }
}

/// A trimmed text has no white space at its ends.
pub proof fn lemma_trimmed_ends(s: Seq<char>)
    ensures
        trimmed(s).len() > 0 ==> !is_white_space(trimmed(s)[0]) && !is_white_space(
            trimmed(s).last(),
        ),
        trimmed(trimmed(s)) == trimmed(s),
{
    let t = trim_start(s);
    lemma_trim_start_len(s);
    lemma_trim_end_keeps_first(t);
}

proof fn lemma_trim_end_keeps_first(s: Seq<char>)
    ensures
        trim_end(s).len() <= s.len(),
        trim_end(s).len() > 0 ==> trim_end(s)[0] == s[0] && !is_white_space(trim_end(s).last()),
    decreases s.len(),
{
    if s.len() > 0 && is_white_space(s.last()) {
        lemma_trim_end_keeps_first(s.drop_last());
    }
}

/// How the result starts where a pattern was replaced by one character: with
/// that character, or as the text starts.
proof fn lemma_replaced_first(s: Seq<char>, pat: Seq<char>, c: char)
    requires
        pat.len() > 0,
    ensures
        replaced(s, pat, seq![c]).len() > 0 <==> s.len() > 0,
        s.len() > 0 ==> replaced(s, pat, seq![c])[0] == c || replaced(s, pat, seq![c])[0] == s[0],
{
}

/// Replacing a pattern by a character that is not part of the pair `a`, `b`
/// makes no new pair; and where the pattern is the pair, none is left.
pub proof fn lemma_replaced_pair(s: Seq<char>, pat: Seq<char>, c: char, a: char, b: char)
    requires
        pat.len() > 0,
        c != a,
        c != b,
        !holds(s, seq![a, b]) || pat == seq![a, b],
    ensures
        !holds(replaced(s, pat, seq![c]), seq![a, b]),
    decreases s.len(),
{
    let pair = seq![a, b];
    let r = replaced(s, pat, seq![c]);
    if s.len() == 0 {
        assert forall|i: int| !occurs_at(r, pair, i) by {}
    } else {
        let n = if occurs_at(s, pat, 0) {
            pat.len() as int
        } else {
            1
        };
        let t = s.skip(n);
        let rest = replaced(t, pat, seq![c]);
        if holds(t, pair) {
            assert(t =~= s.subrange(n, s.len() as int));
            lemma_holds_in_part(s, n, s.len() as int, pair);
        }
        lemma_replaced_pair(t, pat, c, a, b);
        lemma_replaced_first(t, pat, c);
        assert(r.skip(1) =~= rest);
        assert forall|i: int| !occurs_at(r, pair, i) by {
            if occurs_at(r, pair, i) {
                assert(r.subrange(i, i + 2)[0] == r[i] && r.subrange(i, i + 2)[1] == r[i + 1]);
                if i > 0 {
                    assert(rest.subrange(i - 1, i + 1) =~= r.subrange(i, i + 2));
                    assert(occurs_at(rest, pair, i - 1));
                } else {
                    assert(r[1] == rest[0]);
                    assert(s[1] == t[0]);
                    assert(s.subrange(0, 2) =~= pair);
                    assert(occurs_at(s, pair, 0));
                }
            }
        }
    }
}

// ── Laws ────────────────────────────────────────────────────────────────

/// A decimal form reads back as its number: it holds digits only, no zero leads
/// it, and its value is the number.
pub proof fn law_decimal_reads_back(n: nat)
    ensures
        decimal(n).len() > 0,
        forall|i: int| 0 <= i < decimal(n).len() ==> '0' <= #[trigger] decimal(n)[i] <= '9',
        n > 0 ==> decimal(n)[0] != '0',
        digits_value(decimal(n)) == n,
        n <= u32::MAX ==> u32_value(decimal(n)) == Some(n as u32),
    decreases n,
{
    if n < 10 {
        reveal_with_fuel(digits_value, 2);
        assert(seq![digit(n)].drop_last() =~= Seq::empty());
    } else {
        law_decimal_reads_back(n / 10);
        let head = decimal(n / 10);
        assert(decimal(n).drop_last() =~= head);
        assert forall|i: int| 0 <= i < decimal(n).len() implies '0' <= #[trigger] decimal(n)[i]
            <= '9' by {
            if i < head.len() {
                assert(decimal(n)[i] == head[i]);
            }
        }
        assert(decimal(n)[0] == head[0]);
    }
    assert(unsigned_digits(decimal(n)) == decimal(n)) by {
        assert('0' <= decimal(n)[0] <= '9');
    }
}

/// The number that digits denote: each further digit counts ten times less. A plus
/// sign before them changes nothing, and any other character makes it no number.
pub proof fn law_digits_denote_a_number(d: Seq<char>, c: char)
    ensures
        digits_value(Seq::empty()) == 0,
        '0' <= c <= '9' ==> digits_value(d.push(c)) == 10 * digits_value(d) + (c as int - '0' as int),
        u32_value(Seq::empty()) is None,
        d.len() > 0 && d[0] != '+' ==> u32_value(seq!['+'] + d) == u32_value(d),
        d.len() > 0 && !('0' <= c <= '9') ==> u32_value(d.push(c)) is None,
        u32_value(d) matches Some(v) ==> v == digits_value(unsigned_digits(d)),
        d.len() > 0 && (forall|i: int| 0 <= i < d.len() ==> '0' <= #[trigger] d[i] <= '9') ==> (
        u32_value(d) is Some <==> digits_value(d) <= u32::MAX),
{
    assert(d.push(c).drop_last() =~= d);
    assert((seq!['+'] + d).skip(1) =~= d);
    if d.len() > 0 && !('0' <= c <= '9') {
        let u = unsigned_digits(d.push(c));
        assert(u.last() == c);
        assert(u[u.len() - 1] == c);
    }
}

/// Trimming drops white space at the two ends, all of it, and nothing else.
pub proof fn law_trimming(s: Seq<char>)
    ensures
        exists|a: int, b: int|
            #![trigger s.subrange(a, b)]
            0 <= a <= b <= s.len() && trimmed(s) == s.subrange(a, b) && is_blank(s.subrange(0, a))
                && is_blank(s.subrange(b, s.len() as int)),
        trimmed(s).len() > 0 ==> !is_white_space(trimmed(s)[0]) && !is_white_space(
            trimmed(s)[trimmed(s).len() - 1],
        ),
{
    lemma_trimmed_ends(s);
    let a = lemma_trim_start_at(s);
    let t = trim_start(s);
    let n = lemma_trim_end_at(t);
    let b = a + n;
    assert(trimmed(s) =~= s.subrange(a, b));
    assert forall|i: int| 0 <= i < s.subrange(b, s.len() as int).len() implies is_white_space(
        #[trigger] s.subrange(b, s.len() as int)[i],
    ) by {
        assert(t[n + i] == s[b + i]);
    }
}

proof fn lemma_trim_start_at(s: Seq<char>) -> (a: int)
    ensures
        0 <= a <= s.len(),
        trim_start(s) == s.subrange(a, s.len() as int),
        is_blank(s.subrange(0, a)),
    decreases s.len(),
{
    if s.len() > 0 && is_white_space(s[0]) {
        let a = lemma_trim_start_at(s.skip(1));
        assert(trim_start(s) =~= s.subrange(a + 1, s.len() as int));
        assert forall|i: int| 0 <= i < s.subrange(0, a + 1).len() implies is_white_space(
            #[trigger] s.subrange(0, a + 1)[i],
        ) by {
            if i > 0 {
                assert(s.skip(1).subrange(0, a)[i - 1] == s[i]);
            }
        }
        a + 1
    } else {
        assert(s.subrange(0, s.len() as int) =~= s);
        0
    }
}

proof fn lemma_trim_end_at(s: Seq<char>) -> (n: int)
    ensures
        0 <= n <= s.len(),
        trim_end(s) == s.take(n),
        forall|i: int| n <= i < s.len() ==> is_white_space(#[trigger] s[i]),
    decreases s.len(),
{
    if s.len() > 0 && is_white_space(s.last()) {
        let n = lemma_trim_end_at(s.drop_last());
        assert(trim_end(s) =~= s.take(n));
        assert forall|i: int| n <= i < s.len() implies is_white_space(#[trigger] s[i]) by {
            if i < s.len() - 1 {
                assert(s.drop_last()[i] == s[i]);
            }
        }
        n
    } else {
        assert(s.take(s.len() as int) =~= s);
        s.len() as int
    }
}

/// Pieces one after the other, with `sep` between two of them.
pub open spec fn joined_by(ps: Seq<Seq<char>>, sep: Seq<char>) -> Seq<char>
    decreases ps.len(),
{
    if ps.len() == 0 {
        Seq::empty()
    } else if ps.len() == 1 {
        ps[0]
    } else {
        ps[0] + sep + joined_by(ps.skip(1), sep)
    }
}

/// Splitting loses nothing: the pieces with the separator between them are the text
/// again, and no piece holds the separator.
pub proof fn law_splitting(s: Seq<char>, sep: Seq<char>)
    requires
        sep.len() > 0,
    ensures
        split_by(s, sep).len() > 0,
        joined_by(split_by(s, sep), sep) == s,
        forall|k: int| 0 <= k < split_by(s, sep).len() ==> !holds(#[trigger] split_by(s, sep)[k], sep),
    decreases s.len(),
{
    lemma_find_from(s, sep, 0);
    let ps = split_by(s, sep);
    match first_at(s, sep) {
        Some(i) => {
            let rest = s.skip(i + sep.len());
            law_splitting(rest, sep);
            assert(ps.skip(1) =~= split_by(rest, sep));
            assert(s =~= s.take(i) + sep + rest) by {
                assert(s.subrange(i, i + sep.len()) == sep);
            }
            assert forall|k: int| 0 <= k < ps.len() implies !holds(#[trigger] ps[k], sep) by {
                if k > 0 {
                    assert(ps[k] == split_by(rest, sep)[k - 1]);
                } else if holds(s.take(i), sep) {
                    let j = choose|j: int| occurs_at(s.take(i), sep, j);
                    assert(s.take(i).subrange(j, j + sep.len()) =~= s.subrange(j, j + sep.len()));
                    assert(occurs_at(s, sep, j));
                }
            }
        },
        None => {},
    }
}

/// Replacing is splitting at the pattern and joining with the replacement.
pub proof fn law_replacing(s: Seq<char>, pat: Seq<char>, rep: Seq<char>)
    requires
        pat.len() > 0,
    ensures
        replaced(s, pat, rep) == joined_by(split_by(s, pat), rep),
    decreases s.len(),
{
    lemma_split_step(s, pat);
    let ps = split_by(s, pat);
    if s.len() == 0 {
    } else if occurs_at(s, pat, 0) {
        let rest = s.skip(pat.len() as int);
        law_replacing(rest, pat, rep);
        lemma_split_step(rest, pat);
        assert(ps.skip(1) =~= split_by(rest, pat));
        assert(Seq::<char>::empty() + rep + joined_by(split_by(rest, pat), rep) =~= rep + joined_by(
            split_by(rest, pat),
            rep,
        ));
    } else {
        let rest = s.skip(1);
        let qs = split_by(rest, pat);
        law_replacing(rest, pat, rep);
        lemma_split_step(rest, pat);
        if qs.len() == 1 {
            assert(ps =~= seq![seq![s[0]] + qs[0]]);
        } else {
            assert(ps.skip(1) =~= qs.skip(1));
            assert((seq![s[0]] + qs[0]) + rep + joined_by(qs.skip(1), rep) =~= seq![s[0]] + (qs[0]
                + rep + joined_by(qs.skip(1), rep)));
        }
    }
}

/// The two sides of a separator are what stands before and behind its first
/// occurrence; there are none exactly where it does not occur.
pub proof fn law_parting(s: Seq<char>, sep: Seq<char>)
    ensures
        parted(s, sep) is None <==> !holds(s, sep),
        parted(s, sep) matches Some((a, b)) ==> s == a + sep + b && forall|i: int|
            0 <= i < a.len() ==> !occurs_at(s, sep, i),
{
    lemma_find_from(s, sep, 0);
    match first_at(s, sep) {
        Some(i) => {
            assert(s.subrange(i, i + sep.len()) == sep);
            assert(s =~= s.take(i) + sep + s.skip(i + sep.len()));
        },
        None => {},
    }
}

/// Where a separator first stands behind `a`, it parts the text there.
pub proof fn law_parting_at(a: Seq<char>, sep: Seq<char>, b: Seq<char>)
    requires
        forall|i: int| 0 <= i < a.len() ==> !occurs_at(a + sep + b, sep, i),
    ensures
        parted(a + sep + b, sep) == Some((a, b)),
{
    let s = a + sep + b;
    let n = a.len() as int;
    lemma_find_from(s, sep, 0);
    assert(s.subrange(n, n + sep.len()) =~= sep);
    assert(occurs_at(s, sep, n));
    assert(first_at(s, sep) == Some(n));
    assert(s.take(n) =~= a);
    assert(s.skip(n + sep.len()) =~= b);
}

proof fn lemma_lines_of_head(l: Seq<char>, rest: Seq<char>)
    requires
        lacks(l, '\n'),
        lacks(l, '\r'),
    ensures
        lines_of(l + seq!['\n'] + rest) == seq![l] + lines_of(rest),
{
    let nl = seq!['\n'];
    let s = l + nl + rest;
    let n = l.len() as int;
    assert forall|i: int| 0 <= i < l.len() implies !occurs_at(s, nl, i) by {
        if occurs_at(s, nl, i) {
            assert(s.subrange(i, i + 1)[0] == l[i]);
        }
    }
    lemma_find_from(s, nl, 0);
    assert(s.subrange(n, n + 1) =~= nl);
    assert(occurs_at(s, nl, n));
    assert(first_at(s, nl) == Some(n));
    assert(s.take(n) =~= l);
    assert(s.skip(n + 1) =~= rest);
    assert(chomped(l) == l);
}

/// Lines that are written one below the other are read back, with or without a
/// newline behind the last one.
pub proof fn law_lines_read_back(ls: Seq<Seq<char>>)
    requires
        ls.len() > 0,
        forall|k: int| 0 <= k < ls.len() ==> lacks(#[trigger] ls[k], '\n') && lacks(ls[k], '\r'),
    ensures
        lines_of(joined_by(ls, seq!['\n']) + seq!['\n']) == ls,
        ls.last().len() > 0 ==> lines_of(joined_by(ls, seq!['\n'])) == ls,
    decreases ls.len(),
{
    let nl = seq!['\n'];
    let l = ls[0];
    assert(lacks(l, '\n') && lacks(l, '\r'));
    if ls.len() == 1 {
        lemma_lines_of_head(l, Seq::empty());
        assert(l + nl + Seq::<char>::empty() =~= l + nl);
        assert(lines_of(Seq::empty()) =~= Seq::empty());
        assert(seq![l] + Seq::<Seq<char>>::empty() =~= ls);
        lemma_find_from(l, nl, 0);
        match first_at(l, nl) {
            Some(i) => {
                assert(l.subrange(i, i + 1)[0] == l[i]);
            },
            None => {},
        }
        assert(ls =~= seq![l]);
    } else {
        let below = ls.skip(1);
        assert forall|k: int| 0 <= k < below.len() implies lacks(#[trigger] below[k], '\n') && lacks(
            below[k],
            '\r',
        ) by {
            assert(below[k] == ls[k + 1]);
        }
        law_lines_read_back(below);
        let rest = joined_by(below, nl);
        lemma_lines_of_head(l, rest);
        lemma_lines_of_head(l, rest + nl);
        assert(joined_by(ls, nl) + nl =~= l + nl + (rest + nl));
        assert(seq![l] + below =~= ls);
        assert(below.last() == ls.last());
    }
}

/// Words are read one after the other: white space before a word is skipped, the
/// word reaches up to the next white space or the end, and white space alone holds
/// no word.
pub proof fn law_words_read_back(gap: Seq<char>, word: Seq<char>, rest: Seq<char>)
    requires
        is_blank(gap),
        forall|i: int| 0 <= i < word.len() ==> !is_white_space(#[trigger] word[i]),
        rest.len() == 0 || is_white_space(rest[0]),
    ensures
        word.len() > 0 ==> words_of(gap + word + rest) == seq![word] + words_of(rest),
        words_of(gap).len() == 0,
{
    let s = gap + word + rest;
    lemma_trim_start_blank(gap, word + rest);
    lemma_trim_start_blank(gap, Seq::empty());
    assert(gap + Seq::<char>::empty() =~= gap);
    assert(trim_start(Seq::<char>::empty()) =~= Seq::empty());
    if word.len() > 0 {
        assert(s =~= gap + (word + rest));
        assert((word + rest)[0] == word[0]);
        assert(trim_start(word + rest) == word + rest);
        lemma_word_len_of(word, rest);
        let n = word.len() as int;
        assert((word + rest).take(n) =~= word);
        assert((word + rest).skip(n) =~= rest);
    }
}

proof fn lemma_trim_start_blank(gap: Seq<char>, rest: Seq<char>)
    requires
        is_blank(gap),
    ensures
        trim_start(gap + rest) == trim_start(rest),
    decreases gap.len(),
{
    if gap.len() > 0 {
        let less = gap.skip(1);
        assert(is_white_space(gap[0]));
        assert forall|i: int| 0 <= i < less.len() implies is_white_space(#[trigger] less[i]) by {
            assert(less[i] == gap[i + 1]);
        }
        lemma_trim_start_blank(less, rest);
        assert((gap + rest).skip(1) =~= less + rest);
    } else {
        assert(gap + rest =~= rest);
    }
}

pub proof fn lemma_word_len_of(word: Seq<char>, rest: Seq<char>)
    requires
        forall|i: int| 0 <= i < word.len() ==> !is_white_space(#[trigger] word[i]),
        rest.len() == 0 || is_white_space(rest[0]),
    ensures
        word_len(word + rest) == word.len(),
    decreases word.len(),
{
    if word.len() > 0 {
        let less = word.skip(1);
        assert(!is_white_space(word[0]));
        assert forall|i: int| 0 <= i < less.len() implies !is_white_space(#[trigger] less[i]) by {
            assert(less[i] == word[i + 1]);
        }
        lemma_word_len_of(less, rest);
        assert((word + rest).skip(1) =~= less + rest);
    } else {
        assert(word + rest =~= rest);
    }
}

/// What a list of strings reads as is what each of them reads as, in order.
pub proof fn law_texts_are_the_strings(v: Seq<String>, w: Seq<Vec<char>>, i: int)
    ensures
        texts(v).len() == v.len(),
        pieces(w).len() == w.len(),
        0 <= i < v.len() ==> texts(v)[i] == v[i]@,
        0 <= i < w.len() ==> pieces(w)[i] == w[i]@,
{
}

/// The characters that count as white space, all of them.
pub proof fn law_white_space(c: char)
    ensures
        is_white_space(c) <==> seq![
            0x9u32,
            0xa,
            0xb,
            0xc,
            0xd,
            0x20,
            0x85,
            0xa0,
            0x1680,
            0x2000,
            0x2001,
            0x2002,
            0x2003,
            0x2004,
            0x2005,
            0x2006,
            0x2007,
            0x2008,
            0x2009,
            0x200a,
            0x2028,
            0x2029,
            0x202f,
            0x205f,
            0x3000,
        ].contains(c as u32),
{
    let all = seq![
        0x9u32, 0xa, 0xb, 0xc, 0xd, 0x20, 0x85, 0xa0, 0x1680, 0x2000, 0x2001, 0x2002, 0x2003, 0x2004,
        0x2005, 0x2006, 0x2007, 0x2008, 0x2009, 0x200a, 0x2028, 0x2029, 0x202f, 0x205f, 0x3000,
    ];
    let n = c as u32;
    if 0x9 <= n <= 0xd {
        assert(all[n - 0x9] == n);
    }
    if 0x2000 <= n <= 0x200a {
        assert(all[n - 0x2000 + 9] == n);
    }
    assert(all[5] == 0x20 && all[6] == 0x85 && all[7] == 0xa0 && all[8] == 0x1680);
    assert(all[20] == 0x2028 && all[21] == 0x2029 && all[22] == 0x202f && all[23] == 0x205f
        && all[24] == 0x3000);
}

/// White space round a text is trimmed off, and nothing else.
pub proof fn law_white_space_around(before: Seq<char>, s: Seq<char>, behind: Seq<char>)
    requires
        is_blank(before),
        is_blank(behind),
        s.len() > 0,
        !is_white_space(s[0]),
        !is_white_space(s.last()),
    ensures
        trimmed(before + s + behind) == s,
        trimmed(before).len() == 0,
{
    let all = before + s + behind;
    let from = before.len() as int;
    let to = from + s.len();
    law_trimming(all);
    let (a, b) = choose|a: int, b: int|
        #![trigger all.subrange(a, b)]
        0 <= a <= b <= all.len() && trimmed(all) == all.subrange(a, b) && is_blank(
            all.subrange(0, a),
        ) && is_blank(all.subrange(b, all.len() as int));
    assert(all[from] == s[0] && all[to - 1] == s.last());
    if a > from {
        assert(all.subrange(0, a)[from] == all[from]);
    }
    if b < to {
        assert(all.subrange(b, all.len() as int)[to - 1 - b] == all[to - 1]);
    }
    assert(a <= from && to <= b);
    let t = trimmed(all);
    if a < from {
        assert(t[0] == before[a]);
    }
    if to < b {
        assert(t[t.len() - 1] == behind[b - 1 - to]);
    }
    assert(t =~= s);
    law_trimming(before);
    if trimmed(before).len() > 0 {
        let (c, d) = choose|c: int, d: int|
            #![trigger before.subrange(c, d)]
            0 <= c <= d <= before.len() && trimmed(before) == before.subrange(c, d) && is_blank(
                before.subrange(0, c),
            ) && is_blank(before.subrange(d, before.len() as int));
        assert(trimmed(before)[0] == before[c]);
    }
}

} // verus!
