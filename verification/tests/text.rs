use vlscii::binary64::Binary64;
use vlscii::text::{
    blank, chars_of, contains, find, lines, parse_u32, push_decimal, replace, split, split_once,
    string_of, trim, white_space, words,
};

const SAMPLES: [&str; 14] = [
    "",
    " ",
    "a",
    "\n",
    "\r\n",
    "a\n",
    "a\r\nb\rc\n\n",
    "  two words\t",
    "a,b,,c,",
    "-->",
    "x --> y --> z",
    "\u{3000}wide\u{a0}",
    "\\N\\n\\\\N",
    "aaaa",
];

fn strings(v: &Vec<Vec<char>>) -> Vec<String> {
    v.iter().map(|p| string_of(p.as_slice())).collect()
}

#[test]
fn white_space_is_that_of_unicode() {
    for c in '\0'..=char::MAX {
        assert_eq!(white_space(c), c.is_whitespace(), "{:x}", c as u32);
    }
}

#[test]
fn characters_go_there_and_back() {
    for s in SAMPLES {
        assert_eq!(string_of(chars_of(s).as_slice()), s);
        assert_eq!(blank(chars_of(s).as_slice()), s.trim().is_empty());
        assert_eq!(string_of(trim(chars_of(s).as_slice())), s.trim());
    }
}

#[test]
fn text_is_taken_apart_like_a_str() {
    for s in SAMPLES {
        let chars = chars_of(s);
        assert_eq!(strings(&lines(chars.as_slice())), s.lines().collect::<Vec<_>>(), "{s:?}");
        assert_eq!(strings(&words(chars.as_slice())), s.split_whitespace().collect::<Vec<_>>());
        for pat in [",", "a", "aa", "\n", "\r\n", "-->", "\\N", "zz"] {
            let p = chars_of(pat);
            assert_eq!(
                strings(&split(chars.as_slice(), p.as_slice())),
                s.split(pat).collect::<Vec<_>>(),
                "{s:?} {pat:?}"
            );
            assert_eq!(
                split_once(chars.as_slice(), p.as_slice()).map(|(a, b)| (string_of(a), string_of(b))),
                s.split_once(pat).map(|(a, b)| (a.to_string(), b.to_string()))
            );
            assert_eq!(contains(chars.as_slice(), p.as_slice()), s.contains(pat));
            assert_eq!(find(chars.as_slice(), p.as_slice()).is_some(), s.find(pat).is_some());
            for rep in ["", "-", "long"] {
                let r = chars_of(rep);
                assert_eq!(
                    string_of(replace(chars.as_slice(), p.as_slice(), r.as_slice()).as_slice()),
                    s.replace(pat, rep),
                    "{s:?} {pat:?} {rep:?}"
                );
            }
        }
    }
}

#[test]
fn decimal_numbers() {
    for n in [0usize, 1, 9, 10, 99, 100, 255, 4294967295] {
        let mut s = String::new();
        push_decimal(&mut s, n);
        assert_eq!(s, n.to_string());
    }
    for s in ["0", "7", "007", "+5", "4294967295", "4294967296", "99999999999999999999999", "", "+",
        "-1", "1.0", " 1", "x", "+-1", "١"]
    {
        assert_eq!(parse_u32(chars_of(s).as_slice()), s.parse::<u32>().ok(), "{s:?}");
    }
}

#[test]
fn numbers_are_ordered_as_binary64() {
    let samples = [
        0.0,
        -0.0,
        1.0,
        -1.0,
        1.5,
        1e-300,
        -1e300,
        5e-324,
        f64::MIN_POSITIVE,
        f64::MAX,
        f64::INFINITY,
        f64::NEG_INFINITY,
        f64::NAN,
        -f64::NAN,
        0.1,
        0.30000000000000004,
        0.3,
    ];
    for a in samples {
        for b in samples {
            let (x, y) = (Binary64 { bits: a.to_bits() }, Binary64 { bits: b.to_bits() });
            assert_eq!(x.less(y), a < b, "{a} {b}");
            assert_eq!(x.less_or_equal(y), a <= b, "{a} {b}");
            assert_eq!(x == y, a == b, "{a} {b}");
            assert_eq!(x.nan(), a.is_nan());
        }
    }
}
