use vlscii::binary64::Binary64;
use vlscii::srt::{
    clean_text, parse_srt, parse_timestamp, parse_timing, strip_tags, CueText, TimestampText,
};
use vlscii::subtitles::{
    choose_track, is_text_codec, stream_selector, subtitle_streams, timed_cues, Cue, Subtitles,
    TrackError,
};

/// The number of seconds that a timestamp stands for.
fn seconds(t: &TimestampText) -> Option<f64> {
    let h: f64 = t.hours.parse().ok()?;
    let m: f64 = t.minutes.parse().ok()?;
    let s: f64 = t.seconds.parse().ok()?;
    Some(h * 3600.0 + m * 60.0 + s)
}

fn number(v: f64) -> Binary64 {
    Binary64 { bits: v.to_bits() }
}

fn times_of(cues: &Vec<CueText>) -> Vec<Option<(Binary64, Binary64)>> {
    cues.iter()
        .map(|c| Some((number(seconds(&c.start)?), number(seconds(&c.end)?))))
        .collect()
}

fn cues_of(srt: &str) -> Vec<Cue> {
    let cues = parse_srt(srt);
    let times = times_of(&cues);
    timed_cues(cues, &times)
}

fn cue(start: f64, end: f64, line: &str) -> Cue {
    Cue { start: number(start), end: number(end), lines: vec![line.to_string()] }
}

#[test]
fn parses_basic_srt() {
    let srt = "1\n00:00:01,000 --> 00:00:03,000\nHello world\n\n\
               2\n00:00:04,500 --> 00:00:06,000\nSecond line\n";
    let cues = cues_of(srt);
    assert_eq!(cues.len(), 2);
    assert_eq!(cues[0].start, number(1.0));
    assert_eq!(cues[0].end, number(3.0));
    assert_eq!(cues[0].lines, vec!["Hello world"]);
    assert_eq!(cues[1].start, number(4.5));
}

#[test]
fn multiline_cue() {
    let srt = "1\n00:00:01,000 --> 00:00:02,000\nLine one\nLine two\n";
    let cues = cues_of(srt);
    assert_eq!(cues[0].lines, vec!["Line one", "Line two"]);
}

#[test]
fn strips_html_and_ass_tags() {
    let srt = "1\n00:00:01,000 --> 00:00:02,000\n{\\an8}<i>Italic</i> text\n";
    let cues = cues_of(srt);
    assert_eq!(cues[0].lines, vec!["Italic text"]);
}

#[test]
fn ass_hard_break_splits_lines() {
    let srt = "1\n00:00:01,000 --> 00:00:02,000\nfirst\\Nsecond\n";
    let cues = cues_of(srt);
    assert_eq!(cues[0].lines, vec!["first", "second"]);
}

#[test]
fn tolerates_crlf_and_missing_index() {
    let srt = "00:00:01,000 --> 00:00:02,000\r\nHi there\r\n";
    let cues = cues_of(srt);
    assert_eq!(cues.len(), 1);
    assert_eq!(cues[0].lines, vec!["Hi there"]);
}

#[test]
fn active_at_finds_and_advances() {
    let srt = "1\n00:00:01,000 --> 00:00:03,000\nA\n\n\
               2\n00:00:05,000 --> 00:00:06,000\nB\n";
    let mut subs = Subtitles::from_cues(cues_of(srt));
    assert!(subs.active_at(number(0.5)).is_empty());
    assert_eq!(subs.active_at(number(2.0)), &["A".to_string()]);
    assert!(subs.active_at(number(4.0)).is_empty());
    assert_eq!(subs.active_at(number(5.5)), &["B".to_string()]);
    assert!(subs.active_at(number(7.0)).is_empty());
}

#[test]
fn active_at_handles_restart() {
    let srt = "1\n00:00:01,000 --> 00:00:03,000\nA\n";
    let mut subs = Subtitles::from_cues(cues_of(srt));
    assert_eq!(subs.active_at(number(2.0)), &["A".to_string()]);
    // Time jumps back to start: cursor must rewind.
    assert_eq!(subs.active_at(number(2.0)), &["A".to_string()]);
}

#[test]
fn text_codec_detection() {
    assert!(is_text_codec("subrip"));
    assert!(is_text_codec("ass"));
    assert!(!is_text_codec("hdmv_pgs_subtitle"));
    assert!(!is_text_codec("dvd_subtitle"));
}

#[test]
fn webvtt_dot_timestamps() {
    assert_eq!(parse_timestamp("00:00:01.500").as_ref().and_then(seconds), Some(1.5));
    assert_eq!(parse_timestamp("01:02:03,250").as_ref().and_then(seconds), Some(3723.25));
}

#[test]
fn every_text_codec_is_known() {
    let known =
        ["subrip", "srt", "ass", "ssa", "mov_text", "webvtt", "text", "subviewer", "subviewer1"];
    for codec in known {
        assert!(is_text_codec(codec), "{codec}");
    }
    for codec in ["", "SRT", "subviewer2", " ass", "dvb_subtitle"] {
        assert!(!is_text_codec(codec), "{codec}");
    }
}

#[test]
fn timestamp_fields_are_as_written() {
    let t = parse_timestamp("  01:02:03,250 X1:20 Y1:30").unwrap();
    assert_eq!((t.hours.as_str(), t.minutes.as_str(), t.seconds.as_str()), ("01", "02", "03.250"));
    // A fourth field is dropped.
    let t = parse_timestamp("1:2:3:4").unwrap();
    assert_eq!((t.hours.as_str(), t.minutes.as_str(), t.seconds.as_str()), ("1", "2", "3"));
    assert!(parse_timestamp("").is_none());
    assert!(parse_timestamp("   ").is_none());
    assert!(parse_timestamp("02:03,250").is_none());
}

#[test]
fn timing_line_needs_two_timestamps() {
    let (start, end) = parse_timing("00:01:02,500 --> 00:01:05,000").unwrap();
    assert_eq!(seconds(&start), Some(62.5));
    assert_eq!(seconds(&end), Some(65.0));
    let (start, end) = parse_timing("00:00:01.5-->00:00:02.5 align:start").unwrap();
    assert_eq!((seconds(&start), seconds(&end)), (Some(1.5), Some(2.5)));
    assert!(parse_timing("00:01:02,500 -> 00:01:05,000").is_none());
    assert!(parse_timing("00:01:02,500 -->").is_none());
    assert!(parse_timing("--> 00:01:02,500").is_none());
}

#[test]
fn a_point_reads_like_a_comma() {
    for s in ["01:02:03,250", " 1:2:3,4 tail", "1,5:2,5:3,5", ",", "no time"] {
        assert_eq!(parse_timestamp(s), parse_timestamp(&s.replace(',', ".")));
    }
}

#[test]
fn tags_are_stripped() {
    assert_eq!(strip_tags("<b>bold</b> and <font color=\"red\">red</font>"), "bold and red");
    // Stray brackets go too; an open span reaches to the end.
    assert_eq!(strip_tags("a > b"), "a  b");
    assert_eq!(strip_tags("a < b"), "a ");
    assert_eq!(strip_tags("<<i>x>y"), "xy");
    assert_eq!(strip_tags("plain"), "plain");
    assert_eq!(strip_tags(""), "");
    let once = strip_tags("x<i>y</i>>z<");
    assert_eq!(strip_tags(&once), once);
}

#[test]
fn cleaned_lines_are_plain() {
    assert_eq!(clean_text("{\\an8}<i>Italic</i> text"), vec!["Italic text"]);
    assert_eq!(clean_text("one\\Ntwo\\nthree"), vec!["one", "two", "three"]);
    assert_eq!(clean_text("  spaced \\N  lines  "), vec!["spaced", "lines"]);
    assert_eq!(clean_text(""), vec![""]);
    assert_eq!(clean_text("{all styled}"), vec![""]);
    // The first backslash is no part of the break.
    assert_eq!(clean_text("a\\\\Nb"), vec!["a\\", "b"]);
}

#[test]
fn blocks_without_a_cue_are_ignored() {
    let good = "00:00:01,000 --> 00:00:02,000\nshown";
    // No timing line, a bad timing line, no text, only markup.
    for bad in [
        "just text",
        "1\n2\n00:00:01,000 --> 00:00:02,000\nlate timing",
        "00:00:01,000 --> soon\ntext",
        "00:00:01,000 --> 00:00:02,000",
        "00:00:01,000 --> 00:00:02,000\n{\\an8}<i></i>\\N ",
    ] {
        assert!(parse_srt(bad).is_empty(), "{bad}");
        let cues = parse_srt(&format!("{bad}\n\n{good}"));
        assert_eq!(cues.len(), 1, "{bad}");
        assert_eq!(cues[0].lines, vec!["shown"]);
    }
    assert!(parse_srt("").is_empty());
}

#[test]
fn blank_line_padding_is_tolerated() {
    let srt = "\n\n\n1\n00:00:01,000 --> 00:00:02,000\nA\n\n\n\n\n00:00:03,000 --> 00:00:04,000\n  \nB\n\n\n";
    let cues = parse_srt(srt);
    assert_eq!(cues.len(), 2);
    assert_eq!(cues[0].lines, vec!["A"]);
    assert_eq!(cues[1].lines, vec!["B"]);
}

#[test]
fn line_ends_do_not_matter() {
    let srt = "1\n00:00:01,000 --> 00:00:03,000\nA\nB\n\n2\n00:00:05,000 --> 00:00:06,000\nC\n";
    assert_eq!(parse_srt(&srt.replace('\n', "\r\n")), parse_srt(srt));
    assert_eq!(parse_srt(&srt.replace('\n', "\r")), parse_srt(srt));
    assert_eq!(parse_srt(srt).len(), 2);
    // A carriage return ends a line wherever it stands.
    let cues = parse_srt("00:00:01,000 --> 00:00:03,000\nA\rB\r\r\nC");
    assert_eq!(cues[0].lines, vec!["A", "B"]);
}

#[test]
fn the_index_is_optional() {
    let block = "00:00:01,000 --> 00:00:03,000\nA";
    assert_eq!(parse_srt(&format!("17\n{block}")), parse_srt(block));
    assert_eq!(parse_srt(&format!("intro\n{block}")), parse_srt(block));
}

#[test]
fn blocks_stand_alone() {
    let a = "1\n00:00:01,000 --> 00:00:03,000\nA";
    let b = "2\n00:00:05,000 --> 00:00:06,000\nB";
    for tail in ["", "\n", "\n\n", "\r", "\r\n\n"] {
        for head in ["", "\n", "\r\n", "\n\n\n"] {
            let a = format!("{a}{tail}");
            let b = format!("{head}{b}");
            let mut apart = parse_srt(&a);
            apart.extend(parse_srt(&b));
            assert_eq!(apart.len(), 2);
            assert_eq!(parse_srt(&format!("{a}\n\n{b}")), apart);
        }
    }
}

#[test]
fn unreadable_times_leave_a_cue_out() {
    let srt = "00:00:01,000 --> 00:00:02,000\nA\n\nxx:00:01,000 --> 00:00:02,000\nB\n\n\
               00:00:03,000 --> 00:00:04,000\nC\n";
    let cues = parse_srt(srt);
    assert_eq!(cues.len(), 3);
    let times = times_of(&cues);
    assert_eq!(times[1], None);
    let mut subs = Subtitles::from_timed(cues, &times).unwrap();
    assert_eq!(subs.len(), 2);
    assert_eq!(subs.active_at(number(1.5)), &["A".to_string()]);
    assert_eq!(subs.active_at(number(3.5)), &["C".to_string()]);
    assert!(Subtitles::from_timed(Vec::new(), &Vec::new()).is_none());
    assert!(Subtitles::from_timed(parse_srt("x:0:0 --> y:0:0\nA"), &vec![None]).is_none());
}

#[test]
fn cues_are_sorted_by_start_and_equal_starts_keep_their_order() {
    let mut subs = Subtitles::from_cues(vec![
        cue(5.0, 6.0, "late"),
        cue(1.0, 2.0, "early"),
        cue(3.0, 3.5, "first of two"),
        cue(3.0, 4.5, "second of two"),
    ]);
    assert_eq!(subs.len(), 4);
    assert_eq!(subs.active_at(number(1.5)), &["early".to_string()]);
    assert_eq!(subs.active_at(number(3.25)), &["first of two".to_string()]);
    assert_eq!(subs.active_at(number(4.0)), &["second of two".to_string()]);
    assert_eq!(subs.active_at(number(5.0)), &["late".to_string()]);
}

#[test]
fn a_cue_is_shown_from_its_start_to_its_end() {
    let mut subs = Subtitles::from_cues(vec![cue(1.0, 2.0, "A")]);
    assert!(subs.active_at(number(0.999)).is_empty());
    assert_eq!(subs.active_at(number(1.0)), &["A".to_string()]);
    assert_eq!(subs.active_at(number(2.0)), &["A".to_string()]);
    assert!(subs.active_at(number(2.001)).is_empty());
    assert!(subs.active_at(number(f64::NAN)).is_empty());
}

#[test]
fn a_restart_after_the_last_cue_rewinds() {
    let mut subs = Subtitles::from_cues(vec![cue(1.0, 2.0, "A"), cue(3.0, 4.0, "B")]);
    assert!(subs.active_at(number(9.0)).is_empty());
    assert_eq!(subs.active_at(number(1.5)), &["A".to_string()]);
    assert_eq!(subs.active_at(number(3.5)), &["B".to_string()]);
    // Back to a time before the cue that was found.
    assert_eq!(subs.active_at(number(1.5)), &["A".to_string()]);
}

#[test]
fn forward_playback_finds_every_cue() {
    let mut subs = Subtitles::from_cues(
        (0..50).map(|i| cue(2.0 * i as f64, 2.0 * i as f64 + 1.0, &format!("cue {i}"))).collect(),
    );
    for i in 0..50 {
        assert_eq!(subs.active_at(number(2.0 * i as f64 + 0.5)), &[format!("cue {i}")]);
        assert!(subs.active_at(number(2.0 * i as f64 + 1.5)).is_empty());
    }
}

#[test]
fn streams_are_numbered_in_order() {
    let streams = subtitle_streams("subrip\n\n  hdmv_pgs_subtitle \r\nass\n");
    assert_eq!(streams.len(), 3);
    assert_eq!((streams[0].sub_index, streams[0].codec.as_str(), streams[0].is_text), (0, "subrip", true));
    assert_eq!(
        (streams[1].sub_index, streams[1].codec.as_str(), streams[1].is_text),
        (1, "hdmv_pgs_subtitle", false)
    );
    assert_eq!((streams[2].sub_index, streams[2].codec.as_str(), streams[2].is_text), (2, "ass", true));
    assert!(subtitle_streams("\n \n").is_empty());
}

#[test]
fn the_first_text_track_is_chosen() {
    let streams = subtitle_streams("hdmv_pgs_subtitle\ndvd_subtitle\nass\nsubrip\n");
    assert_eq!(choose_track(&streams, None), Ok(2));
    assert_eq!(choose_track(&streams, Some(3)), Ok(3));
}

#[test]
fn unusable_tracks_are_refused() {
    assert_eq!(choose_track(&Vec::new(), None), Err(TrackError::NoTracks));
    assert_eq!(choose_track(&Vec::new(), Some(0)), Err(TrackError::NoTracks));
    let streams = subtitle_streams("dvd_subtitle\nass\n");
    assert_eq!(
        choose_track(&streams, Some(2)),
        Err(TrackError::OutOfRange { track: 2, available: 2 })
    );
    assert_eq!(
        choose_track(&streams, Some(0)),
        Err(TrackError::Bitmap { sub_index: 0, codec: "dvd_subtitle".to_string() })
    );
    let bitmaps = subtitle_streams("dvd_subtitle\nhdmv_pgs_subtitle\n");
    assert_eq!(
        choose_track(&bitmaps, None),
        Err(TrackError::Bitmap { sub_index: 0, codec: "dvd_subtitle".to_string() })
    );
}

#[test]
fn track_errors_are_told() {
    assert_eq!(TrackError::NoTracks.message("\"a.mkv\""), "no subtitle tracks found in \"a.mkv\"");
    assert_eq!(
        TrackError::OutOfRange { track: 7, available: 3 }.message("\"a.mkv\""),
        "subtitle track 7 out of range: 3 text track(s) available (0..2)"
    );
    assert_eq!(
        TrackError::Bitmap { sub_index: 1, codec: "dvd_subtitle".to_string() }.message("\"a.mkv\""),
        "subtitle track 1 is a bitmap format (dvd_subtitle), which can't be rendered as text; \
         pick a text track with --subtitles-track <n>"
    );
}

#[test]
fn stream_selectors() {
    assert_eq!(stream_selector(0), "0:s:0");
    assert_eq!(stream_selector(12), "0:s:12");
}
