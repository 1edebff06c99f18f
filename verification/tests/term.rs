use vlscii::cli::{palette_glyphs, subtitle_source, SubtitleSource};
use vlscii::term::{TermSession, ENTER, LEAVE};

#[test]
fn session_sequences() {
    assert_eq!(ENTER.as_bytes(), b"\x1b[?1049h\x1b[?25l\x1b[?7l\x1b[40m");
    assert_eq!(LEAVE.as_bytes(), b"\x1b[?7h\x1b[?25h\x1b[0m\x1b[?1049l\n");
}

#[test]
fn a_session_is_left_once() {
    let mut session = TermSession::with(false);
    assert_eq!(session.leave(), None);
    assert_eq!(session.enter(), ENTER);
    assert_eq!(session.leave(), Some(LEAVE));
    assert_eq!(session.leave(), None);
    assert_eq!(TermSession::with(true).leave(), Some(LEAVE));
}

#[test]
fn palettes_are_flattened() {
    assert_eq!(palette_glyphs(" . : # @ "), vec!['.', ':', '#', '@']);
    assert_eq!(palette_glyphs(".:#@"), vec!['.', ':', '#', '@']);
    assert_eq!(palette_glyphs("ab\tc\u{3000}░▒"), vec!['a', 'b', 'c', '░', '▒']);
    assert!(palette_glyphs(" \n").is_empty());
}

#[test]
fn subtitle_sources_have_an_order() {
    let file = || Some("a.srt".to_string());
    assert_eq!(subtitle_source(file(), Some(1)), SubtitleSource::File("a.srt".to_string()));
    assert_eq!(subtitle_source(file(), None), SubtitleSource::File("a.srt".to_string()));
    assert_eq!(subtitle_source(None, Some(1)), SubtitleSource::Track(1));
    assert_eq!(subtitle_source(None, None), SubtitleSource::FirstText);
    assert!(subtitle_source(file(), None).is_required());
    assert!(subtitle_source(None, Some(0)).is_required());
    assert!(!subtitle_source(None, None).is_required());
}
