use vlscii::binary64::Binary64;
use vlscii::decoder::{
    parse_rational, ratio, scale_filter, FrameReader, FrameStep, ProbeReport, RateText, ReadOutcome,
    VideoProbe, DEFAULT_FPS,
};
use vlscii::text::chars_of;

fn number(v: f64) -> Binary64 {
    Binary64 { bits: v.to_bits() }
}

fn rational(s: &str) -> RateText {
    parse_rational(chars_of(s).as_slice())
}

#[test]
fn rationals_are_taken_apart() {
    assert_eq!(
        rational("30000/1001"),
        RateText::Ratio { num: "30000".to_string(), den: "1001".to_string() }
    );
    assert_eq!(rational("25 / 1"), RateText::Ratio { num: "25".to_string(), den: "1".to_string() });
    assert_eq!(rational("1/2/3"), RateText::Ratio { num: "1".to_string(), den: "2/3".to_string() });
    assert_eq!(rational("25"), RateText::Plain("25".to_string()));
    assert_eq!(rational(""), RateText::Plain(String::new()));
}

#[test]
fn a_ratio_needs_two_numbers_and_a_denominator() {
    assert_eq!(ratio(Some(number(30.0)), Some(number(2.0))), Some((number(30.0), number(2.0))));
    assert_eq!(ratio(None, Some(number(2.0))), None);
    assert_eq!(ratio(Some(number(30.0)), None), None);
    assert_eq!(ratio(Some(number(30.0)), Some(number(0.0))), None);
    assert_eq!(ratio(Some(number(30.0)), Some(number(-0.0))), None);
    assert!(ratio(Some(number(30.0)), Some(number(f64::NAN))).is_some());
    assert!(ratio(Some(number(0.0)), Some(number(1.0))).is_some());
}

#[test]
fn a_report_is_read() {
    let report =
        ProbeReport::read("width=1920\nheight= 1080 \nr_frame_rate=25/1\navg_frame_rate=0/0\n");
    assert_eq!((report.width, report.height), (1920, 1080));
    assert_eq!(report.r_rate, Some(rational("25/1")));
    assert_eq!(report.avg_rate, Some(rational("0/0")));
    // Later lines win, unreadable dimensions are zero, other lines are skipped.
    let report = ProbeReport::read("width=10\r\nwidth=20\r\nnoise\nheight=x\nWidth=5\nheight=-1");
    assert_eq!((report.width, report.height), (20, 0));
    assert_eq!(report.r_rate, None);
    assert_eq!(ProbeReport::read("width=10=20").width, 0);
    assert_eq!(ProbeReport::read(""), ProbeReport { width: 0, height: 0, r_rate: None, avg_rate: None });
}

#[test]
fn the_playback_rate_prefers_the_average() {
    let report = ProbeReport::read("width=4\nheight=2\n");
    let fps = |avg: Option<f64>, r: Option<f64>| {
        VideoProbe::from_report(&report, avg.map(number), r.map(number)).unwrap().fps
    };
    assert_eq!(fps(Some(23.976), Some(24.0)), number(23.976));
    assert_eq!(fps(Some(0.0), Some(25.0)), number(25.0));
    assert_eq!(fps(None, Some(25.0)), number(25.0));
    assert_eq!(fps(Some(f64::NAN), Some(-1.0)), number(24.0));
    assert_eq!(fps(None, None), number(24.0));
    assert_eq!(DEFAULT_FPS, 24.0f64.to_bits());
}

#[test]
fn a_video_without_dimensions_is_refused() {
    for text in ["", "width=4", "height=4", "width=0\nheight=4", "width=4\nheight=zero"] {
        let report = ProbeReport::read(text);
        assert!(VideoProbe::from_report(&report, None, None).is_none(), "{text}");
    }
    let probe = VideoProbe::from_report(&ProbeReport::read("height=3\nwidth=4"), None, None).unwrap();
    assert_eq!((probe.width, probe.height), (4, 3));
}

#[test]
fn scale_filters() {
    assert_eq!(scale_filter(160, 90), "scale=160:90:flags=bilinear");
    assert_eq!(scale_filter(0, 4294967295), "scale=0:4294967295:flags=bilinear");
}

#[test]
fn frames_are_put_together() {
    let mut reader = FrameReader::open(2, 1);
    assert_eq!(reader.lacking(), 6);
    assert_eq!(reader.begin(), FrameStep::Read);
    assert_eq!(reader.after_read(&ReadOutcome::Bytes(&[1, 2])), FrameStep::Read);
    assert_eq!(reader.after_read(&ReadOutcome::Interrupted), FrameStep::Read);
    assert_eq!(reader.lacking(), 4);
    assert_eq!(reader.after_read(&ReadOutcome::Bytes(&[3, 4, 5, 6])), FrameStep::Frame);
    assert_eq!(reader.frame(), &[1, 2, 3, 4, 5, 6]);
    assert_eq!(reader.begin(), FrameStep::Read);
    assert_eq!(reader.lacking(), 6);
    assert_eq!(reader.after_read(&ReadOutcome::Bytes(&[])), FrameStep::End);
}

#[test]
fn an_end_inside_a_frame_is_an_error() {
    let mut reader = FrameReader::open(1, 1);
    assert_eq!(reader.begin(), FrameStep::Read);
    assert_eq!(reader.after_read(&ReadOutcome::Bytes(&[9])), FrameStep::Read);
    assert_eq!(reader.after_read(&ReadOutcome::Bytes(&[])), FrameStep::MidFrame);
    let mut reader = FrameReader::open(1, 1);
    assert_eq!(reader.after_read(&ReadOutcome::Failed), FrameStep::Failed);
    assert_eq!(FrameReader::open(0, 5).begin(), FrameStep::Frame);
}

#[test]
fn frames_are_the_stream_however_it_is_cut() {
    let stream: Vec<u8> = (0..60u8).collect();
    for cut in 1..=12usize {
        let mut reader = FrameReader::open(2, 2);
        let mut rest: &[u8] = &stream;
        let mut joined: Vec<u8> = Vec::new();
        let mut frames = 0;
        reader.begin();
        loop {
            let n = cut.min(reader.lacking()).min(rest.len());
            let (now, later) = rest.split_at(n);
            rest = later;
            match reader.after_read(&ReadOutcome::Bytes(now)) {
                FrameStep::Read => {}
                FrameStep::Frame => {
                    assert_eq!(reader.frame().len(), 12);
                    joined.extend_from_slice(reader.frame());
                    frames += 1;
                    reader.begin();
                }
                FrameStep::End => break,
                other => panic!("{other:?}"),
            }
        }
        assert_eq!(frames, 5);
        assert_eq!(joined, stream);
    }
}
