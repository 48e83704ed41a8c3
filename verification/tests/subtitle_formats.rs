use sirtea::subtitle_formats::{format_named, format_srt_timestamp, srt_file, SubtitleFormat};
use sirtea::utterance::Utterance;

fn nanos(secs: f64) -> i64 {
    (secs * 1e9).round() as i64
}

#[test]
fn main_all_ones() {
    assert!(format_srt_timestamp(nanos(3661.3)).starts_with("01:01:01,3"));
}

#[test]
fn main_zero_fract() {
    assert_eq!(format_srt_timestamp(nanos(3661.0)), "01:01:01,000");
}

#[test]
fn subtitle_formats_all_ones() {
    assert!(SubtitleFormat::Srt
        .format_timestamp(nanos(3661.3))
        .starts_with("01:01:01,3"));
    assert!(SubtitleFormat::Vtt
        .format_timestamp(nanos(3661.3))
        .starts_with("01:01:01.3"));
}

#[test]
fn subtitle_formats_zero_fract() {
    assert_eq!(
        SubtitleFormat::Srt.format_timestamp(nanos(3661.0)),
        "01:01:01,000"
    );
    assert_eq!(
        SubtitleFormat::Vtt.format_timestamp(nanos(3661.0)),
        "01:01:01.000"
    );
}

fn make_utterances() -> Vec<Utterance> {
    vec![
        Utterance {
            start: nanos(1.0),
            end: nanos(2.0),
            text: "Hello, world!".to_string(),
        },
        Utterance {
            start: nanos(3.0),
            end: nanos(4.0),
            text: "hello, again...".to_string(),
        },
    ]
}

#[test]
fn srt() {
    let mut out = String::new();
    SubtitleFormat::Srt.write_out(&make_utterances(), &mut out);
    let expected = "1
00:00:01,000 --> 00:00:02,000
Hello, world!

2
00:00:03,000 --> 00:00:04,000
hello, again...

";
    assert_eq!(out, expected);
}

#[test]
fn vtt() {
    let mut out = String::new();
    SubtitleFormat::Vtt.write_out(&make_utterances(), &mut out);
    let expected = "WEBVTT

00:00:01.000 --> 00:00:02.000
Hello, world!

00:00:03.000 --> 00:00:04.000
hello, again...

";
    assert_eq!(out, expected);
}

#[test]
fn srt_file_ends_with_its_last_entry() {
    let expected = "1
00:00:01,000 --> 00:00:02,000
Hello, world!

2
00:00:03,000 --> 00:00:04,000
hello, again...
";
    assert_eq!(srt_file(&make_utterances()), expected);
    let mut out = String::new();
    SubtitleFormat::Srt.write_out(&make_utterances(), &mut out);
    assert_eq!(out, format!("{expected}\n"));
    assert_eq!(srt_file(&[]), "");
}

#[test]
fn write_out_appends() {
    let mut out = "kept".to_string();
    SubtitleFormat::Vtt.write_out(&[], &mut out);
    assert_eq!(out, "keptWEBVTT\n\n");
}

#[test]
fn long_captions_are_wrapped() {
    let caption = Utterance {
        start: 0,
        end: nanos(1.5),
        text: "they also have a tendency to do, only exactly what we told them to".to_string(),
    };
    assert_eq!(
        SubtitleFormat::Srt.format_caption_block(&caption, 12),
        "12\n00:00:00,000 --> 00:00:01,500\nthey also have a tendency to do,\n\
         only exactly what we told them to\n\n"
    );
    assert_eq!(
        SubtitleFormat::Vtt.format_caption_block(&caption, 12),
        "00:00:00.000 --> 00:00:01.500\nthey also have a tendency to do,\n\
         only exactly what we told them to\n\n"
    );
}

#[test]
fn milliseconds_are_rounded_to_nearest() {
    assert_eq!(format_srt_timestamp(1_400_000), "00:00:00,001");
    assert_eq!(format_srt_timestamp(1_600_000), "00:00:00,002");
    // A sixteenth of a second is held exactly, and its half millisecond goes to the even
    // one; of other halves, the floating-point time lies above or below.
    assert_eq!(format_srt_timestamp(62_500_000), "00:00:00,062");
    assert_eq!(format_srt_timestamp(187_500_000), "00:00:00,188");
    assert_eq!(format_srt_timestamp(3_500_000), "00:00:00,004");
    assert_eq!(format_srt_timestamp(4_500_000), "00:00:00,004");
    // A fraction never rounds up to a full second.
    assert_eq!(format_srt_timestamp(59_999_500_000), "00:00:59,999");
    assert_eq!(format_srt_timestamp(59_999_999_999), "00:00:59,999");
    assert_eq!(format_srt_timestamp(60_000_000_000), "00:01:00,000");
}

#[test]
fn hours_take_as_many_digits_as_needed() {
    assert_eq!(format_srt_timestamp(nanos(360_000.0)), "100:00:00,000");
    assert_eq!(format_srt_timestamp(nanos(3599.025)), "00:59:59,025");
}

#[test]
fn names_are_case_insensitive() {
    assert_eq!("srt".parse::<SubtitleFormat>().unwrap(), SubtitleFormat::Srt);
    assert_eq!("VTT".parse::<SubtitleFormat>().unwrap(), SubtitleFormat::Vtt);
    assert_eq!(
        SubtitleFormat::from_name("SrT").unwrap(),
        SubtitleFormat::Srt
    );
    let err = "Ass".parse::<SubtitleFormat>().unwrap_err();
    assert_eq!(err.message(), "unsupported subtitle format: Ass");
    assert_eq!(format_named("srt"), Some(SubtitleFormat::Srt));
    assert_eq!(format_named("SRT"), None);
}

#[test]
fn extensions_name_their_formats() {
    assert_eq!(SubtitleFormat::Srt.extension(), "srt");
    assert_eq!(SubtitleFormat::Vtt.extension(), "vtt");
    for format in [SubtitleFormat::Srt, SubtitleFormat::Vtt] {
        assert_eq!(SubtitleFormat::from_name(format.extension()).unwrap(), format);
    }
    for mix in ["srt", "Srt", "sRt", "srT", "SRt", "SrT", "sRT", "SRT"] {
        assert_eq!(mix.parse::<SubtitleFormat>().unwrap(), SubtitleFormat::Srt);
    }
}

#[test]
fn negative_times_are_written_as_zero() {
    assert_eq!(
        SubtitleFormat::Srt.format_timestamp(nanos(-1.5)),
        "00:00:00,000"
    );
    assert_eq!(SubtitleFormat::Vtt.format_timestamp(-1), "00:00:00.000");
    assert_eq!(format_srt_timestamp(i64::MIN), "00:00:00,000");
    let mut captions = make_utterances();
    captions.truncate(1);
    captions[0].start = -1;
    assert_eq!(
        srt_file(&captions),
        "1\n00:00:00,000 --> 00:00:02,000\nHello, world!\n"
    );
}

#[test]
fn halves_go_where_the_floating_point_time_lies() {
    // What `{:.3}` makes of a fraction, with the exceptions at its ends.
    let expected = |secs: f64| {
        let whole = secs as i64;
        let millis = format!("{:.3}", secs.fract());
        let millis = match millis.strip_prefix("0.") {
            Some(millis) => millis.to_string(),
            None => "999".to_string(),
        };
        format!(
            "{:02}:{:02}:{:02},{millis}",
            whole / 3600,
            whole / 60 % 60,
            whole % 60
        )
    };
    assert_eq!(format_srt_timestamp(2_500_000), "00:00:00,003");
    for half in 0..5000i64 {
        for whole in [0, 1, 59, 3600, 86_399, 1 << 20, 1_000_000_007] {
            let nanos = whole * 1_000_000_000 + half * 500_000;
            // The nearest floating-point number, by way of its decimal digits.
            let secs: f64 = format!("{}.{:09}", nanos / 1_000_000_000, nanos % 1_000_000_000)
                .parse()
                .unwrap();
            assert_eq!(format_srt_timestamp(nanos), expected(secs), "{nanos}");
        }
    }
    let mut nanos: i64 = 1;
    while nanos < i64::MAX / 3 {
        let secs: f64 = format!("{}.{:09}", nanos / 1_000_000_000, nanos % 1_000_000_000)
            .parse()
            .unwrap();
        assert_eq!(format_srt_timestamp(nanos), expected(secs), "{nanos}");
        nanos += nanos / 50 + 1;
    }
}

#[test]
fn later_times_are_never_written_as_earlier_ones() {
    let mut earlier = String::new();
    for half in 0..400_000i64 {
        let text = format_srt_timestamp(half * 250_000);
        assert!(earlier <= text, "{earlier} before {text}");
        earlier = text;
    }
}
