use subfind::entry::SubRip;
use subfind::error::ParseError;
use subfind::timecode::Timecode;

#[test]
fn display_timecode() {
    let time = Timecode { hours: 1, minutes: 2, seconds: 3, milliseconds: 456 };
    let expected = "01:02:03,456";

    assert_eq!(expected, time.render());
}

#[test]
fn display_subtitle() {
    let sub = SubRip {
        position: 1,
        start: Timecode { hours: 1, minutes: 2, seconds: 3, milliseconds: 456 },
        end: Timecode { hours: 7, minutes: 8, seconds: 9, milliseconds: 101 },
        text: vec![String::from("This is a"), String::from("Test")],
    };

    let expected = "\
1
01:02:03,456 --> 07:08:09,101
This is a
Test";

    assert_eq!(expected, sub.render());
}

#[test]
fn timecode_round_trip() {
    let samples = [
        Timecode { hours: 0, minutes: 0, seconds: 0, milliseconds: 0 },
        Timecode { hours: 1, minutes: 2, seconds: 3, milliseconds: 456 },
        Timecode { hours: 99, minutes: 59, seconds: 59, milliseconds: 999 },
    ];
    for t in samples {
        let rendered = t.render();
        assert_eq!(Ok(t), Timecode::parse(rendered.as_str()));
    }
}

#[test]
fn timecode_parse_exact_value() {
    let parsed = Timecode::parse("12:34:56,789").unwrap();
    assert_eq!(parsed, Timecode { hours: 12, minutes: 34, seconds: 56, milliseconds: 789 });
}

#[test]
fn timecode_parse_accepts_out_of_range_fields() {
    // Shape only: values past the conventional ranges are kept as written.
    let parsed = Timecode::parse("99:73:61,999").unwrap();
    assert_eq!(parsed, Timecode { hours: 99, minutes: 73, seconds: 61, milliseconds: 999 });
}

#[test]
fn timecode_parse_rejects_bad_shapes() {
    for bad in ["", "1:02:03,456", "01:02:03.456", "01:02:03,45x", "01-02-03,456", "01:02:03,4567"] {
        let r = Timecode::parse(bad);
        assert!(matches!(r, Err(ParseError::MalformedTimecode { .. })), "accepted {:?}", bad);
    }
}

#[test]
fn error_describe_names_the_offender() {
    let err = Timecode::parse("nonsense").unwrap_err();
    let text = err.describe();
    assert!(text.contains("nonsense"));
}

#[test]
fn render_empty_text_block() {
    let sub = SubRip {
        position: 7,
        start: Timecode { hours: 0, minutes: 0, seconds: 1, milliseconds: 0 },
        end: Timecode { hours: 0, minutes: 0, seconds: 2, milliseconds: 0 },
        text: vec![],
    };
    assert_eq!("7\n00:00:01,000 --> 00:00:02,000\n", sub.render());
}
