use subfind::entry::SubRip;
use subfind::error::ParseError;
use subfind::parser::{parse, Parser};
use subfind::timecode::Timecode;

fn tc(h: i8, m: i8, s: i8, ms: i16) -> Timecode {
    Timecode { hours: h, minutes: m, seconds: s, milliseconds: ms }
}

#[test]
fn single_entry() {
    let results = parse("1\n00:00:01,000 --> 00:00:02,000\nHello world\n\n");
    assert_eq!(results.len(), 1);
    let entry = results[0].as_ref().unwrap();
    assert_eq!(entry.position, 1);
    assert_eq!(entry.start, tc(0, 0, 1, 0));
    assert_eq!(entry.end, tc(0, 0, 2, 0));
    assert_eq!(entry.text, vec![String::from("Hello world")]);
}

#[test]
fn entries_in_source_order() {
    let input = "\
10
00:00:01,000 --> 00:00:02,000
first

20
00:00:03,000 --> 00:00:04,000
second
line two

30
00:00:05,000 --> 00:00:06,000
third

";
    let results = parse(input);
    assert_eq!(results.len(), 3);
    let positions: Vec<usize> = results.iter().map(|r| r.as_ref().unwrap().position).collect();
    assert_eq!(positions, vec![10, 20, 30]);
    assert_eq!(
        results[1].as_ref().unwrap().text,
        vec![String::from("second"), String::from("line two")]
    );
}

#[test]
fn malformed_position_recovers() {
    let input = "x\n00:00:01,000 --> 00:00:02,000\nHello\n\n2\n00:00:03,000 --> 00:00:04,000\nWorld\n\n";
    let results = parse(input);
    assert_eq!(results.len(), 2);
    match &results[0] {
        Err(ParseError::MalformedPosition { line }) => assert_eq!(line, "x"),
        other => panic!("expected a malformed position, got {:?}", other),
    }
    let entry = results[1].as_ref().unwrap();
    assert_eq!(entry.position, 2);
    assert_eq!(entry.text, vec![String::from("World")]);
}

#[test]
fn malformed_timing_recovers() {
    let input = "\
1
00:00:01,000 --> 00:00:02,000
good one

2
00:00:03,000 -> 00:00:04,000
garbled

3
00:00:05,000 --> 00:00:06,000
good again

";
    let results = parse(input);
    assert_eq!(results.len(), 3);
    assert!(results[0].is_ok());
    match &results[1] {
        Err(ParseError::MalformedTiming { line }) => {
            assert_eq!(line, "00:00:03,000 -> 00:00:04,000")
        },
        other => panic!("expected a malformed timing, got {:?}", other),
    }
    let entry = results[2].as_ref().unwrap();
    assert_eq!(entry.position, 3);
}

#[test]
fn crlf_line_endings_tolerated() {
    let results = parse("1\r\n00:00:01,000 --> 00:00:02,000\r\nHello\r\n\r\n");
    assert_eq!(results.len(), 1);
    let entry = results[0].as_ref().unwrap();
    assert_eq!(entry.text, vec![String::from("Hello")]);
}

#[test]
fn empty_text_block_accepted() {
    // Chosen policy: a position and timing line followed directly by a
    // blank line is a valid entry with no text lines.
    let results = parse("1\n00:00:01,000 --> 00:00:02,000\n\n2\n00:00:03,000 --> 00:00:04,000\nhi\n\n");
    assert_eq!(results.len(), 2);
    let first = results[0].as_ref().unwrap();
    assert_eq!(first.position, 1);
    assert!(first.text.is_empty());
    let second = results[1].as_ref().unwrap();
    assert_eq!(second.text, vec![String::from("hi")]);
}

#[test]
fn padded_position_canonicalizes() {
    let results = parse("001\n00:00:01,000 --> 00:00:02,000\nHi\n\n");
    let entry = results[0].as_ref().unwrap();
    assert_eq!(entry.position, 1);
    let canonical = entry.render();
    assert_eq!(canonical, "1\n00:00:01,000 --> 00:00:02,000\nHi");
    // Re-parsing the canonical form reproduces the entry, and so its
    // rendering: canonicalization is idempotent.
    let again = parse(canonical.as_str());
    assert_eq!(again.len(), 1);
    assert_eq!(again[0].as_ref().unwrap(), entry);
    assert_eq!(again[0].as_ref().unwrap().render(), canonical);
}

#[test]
fn missing_timing_at_end_of_stream() {
    let results = parse("5");
    assert_eq!(results.len(), 1);
    assert!(matches!(&results[0], Err(ParseError::MalformedTiming { .. })));
}

#[test]
fn position_too_large_is_malformed() {
    let results = parse("99999999999999999999999\n00:00:01,000 --> 00:00:02,000\nHi\n\n");
    assert_eq!(results.len(), 1);
    assert!(matches!(&results[0], Err(ParseError::MalformedPosition { .. })));
}

#[test]
fn empty_stream_yields_nothing() {
    assert!(parse("").is_empty());
    assert!(parse("\n\n\n").is_empty());
}

#[test]
fn lazy_parser_is_forward_only() {
    let mut p = Parser::new("1\n00:00:01,000 --> 00:00:02,000\nHello\n\n");
    let first = p.next();
    assert!(matches!(first, Some(Ok(SubRip { position: 1, .. }))));
    assert!(p.next().is_none());
    // Exhausted for good: the sequence is not restartable.
    assert!(p.next().is_none());
}
