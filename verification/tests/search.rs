use subfind::entry::SubRip;
use subfind::matcher::{compute_spans, render_highlighted, MatchSpan, Pattern, Segment};
use subfind::search::{search, search_entry, SearchOutcome};
use subfind::timecode::Timecode;

fn shape(segs: &[Segment]) -> Vec<(String, bool)> {
    segs.iter().map(|s| (s.text.clone(), s.matched)).collect()
}

#[test]
fn spans_of_abcabc() {
    let pattern = Pattern::new("bc").unwrap();
    let spans = compute_spans(&pattern, "abcabc");
    assert_eq!(spans.len(), 2);
    assert_eq!(spans[0], MatchSpan { start: 1, end: 3 });
    assert_eq!(spans[1], MatchSpan { start: 4, end: 6 });

    let segs = render_highlighted("abcabc", &spans);
    assert_eq!(
        shape(&segs),
        vec![
            (String::from("a"), false),
            (String::from("bc"), true),
            (String::from("a"), false),
            (String::from("bc"), true),
            (String::from(""), false),
        ]
    );
    let rebuilt: String = segs.iter().map(|s| s.text.as_str()).collect::<Vec<_>>().join("");
    assert_eq!(rebuilt, "abcabc");
}

#[test]
fn end_to_end_single_match() {
    let pattern = Pattern::new("wor").unwrap();
    let outcomes = search("1\n00:00:01,000 --> 00:00:02,000\nHello world\n\n", &pattern);
    assert_eq!(outcomes.len(), 1);
    match &outcomes[0] {
        SearchOutcome::Matched(segs) => {
            assert_eq!(
                shape(segs),
                vec![
                    (String::from("Hello "), false),
                    (String::from("wor"), true),
                    (String::from("ld"), false),
                ]
            );
        },
        other => panic!("expected a match, got {:?}", other),
    }
}

#[test]
fn span_offsets_of_single_match() {
    let pattern = Pattern::new("wor").unwrap();
    let spans = compute_spans(&pattern, "Hello world");
    assert_eq!(spans.len(), 1);
    assert_eq!(spans[0], MatchSpan { start: 6, end: 9 });
}

#[test]
fn search_reports_errors_and_goes_on() {
    let pattern = Pattern::new("World").unwrap();
    let input = "x\n00:00:01,000 --> 00:00:02,000\nHello\n\n2\n00:00:03,000 --> 00:00:04,000\nWorld\n\n";
    let outcomes = search(input, &pattern);
    assert_eq!(outcomes.len(), 2);
    assert!(matches!(&outcomes[0], SearchOutcome::ParseFailure(_)));
    assert!(matches!(&outcomes[1], SearchOutcome::Matched(_)));
}

#[test]
fn unmatched_entry_reports_no_match() {
    let pattern = Pattern::new("zebra").unwrap();
    let outcomes = search("1\n00:00:01,000 --> 00:00:02,000\nHello world\n\n", &pattern);
    assert_eq!(outcomes.len(), 1);
    assert!(matches!(&outcomes[0], SearchOutcome::NoMatch));
}

#[test]
fn match_touching_the_edges_keeps_empty_segments() {
    let pattern = Pattern::new("He").unwrap();
    let spans = compute_spans(&pattern, "Hello");
    let segs = render_highlighted("Hello", &spans);
    assert_eq!(
        shape(&segs),
        vec![
            (String::from(""), false),
            (String::from("He"), true),
            (String::from("llo"), false),
        ]
    );
}

#[test]
fn pattern_matches_across_joined_lines() {
    let entry = SubRip {
        position: 1,
        start: Timecode { hours: 0, minutes: 0, seconds: 1, milliseconds: 0 },
        end: Timecode { hours: 0, minutes: 0, seconds: 2, milliseconds: 0 },
        text: vec![String::from("This is a"), String::from("Test")],
    };
    let pattern = Pattern::new("a\nTest").unwrap();
    let segs = search_entry(&entry, &pattern).expect("the joined text should match");
    assert_eq!(
        shape(&segs),
        vec![
            (String::from("This is "), false),
            (String::from("a\nTest"), true),
            (String::from(""), false),
        ]
    );
}

#[test]
fn non_ascii_text_is_reconstructed_exactly() {
    let pattern = Pattern::new("è").unwrap();
    let text = "caffè è qui";
    let spans = compute_spans(&pattern, text);
    assert_eq!(spans.len(), 2);
    let segs = render_highlighted(text, &spans);
    let rebuilt: String = segs.iter().map(|s| s.text.as_str()).collect::<Vec<_>>().join("");
    assert_eq!(rebuilt, text);
    assert!(segs[1].matched && segs[1].text == "è");
}

#[test]
fn invalid_pattern_is_refused() {
    assert!(Pattern::new("(").is_none());
}
