use ai_blame::codec::{encode_document, parse_document, parse_field, parse_line, Field};
use ai_blame::format::{decode_events, decode_record, encode_events, encode_record};
use ai_blame::model::{AttributionRecord, CaptureEvent, ContributorKind, LineAttribution};

fn chars(s: &str) -> Vec<char> {
    s.chars().collect()
}

fn text(v: &[char]) -> String {
    v.iter().collect()
}

fn sample_record() -> AttributionRecord {
    AttributionRecord {
        commit: "c1".to_string(),
        entries: vec![
            LineAttribution {
                path: "a\tb".to_string(),
                start: 3,
                end: 5,
                kind: ContributorKind::Ai,
                tool: "t".to_string(),
                session: "s".to_string(),
                prompt_ref: "p".to_string(),
            },
            LineAttribution {
                path: "dir/ü.rs".to_string(),
                start: 10,
                end: 120,
                kind: ContributorKind::Human,
                tool: "".to_string(),
                session: "line\nbreak".to_string(),
                prompt_ref: "".to_string(),
            },
        ],
    }
}

#[test]
fn record_encoding_is_exact() {
    let encoded = text(&encode_record(&sample_record()));
    assert_eq!(
        encoded,
        "2:c1\n3:a\tb3,5,1,1:t1:s1:p\n8:dir/ü.rs10,120,0,0:10:line\nbreak0:\n"
    );
}

#[test]
fn record_round_trips() {
    let rec = sample_record();
    let back = decode_record(&encode_record(&rec)).unwrap();
    assert_eq!(back.commit, rec.commit);
    assert_eq!(back.entries.len(), 2);
    for (a, b) in back.entries.iter().zip(rec.entries.iter()) {
        assert_eq!(a.path, b.path);
        assert_eq!(a.start, b.start);
        assert_eq!(a.end, b.end);
        assert_eq!(a.kind, b.kind);
        assert_eq!(a.tool, b.tool);
        assert_eq!(a.session, b.session);
        assert_eq!(a.prompt_ref, b.prompt_ref);
    }
}

#[test]
fn record_without_entries_round_trips() {
    let rec = AttributionRecord { commit: "abc".to_string(), entries: vec![] };
    let encoded = encode_record(&rec);
    assert_eq!(text(&encoded), "3:abc\n");
    let back = decode_record(&encoded).unwrap();
    assert_eq!(back.commit, "abc");
    assert!(back.entries.is_empty());
}

#[test]
fn malformed_record_text_is_refused() {
    assert!(decode_record(&chars("")).is_none());
    assert!(decode_record(&chars("2:c1")).is_none());
    assert!(decode_record(&chars("2:c1\n1:a03,5,1,1:t1:s1:p\n")).is_none());
    assert!(decode_record(&chars("2:c1\n1:a3,5,2,1:t1:s1:p\n")).is_none());
    assert!(decode_record(&chars("2:c1\n1:a3,5,1,1:t1:s\n")).is_none());
    assert!(decode_record(&chars("9:c1\n")).is_none());
}

#[test]
fn events_round_trip() {
    let events = vec![
        CaptureEvent {
            path: "src/x.rs".to_string(),
            start: 1,
            end: 4,
            tool: "Edit".to_string(),
            prompt_ref: "d41d8".to_string(),
            session: "sess".to_string(),
            timestamp: 1700000000,
        },
        CaptureEvent {
            path: "y".to_string(),
            start: 0,
            end: u64::MAX,
            tool: "".to_string(),
            prompt_ref: "".to_string(),
            session: "s2".to_string(),
            timestamp: 0,
        },
    ];
    let encoded = encode_events(&events);
    assert_eq!(
        text(&encoded),
        "8:src/x.rs1,4,4:Edit5:d41d84:sess1700000000,\n1:y0,18446744073709551615,0:0:2:s20,\n"
    );
    let back = decode_events(&encoded).unwrap();
    assert_eq!(back.len(), 2);
    assert_eq!(back[0].path, "src/x.rs");
    assert_eq!(back[0].timestamp, 1700000000);
    assert_eq!(back[1].end, u64::MAX);
    assert_eq!(back[1].session, "s2");
    assert!(decode_events(&chars("")).unwrap().is_empty());
    assert!(decode_events(&chars("1:y18446744073709551616,\n")).is_none());
}

#[test]
fn fields_parse_numbers_and_text() {
    let input = chars("42,3:a:b");
    match parse_field(&input, 0) {
        Some((Field::Num(n), next)) => {
            assert_eq!(n, 42);
            assert_eq!(next, 3);
        }
        _ => panic!("expected a number"),
    }
    match parse_field(&input, 3) {
        Some((Field::Text(t), next)) => {
            assert_eq!(t, "a:b");
            assert_eq!(next, 8);
        }
        _ => panic!("expected a text"),
    }
    assert!(parse_field(&chars("0"), 0).is_none());
    assert!(parse_field(&chars("x,"), 0).is_none());
    assert!(parse_line(&chars("1,2,"), 0).is_none());
    let (line, next) = parse_line(&chars("1,2,\n"), 0).unwrap();
    assert_eq!(line.len(), 2);
    assert_eq!(next, 5);
}

#[test]
fn documents_round_trip() {
    let doc = vec![vec![Field::Num(7), Field::Text("x\n".to_string())], vec![]];
    let encoded = encode_document(&doc);
    assert_eq!(text(&encoded), "7,2:x\n\n\n");
    let back = parse_document(&encoded).unwrap();
    assert_eq!(back.len(), 2);
    assert!(back[1].is_empty());
    assert!(matches!(back[0][0], Field::Num(7)));
}
