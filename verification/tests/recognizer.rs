use whisperdesk::jsonval::JsonValue;
use whisperdesk::jsonval::parse_json;
use whisperdesk::recognizer::RecognizedSegment;
use whisperdesk::recognizer::normalize_json_contents;
use whisperdesk::recognizer::parse_json_lines;
use whisperdesk::recognizer::parse_recognizer_output;
use whisperdesk::recognizer::recognizer_segments_from_json;
use whisperdesk::recognizer::text_fallback;

fn pairs(segs: &[RecognizedSegment]) -> Vec<(i64, String)> {
    segs.iter().map(|s| (s.start_ms, s.text.clone())).collect()
}

fn extracted(json: &str) -> Vec<(i64, String)> {
    pairs(&recognizer_segments_from_json(json).unwrap())
}

#[test]
fn equivalent_data_across_shapes() {
    let expected = vec![(5000, "hi".to_string()), (12500, "there".to_string())];
    // strict object shape
    let s1 = r#"{"segments":[{"start":5.0,"text":"hi"},{"start":12.5,"text":"there"}]}"#;
    // strict bare array
    let s2 = r#"[{"start":5.0,"text":"hi"},{"start":12.5,"text":"there"}]"#;
    // newline-delimited bare segment objects
    let s3 = "{\"start\":5.0,\"text\":\"hi\"}\n{\"start\":12.5,\"text\":\"there\"}";
    // structural: transcription array, offsets in milliseconds
    let s4 = r#"{"transcription":[{"text":"hi","offsets":{"from":5000}},{"text":"there","offsets":{"from":12500}}]}"#;
    // structural: results.segments with centisecond t0 and a timestamp string
    let s5 = r#"{"results":{"segments":[{"text":"hi","t0":500},{"text":"there","timestamps":{"from":"0:00:12,500"}}]}}"#;
    assert_eq!(extracted(s1), expected);
    assert_eq!(extracted(s2), expected);
    assert_eq!(extracted(s3), expected);
    assert_eq!(extracted(s4), expected);
    assert_eq!(extracted(s5), expected);
}

#[test]
fn strict_shape_keeps_text_verbatim() {
    let segs = recognizer_segments_from_json(r#"{"segments":[{"start":0,"text":" hi "}]}"#).unwrap();
    assert_eq!(segs[0].text, " hi ");
}

#[test]
fn structural_extraction_skips_blank_text() {
    let json = r#"{"transcription":[{"text":"  ","start":1.0},{"text":"kept","start":2.0}]}"#;
    assert_eq!(extracted(json), vec![(2000, "kept".to_string())]);
}

#[test]
fn all_blank_structural_output_fails() {
    assert!(recognizer_segments_from_json(r#"{"transcription":[{"text":"  "}]}"#).is_none());
    assert!(recognizer_segments_from_json(r#"{"segments":[]}"#).is_none());
    assert!(recognizer_segments_from_json("not json at all").is_none());
}

#[test]
fn banner_text_is_clipped() {
    let json = "\u{feff}whisper build 1.2 loading model\n{\"segments\":[{\"start\":1.0,\"text\":\"ok\"}]}";
    assert_eq!(extracted(json), vec![(1000, "ok".to_string())]);
    assert_eq!(
        normalize_json_contents("\u{feff}  {\"a\":1} trailing"),
        "{\"a\":1}"
    );
    assert_eq!(normalize_json_contents("   "), "");
    assert_eq!(normalize_json_contents("no braces"), "no braces");
}

#[test]
fn json_lines_skip_unparseable_lines() {
    let text = "garbage line\n{\"start\":1.0,\"text\":\"a\"}\n\n{\"bad\":}\n{\"start\":2.0,\"text\":\"b\"}";
    let segs = parse_json_lines(text).unwrap();
    assert_eq!(pairs(&segs), vec![(1000, "a".to_string()), (2000, "b".to_string())]);
}

#[test]
fn fractional_starts_become_milliseconds() {
    assert_eq!(extracted(r#"[{"start":3.52,"text":"x"}]"#), vec![(3520, "x".to_string())]);
    assert_eq!(extracted(r#"[{"start":-0.5,"text":"x"}]"#), vec![(-500, "x".to_string())]);
    assert_eq!(extracted(r#"[{"start":0.0005,"text":"x"}]"#), vec![(0, "x".to_string())]);
}

#[test]
fn timestamp_strings_parse_to_milliseconds() {
    let json = r#"{"segments":[{"text":"x","timestamps":{"from":"01:02:03,456"}}]}"#;
    assert_eq!(extracted(json), vec![(3723456, "x".to_string())]);
    // a missing millisecond part falls back to zero
    let json2 = r#"{"segments":[{"text":"x","timestamps":{"from":"0:00:02"}}]}"#;
    assert_eq!(extracted(json2), vec![(2000, "x".to_string())]);
    // an unparseable timestamp falls back to zero, not failure
    let json3 = r#"{"segments":[{"text":"x","timestamps":{"from":"soon"}}]}"#;
    assert_eq!(extracted(json3), vec![(0, "x".to_string())]);
}

#[test]
fn text_fallback_joins_non_empty_lines() {
    let seg = text_fallback("  hello \n\n world \n").unwrap();
    assert_eq!(seg.start_ms, 0);
    assert_eq!(seg.text, "hello world");
    assert!(text_fallback(" \n \n").is_none());
}

#[test]
fn fallback_is_taken_only_when_json_fails() {
    let (segs, fb) = parse_recognizer_output("not json", Some("plain text")).unwrap();
    assert!(fb);
    assert_eq!(pairs(&segs), vec![(0, "plain text".to_string())]);

    let (segs2, fb2) =
        parse_recognizer_output(r#"[{"start":1.0,"text":"a"}]"#, Some("plain")).unwrap();
    assert!(!fb2);
    assert_eq!(pairs(&segs2), vec![(1000, "a".to_string())]);

    assert!(parse_recognizer_output("not json", None).is_none());
    assert!(parse_recognizer_output("not json", Some("  ")).is_none());
}

#[test]
fn json_parser_handles_escapes_and_nesting() {
    let v = parse_json(r#"{"a":[1,true,null,"x\nあ😀"],"b":{"c":-2.5}}"#).unwrap();
    match v {
        JsonValue::Obj(fields) => {
            assert_eq!(fields.len(), 2);
            match &fields[0].1 {
                JsonValue::Arr(items) => {
                    assert_eq!(items.len(), 4);
                    assert!(matches!(items[0], JsonValue::Num(1_000_000)));
                    assert!(matches!(items[1], JsonValue::Bool(true)));
                    assert!(matches!(items[2], JsonValue::Null));
                    match &items[3] {
                        JsonValue::Str(s) => assert_eq!(s, "x\nあ😀"),
                        _ => panic!("expected a string"),
                    }
                },
                _ => panic!("expected an array"),
            }
        },
        _ => panic!("expected an object"),
    }
}

#[test]
fn json_parser_rejects_malformed_documents() {
    assert!(parse_json("{\"a\":1} trailing").is_none());
    assert!(parse_json("{\"a\":01}").is_none());
    assert!(parse_json("[1,]").is_none());
    assert!(parse_json("\"unterminated").is_none());
    assert!(parse_json(r#""lone \ud800 surrogate""#).is_none());
    assert!(parse_json("").is_none());
    assert!(parse_json("[1.5e3]").is_none());
}

#[test]
fn unicode_escapes_decode_including_surrogate_pairs() {
    let v = parse_json(r#""a\u3042\ud83d\ude00b\u0041""#).unwrap();
    match v {
        JsonValue::Str(s) => assert_eq!(s, "aあ😀bA"),
        _ => panic!("expected a string"),
    }
}
