use whisperdesk::recognizer::RecognizedSegment;
use whisperdesk::transcript::TranscriptSegment;
use whisperdesk::transcript::anchor_track_segments;
use whisperdesk::transcript::format_seconds;
use whisperdesk::transcript::format_segments;
use whisperdesk::transcript::merge_track_segments;
use whisperdesk::transcript::sort_segments;

fn seg(start_ms: i64, text: &str) -> RecognizedSegment {
    RecognizedSegment { start_ms, text: text.to_string() }
}

fn triples(v: &[TranscriptSegment]) -> Vec<(i64, String, String)> {
    v.iter().map(|s| (s.start_ms, s.speaker.clone(), s.text.clone())).collect()
}

#[test]
fn anchoring_adds_base_trims_and_sorts() {
    let segs = vec![seg(5000, " hi "), seg(2000, "there"), seg(9000, "   ")];
    let out = anchor_track_segments(&segs, "alice", 36000000);
    assert_eq!(
        triples(&out),
        vec![
            (36002000, "alice".to_string(), "there".to_string()),
            (36005000, "alice".to_string(), "hi".to_string()),
        ]
    );
}

#[test]
fn merged_tracks_sort_by_absolute_start() {
    let mut all: Vec<TranscriptSegment> = Vec::new();
    merge_track_segments(&mut all, &vec![seg(5000, "a1"), seg(1000, "a2")], "alice", 0);
    merge_track_segments(&mut all, &vec![seg(3000, "b1")], "bob", 0);
    sort_segments(&mut all);
    assert_eq!(
        triples(&all),
        vec![
            (1000, "alice".to_string(), "a2".to_string()),
            (3000, "bob".to_string(), "b1".to_string()),
            (5000, "alice".to_string(), "a1".to_string()),
        ]
    );
}

#[test]
fn equal_starts_keep_append_order() {
    let mut all: Vec<TranscriptSegment> = Vec::new();
    merge_track_segments(&mut all, &vec![seg(1000, "first")], "alice", 0);
    merge_track_segments(&mut all, &vec![seg(1000, "second")], "bob", 0);
    merge_track_segments(&mut all, &vec![seg(1000, "third")], "carol", 0);
    sort_segments(&mut all);
    assert_eq!(
        triples(&all),
        vec![
            (1000, "alice".to_string(), "first".to_string()),
            (1000, "bob".to_string(), "second".to_string()),
            (1000, "carol".to_string(), "third".to_string()),
        ]
    );
}

#[test]
fn format_seconds_rounds_and_clamps() {
    assert_eq!(format_seconds(0), "00:00:00");
    assert_eq!(format_seconds(5400), "00:00:05");
    assert_eq!(format_seconds(5500), "00:00:06");
    assert_eq!(format_seconds(-2000), "00:00:00");
    assert_eq!(format_seconds(3723000), "01:02:03");
    assert_eq!(format_seconds(36002000), "10:00:02");
}

fn sample() -> Vec<TranscriptSegment> {
    vec![
        TranscriptSegment {
            start_ms: 36002000,
            speaker: "bob".to_string(),
            text: "hello".to_string(),
        },
        TranscriptSegment {
            start_ms: 36005000,
            speaker: "alice".to_string(),
            text: "hi".to_string(),
        },
    ]
}

#[test]
fn the_four_flag_combinations_render_documented_shapes() {
    let segs = sample();
    assert_eq!(
        format_segments(&segs, true, true),
        "10:00:02 bob：hello\n10:00:05 alice：hi\n"
    );
    assert_eq!(format_segments(&segs, true, false), "10:00:02 hello\n10:00:05 hi\n");
    assert_eq!(format_segments(&segs, false, true), "bob：hello\nalice：hi\n");
    assert_eq!(format_segments(&segs, false, false), "hello\nhi\n");
}

#[test]
fn rendering_twice_is_byte_identical() {
    let segs = sample();
    let once = format_segments(&segs, true, true);
    let twice = format_segments(&segs, true, true);
    assert_eq!(once, twice);
}
