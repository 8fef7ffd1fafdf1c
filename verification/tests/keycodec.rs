use whisperdesk::keycodec::extract_room_label;
use whisperdesk::keycodec::parse_key;

#[test]
fn five_segment_key_round_trips() {
    let key = "2024-05-01/localWorld.x-Blue/10-00-00/alice/10-00-05_chunk0.ogg";
    let (date, room_id, meeting_time, speaker, track_time) = parse_key(key).unwrap();
    assert_eq!(date, "2024-05-01");
    assert_eq!(room_id, "localWorld.x-Blue");
    assert_eq!(meeting_time, "10-00-00");
    assert_eq!(speaker, "alice");
    assert_eq!(track_time, "10-00-05");
}

#[test]
fn file_without_underscore_keeps_whole_stem() {
    let key = "d/r/m/s/10-00-05.ogg";
    let (_, _, _, _, track_time) = parse_key(key).unwrap();
    assert_eq!(track_time, "10-00-05");
}

#[test]
fn extension_is_stripped_once() {
    let key = "d/r/m/s/10-00-05_x.ogg.ogg";
    let (_, _, _, _, track_time) = parse_key(key).unwrap();
    assert_eq!(track_time, "10-00-05");
    let key2 = "d/r/m/s/track.mp3";
    let (_, _, _, _, track_time2) = parse_key(key2).unwrap();
    assert_eq!(track_time2, "track.mp3");
}

#[test]
fn wrong_arity_keys_are_ignored() {
    assert!(parse_key("a/b/c/d").is_none());
    assert!(parse_key("a/b/c/d/e/f").is_none());
    assert!(parse_key("").is_none());
    assert!(parse_key("single").is_none());
}

#[test]
fn room_label_strips_known_prefix() {
    assert_eq!(extract_room_label("localWorld.abc-Blue Room"), "Blue Room");
    assert_eq!(extract_room_label("localWorld.a-b-c"), "b-c");
}

#[test]
fn room_label_falls_back_to_raw_id() {
    assert_eq!(extract_room_label("otherWorld.abc-Blue"), "otherWorld.abc-Blue");
    assert_eq!(extract_room_label("localWorld.nodash"), "localWorld.nodash");
    assert_eq!(extract_room_label("localWorld.x-"), "localWorld.x-");
}
