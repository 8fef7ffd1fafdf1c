use whisperdesk::meetings::dates_from_keys;
use whisperdesk::meetings::dates_from_prefixes;
use whisperdesk::meetings::finalize_dates;
use whisperdesk::meetings::meetings_from_keys;

fn strings(items: &[&str]) -> Vec<String> {
    items.iter().map(|s| s.to_string()).collect()
}

#[test]
fn prefixes_lose_their_trailing_slash() {
    let dates = dates_from_prefixes(&strings(&["2024-05-01/", "2024-05-02//", "/", ""]));
    assert_eq!(dates, strings(&["2024-05-01", "2024-05-02"]));
}

#[test]
fn keys_contribute_their_first_segment() {
    let dates = dates_from_keys(&strings(&["2024-05-01/r/m/s/f.ogg", "plain", "/starts-empty"]));
    assert_eq!(dates, strings(&["2024-05-01", "plain"]));
}

#[test]
fn finalize_sorts_and_deduplicates() {
    let mut dates = strings(&["b", "a", "b", "c", "a"]);
    finalize_dates(&mut dates);
    assert_eq!(dates, strings(&["a", "b", "c"]));
}

#[test]
fn zero_objects_yield_an_empty_meeting_list() {
    let list = meetings_from_keys(&Vec::new());
    assert!(list.is_empty());
}

#[test]
fn meetings_aggregate_speakers_and_tracks() {
    let keys = strings(&[
        "2024-05-01/localWorld.x-Blue/10-00-00/alice/10-00-00_a.ogg",
        "2024-05-01/localWorld.x-Blue/10-00-00/bob/10-00-00_b.ogg",
        "2024-05-01/localWorld.x-Blue/10-00-00/alice/10-05-00_c.ogg",
        "2024-05-01/localWorld.x-Blue/11-00-00/alice/11-00-00_d.ogg",
        "not-a-track-key",
    ]);
    let list = meetings_from_keys(&keys);
    assert_eq!(list.len(), 2);
    // most recent meeting first
    assert_eq!(list[0].meeting_time, "11-00-00");
    assert_eq!(list[0].speaker_count, 1);
    assert_eq!(list[0].track_count, 1);
    assert_eq!(list[1].id, "2024-05-01/localWorld.x-Blue/10-00-00");
    assert_eq!(list[1].date, "2024-05-01");
    assert_eq!(list[1].room_id, "localWorld.x-Blue");
    assert_eq!(list[1].room_label, "Blue");
    assert_eq!(list[1].meeting_time, "10-00-00");
    assert_eq!(list[1].speaker_count, 2);
    assert_eq!(list[1].track_count, 3);
}

#[test]
fn meetings_with_equal_times_keep_first_seen_order() {
    let keys = strings(&[
        "d/room-b/10-00-00/s/t.ogg",
        "d/room-a/10-00-00/s/t.ogg",
    ]);
    let list = meetings_from_keys(&keys);
    assert_eq!(list.len(), 2);
    assert_eq!(list[0].room_id, "room-b");
    assert_eq!(list[1].room_id, "room-a");
}
