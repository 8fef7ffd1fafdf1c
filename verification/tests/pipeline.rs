use whisperdesk::config::WhisperConfig;
use whisperdesk::jobs::JobRegistry;
use whisperdesk::jobs::JobState;
use whisperdesk::paths::FfmpegProbe;
use whisperdesk::paths::WhisperProbe;
use whisperdesk::paths::config_path;
use whisperdesk::paths::default_whisper_binary_candidates;
use whisperdesk::paths::ensure_whisper_resources;
use whisperdesk::paths::is_wav;
use whisperdesk::paths::output_root;
use whisperdesk::paths::resolve_ffmpeg_path;
use whisperdesk::paths::resolve_whisper_paths;
use whisperdesk::pipeline::TranscriptionPlan;
use whisperdesk::pipeline::output_file_path;
use whisperdesk::pipeline::plan_transcription;
use whisperdesk::pipeline::track_base_ms;
use whisperdesk::pipeline::track_progress_line;
use whisperdesk::recognizer::RecognizedSegment;

fn strings(items: &[&str]) -> Vec<String> {
    items.iter().map(|s| s.to_string()).collect()
}

fn empty_whisper_config() -> WhisperConfig {
    Default::default()
}

fn idle_probe() -> WhisperProbe {
    WhisperProbe {
        binary_in_path: None,
        default_binary: None,
        requested_binary_usable: false,
        requested_binary_in_path: None,
        model_root: "/models".to_string(),
        requested_model_is_absolute: false,
    }
}

#[test]
fn binary_resolution_prefers_the_search_path() {
    let cfg = empty_whisper_config();
    let mut probe = idle_probe();
    probe.binary_in_path = Some("/usr/bin/whisper-cli".to_string());
    probe.default_binary = Some("/opt/homebrew/bin/whisper-cli".to_string());
    let (binary, model) = resolve_whisper_paths(&cfg, &probe).unwrap();
    assert_eq!(binary, "/usr/bin/whisper-cli");
    assert_eq!(model, "/models/ggml-large-v3.bin");
}

#[test]
fn configured_model_paths_are_cleaned() {
    let mut cfg = empty_whisper_config();
    cfg.binary_path = "/tools/whisper".to_string();
    cfg.model_path = "models/ggml-small.bin".to_string();
    let mut probe = idle_probe();
    probe.requested_binary_usable = true;
    let (binary, model) = resolve_whisper_paths(&cfg, &probe).unwrap();
    assert_eq!(binary, "/tools/whisper");
    assert_eq!(model, "/models/ggml-small.bin");
}

#[test]
fn missing_binary_everywhere_is_an_error() {
    let cfg = empty_whisper_config();
    let err = resolve_whisper_paths(&cfg, &idle_probe()).unwrap_err();
    assert_eq!(
        err,
        "whisper binary not found in PATH. Install whisper.cpp or set WHISPER_BINARY."
    );
}

#[test]
fn ffmpeg_resolution_walks_the_documented_chain() {
    let cfg = empty_whisper_config();
    let probe = FfmpegProbe {
        requested_is_file: false,
        requested_in_path: None,
        env_binary: None,
        env_is_file: false,
        env_in_path: None,
        ffmpeg_in_path: None,
        default_existing: Some("/opt/homebrew/bin/ffmpeg".to_string()),
        winget: None,
    };
    assert_eq!(resolve_ffmpeg_path(&cfg, &probe).unwrap(), "/opt/homebrew/bin/ffmpeg");
    let empty = FfmpegProbe {
        requested_is_file: false,
        requested_in_path: None,
        env_binary: None,
        env_is_file: false,
        env_in_path: None,
        ffmpeg_in_path: None,
        default_existing: None,
        winget: None,
    };
    assert_eq!(
        resolve_ffmpeg_path(&cfg, &empty).unwrap_err(),
        "ffmpeg not found. Install ffmpeg or set FFMPEG_BINARY."
    );
}

#[test]
fn resource_check_names_what_is_missing() {
    let err = ensure_whisper_resources("/b/whisper", "/m/model.bin", false, true, true, false)
        .unwrap_err();
    assert_eq!(
        err,
        "Whisper binary not found at /b/whisper. Install whisper.cpp and ensure one of [\"whisper-cli\", \"whisper\", \"whisper-cpp\", \"main\"] is in PATH."
    );
    let err2 = ensure_whisper_resources("/b/whisper", "/m/model.bin", true, false, true, false)
        .unwrap_err();
    assert_eq!(err2, "Whisper model not found at /m/model.bin. Set WHISPER_MODEL to a local model file.");
    assert!(ensure_whisper_resources("/b", "/m", true, true, false, false).is_ok());
}

#[test]
fn a_job_with_a_missing_binary_fails_before_any_track() {
    let mut reg = JobRegistry::new();
    let id = reg.create();
    let cfg = empty_whisper_config();
    let err = resolve_whisper_paths(&cfg, &idle_probe()).unwrap_err();
    reg.mark_failed(id, err);
    let st = reg.get(id).unwrap();
    assert!(matches!(st.state, JobState::Failed));
    assert_eq!(st.completed, 0);
    assert_eq!(
        st.error.as_deref(),
        Some("whisper binary not found in PATH. Install whisper.cpp or set WHISPER_BINARY.")
    );
}

#[test]
fn wav_detection_is_case_insensitive_on_the_extension() {
    assert!(is_wav("/tmp/job/track_0.wav"));
    assert!(is_wav("C:\\tmp\\track_0.WAV"));
    assert!(!is_wav("/tmp/job/track_0.ogg"));
    assert!(!is_wav("/tmp/job/wav"));
    assert!(!is_wav("/tmp/job/.wav"));
}

#[test]
fn path_helpers_join_the_documented_locations() {
    assert_eq!(config_path("/home/u/.config/app"), "/home/u/.config/app/config.json");
    assert_eq!(output_root("  /out  ", "/downloads"), "/out");
    assert_eq!(output_root("   ", "/downloads"), "/downloads");
    let names = default_whisper_binary_candidates(false);
    assert_eq!(names, strings(&["whisper-cli", "whisper", "whisper-cpp", "main"]));
}

#[test]
fn output_files_use_the_localized_meeting_time() {
    assert_eq!(
        output_file_path("/out", "2024-05-01/room/10-00-00"),
        "/out/10時0分0秒.txt"
    );
    // an unparseable time keeps its raw form, flattened
    assert_eq!(output_file_path("/out", "2024-05-01/room/oddtime"), "/out/oddtime.txt");
    assert_eq!(output_file_path("/out", "a\\b"), "/out/a_b.txt");
}

#[test]
fn tracks_sort_by_start_time_with_unparseable_last() {
    let keys = strings(&[
        "d/r/m/alice/10-30-00_x.ogg",
        "d/r/m/bob/oddball_x.ogg",
        "d/r/m/carol/10-00-00_x.ogg",
        "junk",
    ]);
    let plan = plan_transcription(&keys, "/out", "d/r/m", true, true).unwrap();
    let speakers: Vec<&str> = plan.tracks.iter().map(|t| t.speaker.as_str()).collect();
    assert_eq!(speakers, vec!["carol", "alice", "bob"]);
    assert_eq!(plan.tracks[0].key, "d/r/m/carol/10-00-00_x.ogg");
    assert_eq!(plan.completed, 0);
}

#[test]
fn planning_fails_without_tracks() {
    match plan_transcription(&strings(&["junk"]), "/out", "d/r/10-00-00", false, false) {
        Err(err) => assert_eq!(err, "No tracks found for meeting: d/r/10-00-00"),
        Ok(_) => panic!("planning should fail without tracks"),
    }
}

#[test]
fn progress_lines_count_from_one() {
    assert_eq!(track_progress_line(0, 2, "downloading audio"), "Track 1/2: downloading audio");
    assert_eq!(track_progress_line(1, 2, "transcribing"), "Track 2/2: transcribing");
}

#[test]
fn track_base_anchors_at_seconds_since_midnight() {
    assert_eq!(track_base_ms("10-00-02"), 36002000);
    assert_eq!(track_base_ms("unparseable"), 0);
}

#[test]
fn end_to_end_two_tracks_merge_in_time_order() {
    let keys = strings(&[
        "2024-05-01/room/10-00-00/alice/10-00-00_a.ogg",
        "2024-05-01/room/10-00-00/bob/10-00-00_b.ogg",
    ]);
    let mut plan: TranscriptionPlan =
        plan_transcription(&keys, "/out", "2024-05-01/room/10-00-00", true, true).unwrap();
    assert_eq!(plan.output_path, "/out/10時0分0秒.txt");
    assert_eq!(plan.tracks.len(), 2);
    assert_eq!(plan.tracks[0].speaker, "alice");
    plan.merge_track(0, &vec![RecognizedSegment { start_ms: 5000, text: "hi".to_string() }]);
    plan.merge_track(1, &vec![RecognizedSegment { start_ms: 2000, text: "hello".to_string() }]);
    assert_eq!(plan.completed, 2);
    let out = plan.finish();
    assert_eq!(out, "10:00:02 bob：hello\n10:00:05 alice：hi\n");
}
