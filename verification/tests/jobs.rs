use whisperdesk::jobs::JobRegistry;
use whisperdesk::jobs::JobState;

#[test]
fn created_jobs_start_running_and_empty() {
    let mut reg = JobRegistry::new();
    let id = reg.create();
    assert_eq!(id, 0);
    let st = reg.get(id).unwrap();
    assert!(matches!(st.state, JobState::Running));
    assert_eq!(st.completed, 0);
    assert_eq!(st.total, 0);
    assert!(st.output_path.is_none());
    assert!(st.error.is_none());
    assert_eq!(st.log.as_deref(), Some(""));
}

#[test]
fn ids_are_dense_and_unknown_ids_are_not_found() {
    let mut reg = JobRegistry::new();
    let a = reg.create();
    let b = reg.create();
    assert_ne!(a, b);
    assert!(reg.get(b).is_some());
    assert!(reg.get(b + 1).is_none());
}

#[test]
fn log_accumulates_lines_with_newlines() {
    let mut reg = JobRegistry::new();
    let id = reg.create();
    reg.append_log(id, "Track 1/2: downloading audio");
    reg.append_log(id, "Track 1/2: transcribing");
    let st = reg.get(id).unwrap();
    assert_eq!(
        st.log.as_deref(),
        Some("Track 1/2: downloading audio\nTrack 1/2: transcribing\n")
    );
    // a late append for an unknown id changes nothing
    reg.append_log(99, "lost");
    assert_eq!(reg.get(id).unwrap().log.as_deref(), Some("Track 1/2: downloading audio\nTrack 1/2: transcribing\n"));
}

#[test]
fn progress_then_done_snaps_completed_to_total() {
    let mut reg = JobRegistry::new();
    let id = reg.create();
    reg.update_progress(id, 0, 3);
    reg.update_progress(id, 1, 3);
    let st = reg.get(id).unwrap();
    assert_eq!((st.completed, st.total), (1, 3));
    reg.mark_done(id, "/out/meeting.txt".to_string());
    let st = reg.get(id).unwrap();
    assert!(matches!(st.state, JobState::Done));
    assert_eq!(st.completed, 3);
    assert_eq!(st.output_path.as_deref(), Some("/out/meeting.txt"));
    assert!(st.error.is_none());
}

#[test]
fn failure_is_terminal_and_exclusive() {
    let mut reg = JobRegistry::new();
    let id = reg.create();
    reg.mark_failed(id, "ffmpeg failed".to_string());
    let st = reg.get(id).unwrap();
    assert!(matches!(st.state, JobState::Failed));
    assert_eq!(st.error.as_deref(), Some("ffmpeg failed"));
    assert!(st.output_path.is_none());
    // a later completion attempt is ignored: the job ended exactly once
    reg.mark_done(id, "/out/x.txt".to_string());
    let st = reg.get(id).unwrap();
    assert!(matches!(st.state, JobState::Failed));
    assert!(st.output_path.is_none());
}
