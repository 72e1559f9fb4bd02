use supaterm::session::{
    ReplayMove, ReplayState, SessionData, SessionError, SessionEvent, SessionEventType, SessionInfo,
    SessionManager,
};
use supaterm::terminal;
use supaterm::time::Timestamp;

fn at(secs: i64) -> Timestamp {
    Timestamp::new(secs, 0).unwrap()
}

fn info(id: &str, secs: i64) -> SessionInfo {
    SessionInfo {
        id: id.to_string(),
        name: format!("session {}", id),
        created_at: at(secs),
        updated_at: at(secs),
        duration: 0,
        shell: "fish".to_string(),
        working_directory: "/".to_string(),
        tags: vec![],
        is_complete: true,
        command_count: 0,
        file_path: None,
    }
}

fn event(kind: SessionEventType, secs: i64, content: &str) -> SessionEvent {
    SessionEvent { event_type: kind, timestamp: at(secs), content: content.to_string(), metadata: vec![] }
}

#[test]
fn sessions_are_kept_below_the_home_directory() {
    assert_eq!(SessionManager::new(Some("/home/me")).session_dir, "/home/me/.supaterm/sessions");
    assert_eq!(SessionManager::new(None).session_dir, "./.supaterm/sessions");
}

#[test]
fn a_recording_keeps_what_happens() {
    let mut m = SessionManager::new(Some("/h"));
    m.record_input("ignored", None);
    assert!(m.current_events.is_empty());
    assert_eq!(
        m.stop_recording(0).unwrap_err().message(),
        "No active recording session"
    );
    m.start_recording("first", "fish", "/work").unwrap();
    assert_eq!(
        m.start_recording("second", "fish", "/work").unwrap_err().message(),
        "Already recording a session"
    );
    m.record_input("ls", Some("/work"));
    m.record_output(&terminal::plain("out".to_string()));
    m.record_output(&terminal::control("\x1bc".to_string()));
    assert!(m.can_count());
    m.record_command("ls -l", Some("/work"));
    m.record_command("pwd", None);
    m.record_resize(80, 24);
    let data = m.stop_recording(12).unwrap();
    assert_eq!(data.info.name, "first");
    assert_eq!(data.info.duration, 12);
    assert!(data.info.is_complete);
    assert_eq!(data.info.command_count, 2);
    assert_eq!(data.events.len(), 8);
    let kinds: Vec<SessionEventType> = data.events.iter().map(|e| e.event_type).collect();
    assert_eq!(kinds[0], SessionEventType::System);
    assert_eq!(data.events[0].content, "Session started");
    assert_eq!(data.events[7].content, "Session ended");
    assert_eq!(data.events[1].metadata, vec![("cwd".to_string(), "/work".to_string())]);
    assert_eq!(data.events[2].metadata, vec![("is_control".to_string(), "false".to_string())]);
    assert_eq!(data.events[3].metadata, vec![("is_control".to_string(), "true".to_string())]);
    assert_eq!(data.events[4].metadata[1].0, "timestamp");
    assert_eq!(data.events[4].metadata[1].1.len(), 8);
    assert_eq!(data.events[5].metadata.len(), 1);
    assert_eq!(data.events[6].content, "80x24");
    assert_eq!(data.events[6].metadata[1], ("rows".to_string(), "24".to_string()));
    assert!(m.recording);
    m.recording_saved();
    assert!(!m.recording);
}

#[test]
fn a_session_has_an_id_and_a_file_of_its_own() {
    let mut m = SessionManager::new(Some("/h"));
    m.start_recording("x", "sh", "/").unwrap();
    let id = m.current_session.as_ref().unwrap().id.clone();
    assert_eq!(id.len(), 14 + 1 + 32);
    assert!(id[15..].chars().all(|c| c.is_ascii_hexdigit()));
    let data = m.stop_recording(0).unwrap();
    let stamp = data.info.created_at.stamp();
    assert!(SessionManager::is_session_file(data.info.file_path.as_ref().unwrap(), true));
    assert_eq!(
        data.info.file_path.unwrap(),
        format!("/h/.supaterm/sessions/{}-{}.term", stamp, id)
    );
}

#[test]
fn a_recording_at_given_moments() {
    let mut m = SessionManager::new(Some("/h"));
    m.start_recording_at("n", "sh", "/", "ID".to_string(), at(1_700_000_000)).unwrap();
    let data = m.stop_recording_at(5, at(1_700_000_005)).unwrap();
    assert_eq!(
        data.info.file_path.unwrap(),
        "/h/.supaterm/sessions/20231114221320-ID.term"
    );
    assert_eq!(data.info.updated_at.secs(), 1_700_000_005);
    let mut m = SessionManager::new(None);
    m.recording = true;
    assert!(matches!(m.stop_recording_at(0, at(0)), Err(SessionError::NoActiveSession)));
    assert_eq!(SessionError::NoActiveSession.message(), "No active session");
}

#[test]
fn sessions_are_listed_newest_first() {
    let m = SessionManager::new(None);
    let found = vec![
        ("a".to_string(), info("1", 10)),
        ("b".to_string(), info("2", 30)),
        ("c".to_string(), info("3", 20)),
        ("d".to_string(), info("4", 30)),
    ];
    let listed = m.list_sessions(found);
    let ids: Vec<&str> = listed.iter().map(|i| i.id.as_str()).collect();
    assert_eq!(ids, vec!["2", "4", "3", "1"]);
    assert_eq!(listed[0].file_path, Some("b".to_string()));
    let many: Vec<(String, SessionInfo)> =
        (0..60).map(|i| (i.to_string(), info(&i.to_string(), i))).collect();
    let listed = m.list_sessions(many);
    assert_eq!(listed.len(), 50);
    assert_eq!(listed[0].id, "59");
    assert_eq!(listed[49].id, "10");
}

#[test]
fn only_session_files_are_taken() {
    assert!(SessionManager::is_session_file("/x/y.term", true));
    assert!(!SessionManager::is_session_file("/x/y.term", false));
    assert!(!SessionManager::is_session_file("/x/y.txt", true));
    assert!(!SessionManager::is_session_file("/x/term", true));
    let m = SessionManager::new(None);
    assert!(m.delete_session("a.term", true, true).is_ok());
    assert_eq!(
        m.delete_session("a.term", false, false).unwrap_err().message(),
        "Session file not found: a.term"
    );
    assert_eq!(
        m.delete_session("a.txt", true, true).unwrap_err().message(),
        "Not a valid session file: a.txt"
    );
    assert!(m.delete_session("a.term", true, false).is_err());
}

#[test]
fn a_loaded_session_needs_an_id() {
    let m = SessionManager::new(None);
    let data = m
        .load_session("p.term", SessionData { info: info("1", 0), events: vec![] })
        .unwrap();
    assert_eq!(data.info.file_path, Some("p.term".to_string()));
    let err = m
        .load_session("p.term", SessionData { info: info("", 0), events: vec![] })
        .unwrap_err();
    assert_eq!(err.message(), "Session ID is missing");
}

#[test]
fn a_replay_goes_through_its_states() {
    let mut m = SessionManager::new(None);
    let data = || SessionData {
        info: info("1", 0),
        events: vec![event(SessionEventType::Output, 0, "x")],
    };
    assert_eq!(
        m.toggle_replay_pause().unwrap_err().message(),
        "No active replay session"
    );
    assert_eq!(m.stop_replay().unwrap_err().message(), "No active replay session");
    assert_eq!(
        m.start_replay("p", data()).unwrap_err().message(),
        "No output channel set for replay"
    );
    m.set_output_channel();
    assert!(m.can_replay().is_ok());
    let status = m.start_replay("p", data()).unwrap();
    assert_eq!(status.state, ReplayState::Playing);
    assert_eq!((status.position, status.total_events, status.progress_percent), (0, 1, 0));
    assert_eq!(status.session_info.file_path, Some("p".to_string()));
    assert!(status.current_event.is_none());
    assert_eq!(
        m.start_replay("p", data()).unwrap_err().message(),
        "Already replaying a session"
    );
    assert!(m.can_replay().is_err());
    assert_eq!(m.toggle_replay_pause().unwrap(), ReplayState::Paused);
    assert_eq!(m.toggle_replay_pause().unwrap(), ReplayState::Playing);
    m.replay_state = ReplayState::Seeking;
    assert_eq!(
        m.toggle_replay_pause().unwrap_err().message(),
        "Invalid replay state for toggle"
    );
    m.stop_replay().unwrap();
    assert_eq!(m.replay_state, ReplayState::Stopped);
    assert!(!m.is_replay);
}

#[test]
fn a_recorded_session_is_loaded_as_it_was() {
    let mut m = SessionManager::new(Some("/h"));
    m.start_recording("x", "sh", "/").unwrap();
    m.record_input("ls", Some("/"));
    let mut data = m.stop_recording(3).unwrap();
    let path = data.info.file_path.take().unwrap();
    let id = data.info.id.clone();
    let loaded = m.load_session(&path, data).unwrap();
    assert_eq!(loaded.info.file_path, Some(path));
    assert_eq!((loaded.info.id, loaded.info.is_complete, loaded.info.duration), (id, true, 3));
    let told: Vec<&str> = loaded.events.iter().map(|e| e.content.as_str()).collect();
    assert_eq!(told, vec!["Session started", "ls", "Session ended"]);
}

#[test]
fn a_replay_heeds_pause_and_stop() {
    let step = SessionManager::replay_move;
    assert_eq!(step(ReplayState::Playing, 0, 2), ReplayMove::Play);
    assert_eq!(step(ReplayState::Playing, 2, 2), ReplayMove::End);
    assert_eq!(step(ReplayState::Paused, 1, 2), ReplayMove::Hold);
    assert_eq!(step(ReplayState::Seeking, 1, 2), ReplayMove::Hold);
    assert_eq!(step(ReplayState::Stopped, 1, 2), ReplayMove::End);
    assert_eq!(step(ReplayState::Paused, 2, 2), ReplayMove::End);
    let over = SessionManager::replay_over(&info("1", 0), 4, 1, 25);
    assert_eq!(over.state, ReplayState::Stopped);
    assert_eq!((over.position, over.total_events, over.progress_percent), (1, 4, 25));
    assert!(over.current_event.is_none());
    let over = SessionManager::replay_over(&info("1", 0), 4, 4, 99);
    assert_eq!((over.position, over.progress_percent), (4, 100));
}

#[test]
fn events_are_replayed_as_output() {
    let mut command = event(SessionEventType::Command, 3, "ls");
    command.metadata.push(("timestamp".to_string(), "10:11:12".to_string()));
    let mut control = event(SessionEventType::Output, 5, "\x1bc");
    control.metadata.push(("is_control".to_string(), "true".to_string()));
    let events = vec![
        event(SessionEventType::Output, 1, "hello"),
        event(SessionEventType::Input, 2, "typed"),
        command,
        control,
        event(SessionEventType::System, 6, "note"),
        event(SessionEventType::Resize, 4, "80x24"),
        event(SessionEventType::Command, 4, "pwd"),
    ];
    let step = SessionManager::replay_step(&events, 0);
    assert_eq!(step.delay_ms, 0);
    let out = step.output.unwrap();
    assert_eq!((out.content.as_str(), out.is_control), ("hello", false));
    let step = SessionManager::replay_step(&events, 1);
    assert_eq!(step.delay_ms, 1000);
    assert_eq!(step.output.unwrap().content, "Input: typed");
    assert_eq!(
        SessionManager::replay_step(&events, 2).output.unwrap().content,
        "[10:11:12] $ ls"
    );
    let step = SessionManager::replay_step(&events, 3);
    assert_eq!(step.delay_ms, 2000);
    assert!(step.output.unwrap().is_control);
    assert!(SessionManager::replay_step(&events, 4).output.is_none());
    assert_eq!(SessionManager::replay_step(&events, 5).delay_ms, 0);
    assert_eq!(SessionManager::replay_step(&events, 6).output.unwrap().content, "[] $ pwd");
    let status = SessionManager::replay_status(&info("1", 0), &events, 2, 42);
    assert_eq!((status.position, status.total_events, status.progress_percent), (2, 7, 42));
    assert_eq!(status.current_event.unwrap().content, events[status.position].content);
    let end = SessionManager::replay_end(&info("1", 0), 7);
    assert_eq!(end.state, ReplayState::Stopped);
    assert_eq!((end.position, end.progress_percent), (7, 100));
}

#[test]
fn moments_are_those_of_the_calendar() {
    let first = chrono::DateTime::<chrono::Utc>::MIN_UTC.timestamp();
    let last = chrono::DateTime::<chrono::Utc>::MAX_UTC.timestamp();
    assert!(Timestamp::new(first, 0).is_some());
    assert!(Timestamp::new(first - 1, 0).is_none());
    assert!(Timestamp::new(last, 999_999_999).is_some());
    assert!(Timestamp::new(last + 1, 0).is_none());
    for (secs, nanos) in [
        (0i64, 0u32),
        (59, 1_500_000_000),
        (58, 1_500_000_000),
        (59, 2_000_000_000),
        (-1, 1_999_999_999),
        (first, 5),
        (last, 1_999_999_999),
    ] {
        let theirs = chrono::DateTime::from_timestamp(secs, nanos);
        let ours = Timestamp::new(secs, nanos);
        assert_eq!(ours.is_some(), theirs.is_some(), "{} {}", secs, nanos);
        if let (Some(a), Some(b)) = (ours, theirs) {
            assert_eq!(a.text(), b.to_string());
            assert_eq!(a.stamp(), b.format("%Y%m%d%H%M%S").to_string());
            assert_eq!((a.secs(), a.nanos()), (b.timestamp(), b.timestamp_subsec_nanos()));
        }
    }
}

#[test]
fn moments_are_ordered_and_measured() {
    let points = [
        (0i64, 0u32),
        (0, 1),
        (59, 1_999_999_999),
        (60, 0),
        (86399, 1_000_000_000),
        (86400, 5),
        (-1, 999_999_999),
        (1_700_000_000, 123_456_789),
    ];
    for a in points {
        for b in points {
            let x = Timestamp::new(a.0, a.1).unwrap();
            let y = Timestamp::new(b.0, b.1).unwrap();
            let p = chrono::DateTime::from_timestamp(a.0, a.1).unwrap();
            let q = chrono::DateTime::from_timestamp(b.0, b.1).unwrap();
            assert_eq!(x.is_after(&y), p > q, "{:?} {:?}", a, b);
            assert_eq!(
                x.millis_since(&y),
                p.signed_duration_since(q).num_milliseconds(),
                "{:?} {:?}",
                a,
                b
            );
            assert_eq!(x.millis_since(&y), -y.millis_since(&x));
        }
    }
    assert_eq!(at(1_700_000_000).text(), "2023-11-14 22:13:20 UTC");
    let before = chrono::Utc::now().timestamp();
    let moment = Timestamp::now();
    let now = moment.secs();
    assert!(before <= now && now <= before + 5);
    assert!(now >= 0 && moment.nanos() < 1_000_000_000);
}
