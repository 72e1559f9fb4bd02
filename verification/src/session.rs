//! Terminal sessions: recording what happens, replaying it, and keeping a
//! list of what was recorded.

use vstd::prelude::*;
use crate::paths;
use crate::table;
use crate::terminal;
use crate::terminal::TerminalOutput;
use crate::text;
use crate::time;
use crate::time::Timestamp;

verus! {

/// Default directory for session storage, below the home directory.
pub const DEFAULT_SESSION_DIR: &'static str = ".supaterm/sessions";

/// Default log file extension.
pub const LOG_EXTENSION: &'static str = "term";

/// Maximum number of sessions in history.
pub const MAX_SESSION_HISTORY: usize = 50;

/// Terminal session event types.
#[derive(Debug, Clone, Copy, PartialEq, Eq, Structural)]
pub enum SessionEventType {
    /// Input from user.
    Input,
    /// Output from terminal.
    Output,
    /// Command executed.
    Command,
    /// System event.
    System,
    /// Resize event.
    Resize,
}

/// Session replay state.
#[derive(Debug, Clone, Copy, PartialEq, Eq, Structural)]
pub enum ReplayState {
    /// Not currently replaying.
    Stopped,
    /// Replay is paused.
    Paused,
    /// Replay is in progress.
    Playing,
    /// Replay is jumping to a specific position.
    Seeking,
}

/// Single event in a terminal session.
#[derive(Debug)]
pub struct SessionEvent {
    /// Type of event.
    pub event_type: SessionEventType,
    /// Timestamp when the event occurred.
    pub timestamp: Timestamp,
    /// Event content (depends on event type).
    pub content: String,
    /// Additional metadata for the event, as names and values.
    pub metadata: Vec<(String, String)>,
}

/// What a `SessionEvent` holds.
pub struct EventView {
    pub event_type: SessionEventType,
    pub at: (int, int),
    pub content: Seq<char>,
    pub metadata: Seq<(Seq<char>, Seq<char>)>,
}

impl View for SessionEvent {
    type V = EventView;

    open spec fn view(&self) -> EventView {
        EventView {
            event_type: self.event_type,
            at: self.timestamp@,
            content: self.content@,
            metadata: table::entries(self.metadata@),
        }
    }
}

impl Clone for SessionEvent {
    fn clone(&self) -> (r: Self)
        ensures
            r@ == self@,
    {
        SessionEvent {
            event_type: self.event_type,
            timestamp: self.timestamp,
            content: self.content.clone(),
            metadata: table::copy(&self.metadata),
        }
    }
}

/// What a list of events holds.
pub open spec fn event_views(events: Seq<SessionEvent>) -> Seq<EventView> {
    events.map_values(|e: SessionEvent| e@)
}

/// A copy of a list of events.
pub fn copy_events(events: &Vec<SessionEvent>) -> (r: Vec<SessionEvent>)
    ensures
        event_views(r@) == event_views(events@),
{
    let mut out: Vec<SessionEvent> = Vec::new();
    let mut i: usize = 0;
    while i < events.len()
        invariant
            i <= events@.len(),
            event_views(out@) == event_views(events@.take(i as int)),
        decreases events@.len() - i,
    {
        let ghost before = event_views(out@);
        out.push(events[i].clone());
        proof {
            assert(event_views(out@) =~= before.push(events@[i as int]@));
            assert(event_views(events@.take(i + 1)) =~= event_views(events@.take(i as int)).push(
                events@[i as int]@,
            ));
        }
        i += 1;
    }
    assert(events@.take(i as int) =~= events@);
    out
}

/// Session metadata and state information.
#[derive(Debug)]
pub struct SessionInfo {
    /// Unique identifier for the session.
    pub id: String,
    /// User-friendly name of the session.
    pub name: String,
    /// When the session was created.
    pub created_at: Timestamp,
    /// When the session was last updated.
    pub updated_at: Timestamp,
    /// Total duration of the session in seconds.
    pub duration: u64,
    /// Shell used in the session.
    pub shell: String,
    /// Working directory when the session started.
    pub working_directory: String,
    /// Tags for organizing sessions.
    pub tags: Vec<String>,
    /// Whether this session is complete.
    pub is_complete: bool,
    /// Number of commands in the session.
    pub command_count: usize,
    /// Session file path.
    pub file_path: Option<String>,
}

/// What a `SessionInfo` holds.
pub struct InfoView {
    pub id: Seq<char>,
    pub name: Seq<char>,
    pub created_at: (int, int),
    pub updated_at: (int, int),
    pub duration: u64,
    pub shell: Seq<char>,
    pub working_directory: Seq<char>,
    pub tags: Seq<Seq<char>>,
    pub is_complete: bool,
    pub command_count: usize,
    pub file_path: Option<Seq<char>>,
}

/// The text of an optional string.
pub open spec fn opt_view(s: Option<String>) -> Option<Seq<char>> {
    match s {
        Some(t) => Some(t@),
        None => None,
    }
}

impl View for SessionInfo {
    type V = InfoView;

    open spec fn view(&self) -> InfoView {
        InfoView {
            id: self.id@,
            name: self.name@,
            created_at: self.created_at@,
            updated_at: self.updated_at@,
            duration: self.duration,
            shell: self.shell@,
            working_directory: self.working_directory@,
            tags: text::views(self.tags@),
            is_complete: self.is_complete,
            command_count: self.command_count,
            file_path: opt_view(self.file_path),
        }
    }
}

impl Clone for SessionInfo {
    fn clone(&self) -> (r: Self)
        ensures
            r@ == self@,
    {
        SessionInfo {
            id: self.id.clone(),
            name: self.name.clone(),
            created_at: self.created_at,
            updated_at: self.updated_at,
            duration: self.duration,
            shell: self.shell.clone(),
            working_directory: self.working_directory.clone(),
            tags: table::copy_strings(&self.tags),
            is_complete: self.is_complete,
            command_count: self.command_count,
            file_path: match &self.file_path {
                Some(p) => Some(p.clone()),
                None => None,
            },
        }
    }
}

/// Complete session data including events and metadata.
#[derive(Debug)]
pub struct SessionData {
    /// Session metadata and information.
    pub info: SessionInfo,
    /// Session events.
    pub events: Vec<SessionEvent>,
}

/// What a `SessionData` holds.
pub struct DataView {
    pub info: InfoView,
    pub events: Seq<EventView>,
}

impl DataView {
    /// As it is taken over from the file at `path`.
    pub open spec fn loaded_from(self, path: Seq<char>) -> DataView {
        DataView { info: InfoView { file_path: Some(path), ..self.info }, ..self }
    }

    /// What its file holds: all but the path of the file.
    pub open spec fn stored(self) -> DataView {
        DataView { info: InfoView { file_path: None, ..self.info }, ..self }
    }
}

impl View for SessionData {
    type V = DataView;

    open spec fn view(&self) -> DataView {
        DataView { info: self.info@, events: event_views(self.events@) }
    }
}

impl Clone for SessionData {
    fn clone(&self) -> (r: Self)
        ensures
            r@ == self@,
    {
        SessionData { info: self.info.clone(), events: copy_events(&self.events) }
    }
}

/// Status information for session replay.
#[derive(Debug)]
pub struct ReplayStatus {
    /// Current replay state.
    pub state: ReplayState,
    /// Current event position (0-based).
    pub position: usize,
    /// Total number of events.
    pub total_events: usize,
    /// Session information.
    pub session_info: SessionInfo,
    /// Current event being processed (if any).
    pub current_event: Option<SessionEvent>,
    /// Progress percentage (0-100).
    pub progress_percent: u8,
    /// Error message (if any).
    pub error: Option<String>,
}

/// Why a session operation was refused.
#[derive(Debug)]
pub enum SessionError {
    AlreadyRecording,
    NoActiveRecording,
    NoActiveSession,
    MissingId,
    AlreadyReplaying,
    NoOutputChannel,
    NoActiveReplay,
    InvalidReplayState,
    PasswordRequired,
    FileNotFound(String),
    NotASessionFile(String),
}

impl SessionError {
    /// The message for an error.
    pub open spec fn text(self) -> Seq<char> {
        match self {
            SessionError::AlreadyRecording => "Already recording a session"@,
            SessionError::NoActiveRecording => "No active recording session"@,
            SessionError::NoActiveSession => "No active session"@,
            SessionError::MissingId => "Session ID is missing"@,
            SessionError::AlreadyReplaying => "Already replaying a session"@,
            SessionError::NoOutputChannel => "No output channel set for replay"@,
            SessionError::NoActiveReplay => "No active replay session"@,
            SessionError::InvalidReplayState => "Invalid replay state for toggle"@,
            SessionError::PasswordRequired => "Password required for encryption"@,
            SessionError::FileNotFound(path) => "Session file not found: "@ + path@,
            SessionError::NotASessionFile(path) => "Not a valid session file: "@ + path@,
        }
    }

    /// The message for an error.
    pub fn message(&self) -> (r: String)
        ensures
            r@ == self.text(),
    {
        match self {
            SessionError::AlreadyRecording => "Already recording a session".to_owned(),
            SessionError::NoActiveRecording => "No active recording session".to_owned(),
            SessionError::NoActiveSession => "No active session".to_owned(),
            SessionError::MissingId => "Session ID is missing".to_owned(),
            SessionError::AlreadyReplaying => "Already replaying a session".to_owned(),
            SessionError::NoOutputChannel => "No output channel set for replay".to_owned(),
            SessionError::NoActiveReplay => "No active replay session".to_owned(),
            SessionError::InvalidReplayState => "Invalid replay state for toggle".to_owned(),
            SessionError::PasswordRequired => "Password required for encryption".to_owned(),
            SessionError::FileNotFound(path) => "Session file not found: ".to_owned().concat(
                path.as_str(),
            ),
            SessionError::NotASessionFile(path) => "Not a valid session file: ".to_owned().concat(
                path.as_str(),
            ),
        }
    }
}

/// Session manager handles terminal session recording and replaying.
#[derive(Debug)]
pub struct SessionManager {
    /// Current session information.
    pub current_session: Option<SessionInfo>,
    /// Events in the current session.
    pub current_events: Vec<SessionEvent>,
    /// Path to the session directory.
    pub session_dir: String,
    /// Whether session recording is active.
    pub recording: bool,
    /// Whether this is a replay session.
    pub is_replay: bool,
    /// Whether there is a channel for terminal output.
    pub has_output: bool,
    /// Replay state.
    pub replay_state: ReplayState,
    /// Current position in replay.
    pub replay_position: usize,
}

/// What a `SessionManager` holds.
pub struct ManagerView {
    pub session: Option<InfoView>,
    pub events: Seq<EventView>,
    pub session_dir: Seq<char>,
    pub recording: bool,
    pub is_replay: bool,
    pub has_output: bool,
    pub replay_state: ReplayState,
    pub replay_position: usize,
}

impl View for SessionManager {
    type V = ManagerView;

    open spec fn view(&self) -> ManagerView {
        ManagerView {
            session: match self.current_session {
                Some(info) => Some(info@),
                None => None,
            },
            events: event_views(self.current_events@),
            session_dir: self.session_dir@,
            recording: self.recording,
            is_replay: self.is_replay,
            has_output: self.has_output,
            replay_state: self.replay_state,
            replay_position: self.replay_position,
        }
    }
}

/// The information of a session that has just begun.
pub open spec fn new_info(
    id: Seq<char>,
    name: Seq<char>,
    shell: Seq<char>,
    working_directory: Seq<char>,
    now: (int, int),
) -> InfoView {
    InfoView {
        id,
        name,
        created_at: now,
        updated_at: now,
        duration: 0,
        shell,
        working_directory,
        tags: seq![],
        is_complete: false,
        command_count: 0,
        file_path: None,
    }
}

/// An event without metadata.
pub open spec fn system_event(content: Seq<char>, now: (int, int)) -> EventView {
    EventView { event_type: SessionEventType::System, at: now, content, metadata: seq![] }
}

/// The id of a session: its moment and a random tag.
pub open spec fn session_id(stamp: Seq<char>, tag: Seq<char>) -> Seq<char> {
    stamp + "-"@ + tag
}

/// The name of the file that a session is kept in.
pub open spec fn session_file(info: InfoView) -> Seq<char> {
    time::utc_stamp(info.created_at.0, info.created_at.1) + "-"@ + info.id + "."@ + LOG_EXTENSION@
}

impl ManagerView {
    /// A manager at rest.
    pub open spec fn idle(session_dir: Seq<char>) -> ManagerView {
        ManagerView {
            session: None,
            events: seq![],
            session_dir,
            recording: false,
            is_replay: false,
            has_output: false,
            replay_state: ReplayState::Stopped,
            replay_position: 0,
        }
    }

    /// With one more event, if a session is being recorded; a command is
    /// counted.
    pub open spec fn add(self, e: EventView) -> ManagerView {
        if !self.recording {
            self
        } else {
            ManagerView {
                events: self.events.push(e),
                session: match self.session {
                    Some(info) => Some(
                        if e.event_type == SessionEventType::Command {
                            InfoView { command_count: (info.command_count + 1) as usize, ..info }
                        } else {
                            info
                        },
                    ),
                    None => None,
                },
                ..self
            }
        }
    }

    /// Whether one more command can be counted.
    pub open spec fn can_count(self) -> bool {
        self.recording ==> match self.session {
            Some(info) => info.command_count < usize::MAX,
            None => true,
        }
    }

    /// With the recording of a session begun.
    pub open spec fn started(self, info: InfoView, now: (int, int)) -> ManagerView {
        ManagerView {
            session: Some(info),
            events: seq![system_event("Session started"@, now)],
            recording: true,
            ..self
        }
    }

    /// The information of the session at its end.
    pub open spec fn finished_info(self, info: InfoView, duration: u64, now: (int, int)) -> InfoView {
        InfoView {
            updated_at: now,
            duration,
            is_complete: true,
            file_path: Some(paths::join(self.session_dir, session_file(info))),
            ..info
        }
    }

    /// With a session taken over for replay.
    pub open spec fn replaying(self, data: DataView) -> ManagerView {
        ManagerView {
            session: Some(data.info),
            events: data.events,
            is_replay: true,
            replay_state: ReplayState::Playing,
            replay_position: 0,
            ..self
        }
    }
}

/// The entries of an optional table; none for one that is missing.
pub open spec fn opt_entries(t: Option<Vec<(String, String)>>) -> Seq<(Seq<char>, Seq<char>)> {
    match t {
        Some(m) => table::entries(m@),
        None => seq![],
    }
}

/// A tag of 32 lower-case hexadecimal digits.
pub open spec fn is_tag(s: Seq<char>) -> bool {
    s.len() == 32 && forall|i: int|
        0 <= i < 32 ==> ('0' <= #[trigger] s[i] <= '9' || 'a' <= s[i] <= 'f')
}

/// `uuid::Uuid::new_v4` in its simple form: 32 lower-case hexadecimal digits,
/// made at random. Which ones is not said.
#[verifier::external_body]
fn random_tag() -> (r: String)
    ensures
        is_tag(r@),
{
    uuid::Uuid::new_v4().simple().to_string()
}

impl SessionManager {
    /// A session manager whose sessions are kept below the home directory, or
    /// below the current one where that is not known.
    pub fn new(home: Option<&str>) -> (r: Self)
        ensures
            r@ == ManagerView::idle(
                paths::join(
                    match home {
                        Some(h) => h@,
                        None => "."@,
                    },
                    DEFAULT_SESSION_DIR@,
                ),
            ),
    {
        let session_dir = match home {
            Some(h) => paths::join_paths(h, DEFAULT_SESSION_DIR),
            None => paths::join_paths(".", DEFAULT_SESSION_DIR),
        };
        let r = SessionManager {
            current_session: None,
            current_events: Vec::new(),
            session_dir,
            recording: false,
            is_replay: false,
            has_output: false,
            replay_state: ReplayState::Stopped,
            replay_position: 0,
        };
        assert(r@.events =~= seq![]);
        r
    }

    /// Starts a new recording session with an id made of the clock's moment
    /// and a random tag.
    pub fn start_recording(
        &mut self,
        session_name: &str,
        shell: &str,
        working_directory: &str,
    ) -> (r: Result<(), SessionError>)
        ensures
            r is Ok <==> !old(self).recording,
            match r {
                Ok(_) => exists|now: (int, int), tag: Seq<char>|
                    #[trigger] time::is_moment(now.0, now.1) && #[trigger] is_tag(tag) && final(self)@ == old(self)@.started(
                        new_info(
                            session_id(time::utc_stamp(now.0, now.1), tag),
                            session_name@,
                            shell@,
                            working_directory@,
                            now,
                        ),
                        now,
                    ),
                Err(e) => e is AlreadyRecording && final(self)@ == old(self)@,
            },
    {
        if self.recording {
            return Err(SessionError::AlreadyRecording);
        }
        let now = Timestamp::now();
        let tag = random_tag();
        let stamp = now.stamp();
        let id = stamp.concat("-").concat(tag.as_str());
        assert(id@ == session_id(time::utc_stamp(now@.0, now@.1), tag@));
        self.start_recording_at(session_name, shell, working_directory, id, now)
    }

    /// Starts a new recording session with the given id at the given moment.
    pub fn start_recording_at(
        &mut self,
        session_name: &str,
        shell: &str,
        working_directory: &str,
        id: String,
        now: Timestamp,
    ) -> (r: Result<(), SessionError>)
        ensures
            match r {
                Ok(_) => !old(self).recording && final(self)@ == old(self)@.started(
                    new_info(id@, session_name@, shell@, working_directory@, now@),
                    now@,
                ),
                Err(e) => old(self).recording && e is AlreadyRecording && final(self)@ == old(self)@,
            },
    {
        if self.recording {
            return Err(SessionError::AlreadyRecording);
        }
        let info = SessionInfo {
            id,
            name: session_name.to_owned(),
            created_at: now,
            updated_at: now,
            duration: 0,
            shell: shell.to_owned(),
            working_directory: working_directory.to_owned(),
            tags: Vec::new(),
            is_complete: false,
            command_count: 0,
            file_path: None,
        };
        assert(info@.tags =~= seq![]);
        self.current_session = Some(info);
        self.current_events = Vec::new();
        self.recording = true;
        assert(self@.events =~= seq![]);
        self.add_event_at(SessionEventType::System, "Session started", Vec::new(), now);
        assert(table::entries(Seq::empty()) =~= seq![]);
        assert(self@.events =~= seq![system_event("Session started"@, now@)]);
        Ok(())
    }

    /// Whether one more command can be counted.
    pub fn can_count(&self) -> (r: bool)
        ensures
            r == self@.can_count(),
    {
        !self.recording || match &self.current_session {
            Some(info) => info.command_count < usize::MAX,
            None => true,
        }
    }

    /// Adds an event at the clock's moment, if a session is being recorded.
    pub fn add_event(
        &mut self,
        event_type: SessionEventType,
        content: &str,
        metadata: Option<Vec<(String, String)>>,
    )
        requires
            event_type == SessionEventType::Command ==> old(self)@.can_count(),
        ensures
            !old(self).recording ==> final(self)@ == old(self)@,
            old(self).recording ==> exists|now: (int, int)|
                #[trigger] time::is_moment(now.0, now.1) && final(self)@ == old(self)@.add(
                    EventView {
                        event_type,
                        at: now,
                        content: content@,
                        metadata: opt_entries(metadata),
                    },
                ),
    {
        if !self.recording {
            return ;
        }
        let fields: Vec<(String, String)> = match metadata {
            Some(m) => m,
            None => {
                assert(table::entries(Seq::empty()) =~= seq![]);
                Vec::new()
            },
        };
        let now = Timestamp::now();
        self.add_event_at(event_type, content, fields, now);
    }

    /// Adds an event at the given moment, if a session is being recorded.
    pub fn add_event_at(
        &mut self,
        event_type: SessionEventType,
        content: &str,
        metadata: Vec<(String, String)>,
        now: Timestamp,
    )
        requires
            event_type == SessionEventType::Command ==> old(self)@.can_count(),
        ensures
            final(self)@ == old(self)@.add(
                EventView {
                    event_type,
                    at: now@,
                    content: content@,
                    metadata: table::entries(metadata@),
                },
            ),
    {
        if !self.recording {
            return ;
        }
        let event = SessionEvent {
            event_type,
            timestamp: now,
            content: content.to_owned(),
            metadata,
        };
        self.current_events.push(event);
        assert(event_views(self.current_events@) =~= old(self)@.events.push(event@));
        if event_type == SessionEventType::Command {
            match self.current_session.take() {
                Some(mut info) => {
                    info.command_count = info.command_count + 1;
                    self.current_session = Some(info);
                },
                None => {},
            }
        }
    }
}

/// Where a command or an input was given.
pub open spec fn cwd_entries(cwd: Option<&str>) -> Seq<(Seq<char>, Seq<char>)> {
    match cwd {
        Some(dir) => seq![("cwd"@, dir@)],
        None => seq![],
    }
}

/// A truth value as text.
pub open spec fn bool_text(b: bool) -> Seq<char> {
    if b {
        "true"@
    } else {
        "false"@
    }
}

/// The event for an input.
pub open spec fn input_event(input: Seq<char>, cwd: Option<&str>, now: (int, int)) -> EventView {
    EventView {
        event_type: SessionEventType::Input,
        at: now,
        content: input,
        metadata: cwd_entries(cwd),
    }
}

/// The event for a piece of output.
pub open spec fn output_event(output: terminal::OutputView, now: (int, int)) -> EventView {
    EventView {
        event_type: SessionEventType::Output,
        at: now,
        content: output.content,
        metadata: seq![("is_control"@, bool_text(output.is_control))],
    }
}

/// The event for a command, given at the time of day `clock`.
pub open spec fn command_event(
    command: Seq<char>,
    cwd: Option<&str>,
    clock: Seq<char>,
    now: (int, int),
) -> EventView {
    EventView {
        event_type: SessionEventType::Command,
        at: now,
        content: command,
        metadata: cwd_entries(cwd).push(("timestamp"@, clock)),
    }
}

/// The event for a change of size.
pub open spec fn resize_event(cols: u16, rows: u16, now: (int, int)) -> EventView {
    EventView {
        event_type: SessionEventType::Resize,
        at: now,
        content: text::decimal(cols as nat) + "x"@ + text::decimal(rows as nat),
        metadata: seq![
            ("cols"@, text::decimal(cols as nat)),
            ("rows"@, text::decimal(rows as nat)),
        ],
    }
}

/// Where a command or an input was given, as metadata.
fn cwd_table(cwd: Option<&str>) -> (r: Vec<(String, String)>)
    ensures
        table::entries(r@) == cwd_entries(cwd),
{
    let mut t: Vec<(String, String)> = Vec::new();
    if let Some(dir) = cwd {
        t.push(("cwd".to_owned(), dir.to_owned()));
    }
    assert(table::entries(t@) =~= cwd_entries(cwd));
    t
}

impl SessionManager {
    /// Records terminal input.
    pub fn record_input(&mut self, input: &str, cwd: Option<&str>)
        ensures
            !old(self).recording ==> final(self)@ == old(self)@,
            old(self).recording ==> exists|now: (int, int)|
                #[trigger] time::is_moment(now.0, now.1) && final(self)@ == old(self)@.add(
                    input_event(input@, cwd, now),
                ),
    {
        let t = cwd_table(cwd);
        self.add_event(SessionEventType::Input, input, Some(t));
    }

    /// Records terminal output.
    pub fn record_output(&mut self, output: &TerminalOutput)
        ensures
            !old(self).recording ==> final(self)@ == old(self)@,
            old(self).recording ==> exists|now: (int, int)|
                #[trigger] time::is_moment(now.0, now.1) && final(self)@ == old(self)@.add(
                    output_event(output@, now),
                ),
    {
        let mut t: Vec<(String, String)> = Vec::new();
        let value = if output.is_control {
            "true".to_owned()
        } else {
            "false".to_owned()
        };
        t.push(("is_control".to_owned(), value));
        assert(table::entries(t@) =~= seq![("is_control"@, bool_text(output.is_control))]);
        self.add_event(SessionEventType::Output, output.content.as_str(), Some(t));
    }

    /// Records a command execution.
    pub fn record_command(&mut self, command: &str, cwd: Option<&str>)
        requires
            old(self)@.can_count(),
        ensures
            !old(self).recording ==> final(self)@ == old(self)@,
            old(self).recording ==> exists|now: (int, int), clock: Seq<char>|
                #[trigger] time::is_moment(now.0, now.1) && #[trigger] time::is_clock_text(clock)
                    && final(self)@ == old(self)@.add(command_event(command@, cwd, clock, now)),
    {
        let mut t = cwd_table(cwd);
        let clock = time::local_clock();
        let ghost before = table::entries(t@);
        let ghost c = clock@;
        t.push(("timestamp".to_owned(), clock));
        assert(table::entries(t@) =~= before.push(("timestamp"@, c)));
        assert(time::is_clock_text(c));
        self.add_event(SessionEventType::Command, command, Some(t));
    }

    /// Records a terminal resize event.
    pub fn record_resize(&mut self, cols: u16, rows: u16)
        ensures
            !old(self).recording ==> final(self)@ == old(self)@,
            old(self).recording ==> exists|now: (int, int)|
                #[trigger] time::is_moment(now.0, now.1) && final(self)@ == old(self)@.add(
                    resize_event(cols, rows, now),
                ),
    {
        let c = text::decimal_of(cols as u64);
        let r = text::decimal_of(rows as u64);
        let content = c.clone().concat("x").concat(r.as_str());
        let mut t: Vec<(String, String)> = Vec::new();
        t.push(("cols".to_owned(), c));
        t.push(("rows".to_owned(), r));
        assert(table::entries(t@) =~= seq![
            ("cols"@, text::decimal(cols as nat)),
            ("rows"@, text::decimal(rows as nat)),
        ]);
        self.add_event(SessionEventType::Resize, content.as_str(), Some(t));
    }

    /// Ends the current recording session at the clock's moment: the session
    /// as it is to be written to its file. Recording goes on until
    /// `recording_saved` says that it was written.
    pub fn stop_recording(&mut self, elapsed_secs: u64) -> (r: Result<SessionData, SessionError>)
        ensures
            r is Ok <==> old(self).recording && old(self).current_session is Some,
            match r {
                Ok(data) => exists|now: (int, int)|
                    #[trigger] time::is_moment(now.0, now.1) && ended(
                        old(self)@,
                        final(self)@,
                        data@,
                        elapsed_secs,
                        now,
                    ),
                Err(e) => if old(self).recording {
                    &&& e is NoActiveSession
                    &&& exists|now: (int, int)|
                        #[trigger] time::is_moment(now.0, now.1) && final(self)@ == old(self)@.add(
                            system_event("Session ended"@, now),
                        )
                } else {
                    e is NoActiveRecording && final(self)@ == old(self)@
                },
            },
    {
        let now = Timestamp::now();
        self.stop_recording_at(elapsed_secs, now)
    }

    /// Ends the current recording session at the given moment.
    pub fn stop_recording_at(&mut self, elapsed_secs: u64, now: Timestamp) -> (r: Result<
        SessionData,
        SessionError,
    >)
        ensures
            match r {
                Ok(data) => old(self).recording && old(self).current_session is Some && ended(
                    old(self)@,
                    final(self)@,
                    data@,
                    elapsed_secs,
                    now@,
                ),
                Err(e) => if old(self).recording {
                    &&& old(self).current_session is None
                    &&& e is NoActiveSession
                    &&& final(self)@ == old(self)@.add(system_event("Session ended"@, now@))
                } else {
                    e is NoActiveRecording && final(self)@ == old(self)@
                },
            },
    {
        if !self.recording {
            return Err(SessionError::NoActiveRecording);
        }
        assert(table::entries(Seq::empty()) =~= seq![]);
        self.add_event_at(SessionEventType::System, "Session ended", Vec::new(), now);
        match self.current_session.take() {
            None => Err(SessionError::NoActiveSession),
            Some(mut info) => {
                info.updated_at = now;
                info.duration = elapsed_secs;
                info.is_complete = true;
                let file_name = info.created_at.stamp().concat("-").concat(
                    info.id.as_str(),
                ).concat(".").concat(LOG_EXTENSION);
                info.file_path = Some(
                    paths::join_paths(self.session_dir.as_str(), file_name.as_str()),
                );
                let data = SessionData {
                    info: info.clone(),
                    events: copy_events(&self.current_events),
                };
                self.current_session = Some(info);
                Ok(data)
            },
        }
    }

    /// Ends the recording once its session was written.
    pub fn recording_saved(&mut self)
        ensures
            final(self)@ == (ManagerView { recording: false, ..old(self)@ }),
    {
        self.recording = false;
    }

    /// Whether a file found in the session directory holds a session.
    pub fn is_session_file(path: &str, is_file: bool) -> (r: bool)
        ensures
            r == (is_file && paths::extension(path@) == Some(LOG_EXTENSION@)),
    {
        if !is_file {
            return false;
        }
        match paths::extension_of(path) {
            Some(ext) => text::same_text(ext.as_str(), LOG_EXTENSION),
            None => false,
        }
    }

    /// Whether a session file may be deleted.
    pub fn delete_session(&self, session_path: &str, exists: bool, is_file: bool) -> (r: Result<
        (),
        SessionError,
    >)
        ensures
            match r {
                Ok(_) => exists && is_file && paths::extension(session_path@) == Some(
                    LOG_EXTENSION@,
                ),
                Err(SessionError::FileNotFound(p)) => !exists && p@ == session_path@,
                Err(SessionError::NotASessionFile(p)) => exists && p@ == session_path@ && !(is_file
                    && paths::extension(session_path@) == Some(LOG_EXTENSION@)),
                Err(_) => false,
            },
    {
        if !exists {
            return Err(SessionError::FileNotFound(session_path.to_owned()));
        }
        if !Self::is_session_file(session_path, is_file) {
            return Err(SessionError::NotASessionFile(session_path.to_owned()));
        }
        Ok(())
    }

    /// Checks session data: it needs an id.
    pub fn validate_session_data(&self, data: &SessionData) -> (r: Result<(), SessionError>)
        ensures
            match r {
                Ok(_) => data.info.id@.len() > 0,
                Err(e) => data.info.id@.len() == 0 && e is MissingId,
            },
    {
        if data.info.id.as_str().is_empty() {
            return Err(SessionError::MissingId);
        }
        Ok(())
    }

    /// Takes over a session read from the file at `path`.
    pub fn load_session(&self, path: &str, data: SessionData) -> (r: Result<
        SessionData,
        SessionError,
    >)
        ensures
            match r {
                Ok(d) => data.info.id@.len() > 0 && d@ == data@.loaded_from(path@),
                Err(e) => data.info.id@.len() == 0 && e is MissingId,
            },
    {
        let mut loaded = data;
        loaded.info.file_path = Some(path.to_owned());
        match self.validate_session_data(&loaded) {
            Ok(_) => Ok(loaded),
            Err(e) => Err(e),
        }
    }

    /// The sessions to list, out of those found with their paths: the newest
    /// first, and no more than the history holds.
    pub fn list_sessions(&self, found: Vec<(String, SessionInfo)>) -> (r: Vec<SessionInfo>)
        ensures
            info_views(r@) == history(found_infos(found@)),
    {
        let ghost all = found_infos(found@);
        let mut sorted: Vec<SessionInfo> = Vec::new();
        let mut i: usize = 0;
        assert(all.take(0) =~= seq![]);
        assert(info_views(sorted@) =~= newest_first(all.take(0)));
        while i < found.len()
            invariant
                i <= found@.len(),
                all == found_infos(found@),
                info_views(sorted@) == newest_first(all.take(i as int)),
            decreases found@.len() - i,
        {
            let mut info = found[i].1.clone();
            info.file_path = Some(found[i].0.clone());
            let ghost t = info_views(sorted@);
            let ghost x = info@;
            assert(x == all[i as int]);
            assert(all.take(i + 1).drop_last() =~= all.take(i as int));
            let mut k: usize = 0;
            while k < sorted.len() && !info.created_at.is_after(&sorted[k].created_at)
                invariant
                    k <= sorted@.len(),
                    t == info_views(sorted@),
                    x == info@,
                    forall|j: int|
                        0 <= j < k ==> !time::after(x.created_at, #[trigger] t[j].created_at),
                decreases sorted@.len() - k,
            {
                k += 1;
            }
            proof {
                if k < sorted@.len() {
                    assert(t[k as int].created_at == sorted@[k as int].created_at@);
                }
                lemma_rank_is(t, x, k as int);
            }
            sorted.insert(k, info);
            assert(info_views(sorted@) =~= placed(t, x));
            i += 1;
        }
        assert(all.take(i as int) =~= all);
        if sorted.len() > MAX_SESSION_HISTORY {
            let ghost full = sorted@;
            sorted.truncate(MAX_SESSION_HISTORY);
            assert(info_views(sorted@) =~= info_views(full).take(MAX_SESSION_HISTORY as int));
        }
        sorted
    }
}

/// How the manager and the session handed out stand after the end of a
/// recording.
pub open spec fn ended(
    before: ManagerView,
    after: ManagerView,
    data: DataView,
    duration: u64,
    now: (int, int),
) -> bool {
    match before.session {
        Some(info) => {
            &&& after == ManagerView {
                session: Some(before.finished_info(info, duration, now)),
                ..before.add(system_event("Session ended"@, now))
            }
            &&& data.info == before.finished_info(info, duration, now)
            &&& data.events == before.events.push(system_event("Session ended"@, now))
        },
        None => false,
    }
}

/// What a list of sessions holds.
pub open spec fn info_views(v: Seq<SessionInfo>) -> Seq<InfoView> {
    v.map_values(|i: SessionInfo| i@)
}

/// The sessions found, each with the path that it was found at.
pub open spec fn found_infos(found: Seq<(String, SessionInfo)>) -> Seq<InfoView> {
    found.map_values(
        |f: (String, SessionInfo)| InfoView { file_path: Some(f.0@), ..f.1@ },
    )
}

/// How many of the leading sessions are not older than `x`.
pub open spec fn rank(t: Seq<InfoView>, x: InfoView) -> int
    decreases t.len(),
{
    if t.len() == 0 || time::after(x.created_at, t.first().created_at) {
        0
    } else {
        1 + rank(t.drop_first(), x)
    }
}

/// `x` put before the first session that is older.
pub open spec fn placed(t: Seq<InfoView>, x: InfoView) -> Seq<InfoView> {
    t.take(rank(t, x)).push(x) + t.skip(rank(t, x))
}

/// The sessions by the date they were created, the newest first; those of the
/// same date in the order they came in.
pub open spec fn newest_first(v: Seq<InfoView>) -> Seq<InfoView>
    decreases v.len(),
{
    if v.len() == 0 {
        seq![]
    } else {
        placed(newest_first(v.drop_last()), v.last())
    }
}

/// The newest sessions, as many as the history holds.
pub open spec fn history(v: Seq<InfoView>) -> Seq<InfoView> {
    let sorted = newest_first(v);
    if sorted.len() > MAX_SESSION_HISTORY {
        sorted.take(MAX_SESSION_HISTORY as int)
    } else {
        sorted
    }
}

/// The first place of a session older than `x` is its rank.
proof fn lemma_rank_is(t: Seq<InfoView>, x: InfoView, k: int)
    requires
        0 <= k <= t.len(),
        forall|j: int| 0 <= j < k ==> !time::after(x.created_at, #[trigger] t[j].created_at),
        k < t.len() ==> time::after(x.created_at, t[k].created_at),
    ensures
        rank(t, x) == k,
    decreases t.len(),
{
    if t.len() > 0 && k > 0 {
        assert(!time::after(x.created_at, t[0].created_at));
        let u = t.drop_first();
        assert forall|j: int| 0 <= j < k - 1 implies !time::after(
            x.created_at,
            #[trigger] u[j].created_at,
        ) by {
            assert(!time::after(x.created_at, t[j + 1].created_at));
        }
        lemma_rank_is(u, x, k - 1);
    }
}

/// What the rank says.
proof fn lemma_rank(t: Seq<InfoView>, x: InfoView)
    ensures
        0 <= rank(t, x) <= t.len(),
        forall|j: int|
            0 <= j < rank(t, x) ==> !time::after(x.created_at, #[trigger] t[j].created_at),
        rank(t, x) < t.len() ==> time::after(x.created_at, t[rank(t, x)].created_at),
    decreases t.len(),
{
    if t.len() > 0 && !time::after(x.created_at, t.first().created_at) {
        let u = t.drop_first();
        lemma_rank(u, x);
        assert forall|j: int| 0 <= j < rank(t, x) implies !time::after(
            x.created_at,
            #[trigger] t[j].created_at,
        ) by {
            if j > 0 {
                assert(t[j] == u[j - 1]);
            }
        }
    }
}

/// Whether no session comes before a newer one.
pub open spec fn is_newest_first(t: Seq<InfoView>) -> bool {
    forall|i: int, j: int|
        0 <= i < j < t.len() ==> !time::after(
            #[trigger] t[j].created_at,
            #[trigger] t[i].created_at,
        )
}

/// Sorting the sessions loses none and adds none, and no session comes before
/// a newer one.
pub proof fn law_sessions_are_sorted(v: Seq<InfoView>)
    ensures
        newest_first(v).to_multiset() == v.to_multiset(),
        newest_first(v).len() == v.len(),
        is_newest_first(newest_first(v)),
    decreases v.len(),
{
    broadcast use vstd::seq_lib::group_to_multiset_ensures;

    if v.len() > 0 {
        let t = newest_first(v.drop_last());
        let x = v.last();
        law_sessions_are_sorted(v.drop_last());
        lemma_rank(t, x);
        let k = rank(t, x);
        let s = placed(t, x);
        assert(s =~= t.insert(k, x));
        vstd::seq_lib::to_multiset_insert(t, k, x);
        assert(v =~= v.drop_last().push(x));
        assert forall|i: int, j: int| 0 <= i < j < s.len() implies !time::after(
            #[trigger] s[j].created_at,
            #[trigger] s[i].created_at,
        ) by {
            if j < k {
                assert(s[i] == t[i] && s[j] == t[j]);
            } else if j == k {
                assert(s[i] == t[i]);
            } else if i < k {
                assert(s[i] == t[i] && s[j] == t[j - 1]);
            } else if i == k {
                assert(s[j] == t[j - 1]);
                assert(time::after(x.created_at, t[k].created_at));
                assert(!time::after(t[j - 1].created_at, t[k].created_at) || j - 1 == k);
            } else {
                assert(s[i] == t[i - 1] && s[j] == t[j - 1]);
            }
        }
    } else {
        assert(newest_first(v) =~= v);
    }
}

/// The sessions of one date, in their order.
pub open spec fn created_at(v: Seq<InfoView>, date: (int, int)) -> Seq<InfoView> {
    v.filter(|i: InfoView| i.created_at == date)
}

/// No session of a date among sessions of other dates.
proof fn lemma_none_created_at(v: Seq<InfoView>, date: (int, int))
    requires
        forall|i: int| 0 <= i < v.len() ==> (#[trigger] v[i]).created_at != date,
    ensures
        created_at(v, date) == Seq::<InfoView>::empty(),
    decreases v.len(),
{
    reveal(Seq::filter);
    if v.len() > 0 {
        let rest = v.drop_last();
        assert forall|i: int| 0 <= i < rest.len() implies (#[trigger] rest[i]).created_at
            != date by {
            assert(rest[i] == v[i]);
        }
        lemma_none_created_at(rest, date);
        assert(v[v.len() - 1].created_at != date);
    }
}

/// Sessions of the same date keep the order that they came in.
pub proof fn law_same_date_keeps_order(v: Seq<InfoView>, date: (int, int))
    ensures
        created_at(newest_first(v), date) == created_at(v, date),
    decreases v.len(),
{
    reveal(Seq::filter);
    let f = |i: InfoView| i.created_at == date;
    if v.len() > 0 {
        let t = newest_first(v.drop_last());
        let x = v.last();
        law_same_date_keeps_order(v.drop_last(), date);
        law_sessions_are_sorted(v.drop_last());
        lemma_rank(t, x);
        let k = rank(t, x);
        let head = t.take(k);
        let tail = t.skip(k);
        assert(t =~= head + tail);
        assert(placed(t, x) =~= head + (seq![x] + tail));
        Seq::filter_distributes_over_add(head, tail, f);
        Seq::filter_distributes_over_add(head, seq![x] + tail, f);
        Seq::filter_distributes_over_add(seq![x], tail, f);
        assert(seq![x].drop_last() =~= seq![]);
        if x.created_at == date {
            assert forall|i: int| 0 <= i < tail.len() implies (#[trigger] tail[i]).created_at
                != date by {
                assert(time::after(x.created_at, t[k].created_at));
                if i > 0 {
                    assert(!time::after(t[k + i].created_at, t[k].created_at));
                }
            }
            lemma_none_created_at(tail, date);
            assert(created_at(tail, date) =~= seq![]);
            assert(seq![x].filter(f) =~= seq![x]);
            assert(created_at(newest_first(v), date) =~= head.filter(f).push(x));
            assert(created_at(v, date) =~= head.filter(f).push(x));
        } else {
            lemma_none_created_at(seq![x], date);
            assert(created_at(newest_first(v), date) =~= head.filter(f) + tail.filter(f));
        }
    } else {
        assert(newest_first(v) =~= v);
    }
}

/// The history holds no more than its limit, and leaves out only sessions that
/// are no newer than those it holds.
pub proof fn law_history_keeps_the_newest(v: Seq<InfoView>)
    ensures
        history(v).len() <= MAX_SESSION_HISTORY,
        v.len() <= MAX_SESSION_HISTORY ==> history(v) == newest_first(v),
        history(v).is_prefix_of(newest_first(v)),
        forall|i: int, j: int|
            0 <= i < history(v).len() && history(v).len() <= j < v.len() ==> !time::after(
                #[trigger] newest_first(v)[j].created_at,
                #[trigger] history(v)[i].created_at,
            ),
{
    law_sessions_are_sorted(v);
}

/// The time of day that a command was given at; empty where it is not known.
pub open spec fn command_clock(e: EventView) -> Seq<char> {
    match table::lookup(e.metadata, "timestamp"@) {
        Some(clock) => clock,
        None => seq![],
    }
}

/// The text of a command as it is shown: the time of day that it was given
/// at, and the command.
pub open spec fn command_line(e: EventView) -> Seq<char> {
    "["@ + command_clock(e) + "] $ "@ + e.content
}

/// The output that an event is replayed as; none for events that are skipped.
pub open spec fn replayed(e: EventView) -> Option<terminal::OutputView> {
    match e.event_type {
        SessionEventType::Output => Some(
            terminal::OutputView {
                content: e.content,
                is_control: table::lookup(e.metadata, "is_control"@) == Some("true"@),
                csi_params: None,
                csi_action: None,
            },
        ),
        SessionEventType::Input => Some(terminal::plain_output("Input: "@ + e.content)),
        SessionEventType::Command => Some(terminal::plain_output(command_line(e))),
        _ => None,
    }
}

/// The milliseconds to wait before an event is replayed, at normal speed. An
/// event with a moment before that of the event ahead of it follows at once.
pub open spec fn replay_delay(events: Seq<EventView>, pos: int) -> int {
    if pos == 0 {
        0
    } else {
        let millis = time::millis_between(events[pos].at, events[pos - 1].at);
        if millis >= 0 {
            millis
        } else {
            0
        }
    }
}

/// What a `ReplayStatus` holds.
pub struct StatusView {
    pub state: ReplayState,
    pub position: usize,
    pub total_events: usize,
    pub session_info: InfoView,
    pub current_event: Option<EventView>,
    pub progress_percent: u8,
    pub error: Option<Seq<char>>,
}

impl View for ReplayStatus {
    type V = StatusView;

    open spec fn view(&self) -> StatusView {
        StatusView {
            state: self.state,
            position: self.position,
            total_events: self.total_events,
            session_info: self.session_info@,
            current_event: match self.current_event {
                Some(e) => Some(e@),
                None => None,
            },
            progress_percent: self.progress_percent,
            error: opt_view(self.error),
        }
    }
}

/// The status before the first event is replayed.
pub open spec fn status_at_start(info: InfoView, total: usize) -> StatusView {
    StatusView {
        state: ReplayState::Playing,
        position: 0,
        total_events: total,
        session_info: info,
        current_event: None,
        progress_percent: 0,
        error: None,
    }
}

/// The status once the event at `pos` has been replayed.
pub open spec fn status_after(
    info: InfoView,
    events: Seq<EventView>,
    pos: int,
    progress: u8,
) -> StatusView {
    StatusView {
        state: ReplayState::Playing,
        position: pos as usize,
        total_events: events.len() as usize,
        session_info: info,
        current_event: Some(events[pos]),
        progress_percent: progress,
        error: None,
    }
}

/// The status once all events have been replayed.
pub open spec fn status_at_end(info: InfoView, total: usize) -> StatusView {
    StatusView {
        state: ReplayState::Stopped,
        position: total,
        total_events: total,
        session_info: info,
        current_event: None,
        progress_percent: 100,
        error: None,
    }
}

/// What to do for one event of a replay.
#[derive(Debug)]
pub struct ReplayStep {
    /// The milliseconds to wait before it, at normal speed.
    pub delay_ms: u64,
    /// The output to send, if any.
    pub output: Option<TerminalOutput>,
}

/// How a replay goes on.
#[derive(Debug, Clone, Copy, PartialEq, Eq, Structural)]
pub enum ReplayMove {
    /// The next event is replayed.
    Play,
    /// Nothing is replayed for now.
    Hold,
    /// The replay is over.
    End,
}

/// How a replay goes on before the event at `pos`: a stopped one is over, as is
/// one without further events; one that is paused, or still on its way to a
/// position, waits.
pub open spec fn next_move(state: ReplayState, pos: int, total: int) -> ReplayMove {
    if state == ReplayState::Stopped || pos >= total {
        ReplayMove::End
    } else if state == ReplayState::Playing {
        ReplayMove::Play
    } else {
        ReplayMove::Hold
    }
}

/// The status of a replay that was stopped before the event at `pos`.
pub open spec fn status_at_stop(
    info: InfoView,
    total: usize,
    pos: usize,
    progress: u8,
) -> StatusView {
    StatusView {
        state: ReplayState::Stopped,
        position: pos,
        total_events: total,
        session_info: info,
        current_event: None,
        progress_percent: progress,
        error: None,
    }
}

/// The time of day that a command was given at; empty where it is not known.
pub fn command_clock_of(e: &SessionEvent) -> (r: String)
    ensures
        r@ == command_clock(e@),
{
    match table::find(&e.metadata, "timestamp") {
        Some(c) => c.clone(),
        None => String::new(),
    }
}

/// The text of a command as it is shown.
pub fn command_line_of(e: &SessionEvent) -> (r: String)
    ensures
        r@ == command_line(e@),
{
    let clock = command_clock_of(e);
    "[".to_owned().concat(clock.as_str()).concat("] $ ").concat(e.content.as_str())
}

impl SessionEvent {
    /// The output that the event is replayed as; none for events that are
    /// skipped.
    pub fn replay_output(&self) -> (r: Option<TerminalOutput>)
        ensures
            match r {
                Some(o) => replayed(self@) == Some(o@),
                None => replayed(self@) is None,
            },
    {
        match self.event_type {
            SessionEventType::Output => {
                let is_control = match table::find(&self.metadata, "is_control") {
                    Some(v) => text::same_text(v.as_str(), "true"),
                    None => false,
                };
                Some(
                    TerminalOutput {
                        content: self.content.clone(),
                        is_control,
                        csi_params: None,
                        csi_action: None,
                    },
                )
            },
            SessionEventType::Input => Some(
                terminal::plain("Input: ".to_owned().concat(self.content.as_str())),
            ),
            SessionEventType::Command => Some(terminal::plain(command_line_of(self))),
            _ => None,
        }
    }
}

impl SessionManager {
    /// Notes that there is a channel for the output of replayed sessions.
    pub fn set_output_channel(&mut self)
        ensures
            final(self)@ == (ManagerView { has_output: true, ..old(self)@ }),
    {
        self.has_output = true;
    }

    /// Refuses a replay while another one is on.
    pub fn can_replay(&self) -> (r: Result<(), SessionError>)
        ensures
            match r {
                Ok(_) => !self.is_replay,
                Err(e) => self.is_replay && e is AlreadyReplaying,
            },
    {
        if self.is_replay {
            return Err(SessionError::AlreadyReplaying);
        }
        Ok(())
    }

    /// Starts replaying a session read from the file at `session_path`: the
    /// first status to send.
    pub fn start_replay(&mut self, session_path: &str, data: SessionData) -> (r: Result<
        ReplayStatus,
        SessionError,
    >)
        ensures
            match r {
                Ok(status) => {
                    let loaded = data@.loaded_from(session_path@);
                    &&& !old(self).is_replay && data.info.id@.len() > 0 && old(self).has_output
                    &&& final(self)@ == old(self)@.replaying(loaded)
                    &&& status@ == status_at_start(loaded.info, data.events@.len() as usize)
                },
                Err(e) => final(self)@ == old(self)@ && match e {
                    SessionError::AlreadyReplaying => old(self).is_replay,
                    SessionError::MissingId => !old(self).is_replay && data.info.id@.len() == 0,
                    SessionError::NoOutputChannel => !old(self).is_replay && data.info.id@.len() > 0
                        && !old(self).has_output,
                    _ => false,
                },
            },
    {
        if let Err(e) = self.can_replay() {
            return Err(e);
        }
        let loaded = match self.load_session(session_path, data) {
            Ok(d) => d,
            Err(e) => return Err(e),
        };
        if !self.has_output {
            return Err(SessionError::NoOutputChannel);
        }
        let info = loaded.info.clone();
        assert(event_views(loaded.events@).len() == event_views(data.events@).len());
        let status = ReplayStatus {
            state: ReplayState::Playing,
            position: 0,
            total_events: loaded.events.len(),
            session_info: info,
            current_event: None,
            progress_percent: 0,
            error: None,
        };
        self.current_session = Some(loaded.info);
        self.current_events = loaded.events;
        self.is_replay = true;
        self.replay_state = ReplayState::Playing;
        self.replay_position = 0;
        Ok(status)
    }

    /// How a replay goes on before the event at `pos`.
    pub fn replay_move(state: ReplayState, pos: usize, total_events: usize) -> (r: ReplayMove)
        ensures
            r == next_move(state, pos as int, total_events as int),
    {
        if state == ReplayState::Stopped || pos >= total_events {
            ReplayMove::End
        } else if state == ReplayState::Playing {
            ReplayMove::Play
        } else {
            ReplayMove::Hold
        }
    }

    /// What to do for the event at `pos`.
    pub fn replay_step(events: &Vec<SessionEvent>, pos: usize) -> (r: ReplayStep)
        requires
            pos < events@.len(),
        ensures
            r.delay_ms == replay_delay(event_views(events@), pos as int),
            match r.output {
                Some(o) => replayed(events@[pos as int]@) == Some(o@),
                None => replayed(events@[pos as int]@) is None,
            },
    {
        let delay_ms: u64 = if pos == 0 {
            0
        } else {
            let millis: i64 = events[pos].timestamp.millis_since(&events[pos - 1].timestamp);
            if millis >= 0 {
                millis as u64
            } else {
                0
            }
        };
        ReplayStep { delay_ms, output: events[pos].replay_output() }
    }

    /// The status to send once the event at `pos` has been replayed.
    pub fn replay_status(
        info: &SessionInfo,
        events: &Vec<SessionEvent>,
        pos: usize,
        progress_percent: u8,
    ) -> (r: ReplayStatus)
        requires
            pos < events@.len(),
        ensures
            r@ == status_after(info@, event_views(events@), pos as int, progress_percent),
    {
        ReplayStatus {
            state: ReplayState::Playing,
            position: pos,
            total_events: events.len(),
            session_info: info.clone(),
            current_event: Some(events[pos].clone()),
            progress_percent,
            error: None,
        }
    }

    /// The status to send once all events have been replayed.
    pub fn replay_end(info: &SessionInfo, total_events: usize) -> (r: ReplayStatus)
        ensures
            r@ == status_at_end(info@, total_events),
    {
        ReplayStatus {
            state: ReplayState::Stopped,
            position: total_events,
            total_events,
            session_info: info.clone(),
            current_event: None,
            progress_percent: 100,
            error: None,
        }
    }

    /// The status to send when the replay is over before the event at `pos`:
    /// with all events replayed, or stopped.
    pub fn replay_over(
        info: &SessionInfo,
        total_events: usize,
        pos: usize,
        progress_percent: u8,
    ) -> (r: ReplayStatus)
        ensures
            r@ == if pos >= total_events {
                status_at_end(info@, total_events)
            } else {
                status_at_stop(info@, total_events, pos, progress_percent)
            },
    {
        if pos >= total_events {
            return Self::replay_end(info, total_events);
        }
        ReplayStatus {
            state: ReplayState::Stopped,
            position: pos,
            total_events,
            session_info: info.clone(),
            current_event: None,
            progress_percent,
            error: None,
        }
    }

    /// Pauses or resumes the replay.
    pub fn toggle_replay_pause(&mut self) -> (r: Result<ReplayState, SessionError>)
        ensures
            match r {
                Ok(state) => {
                    &&& old(self).is_replay
                    &&& toggled(old(self).replay_state) == Some(state)
                    &&& final(self)@ == (ManagerView { replay_state: state, ..old(self)@ })
                },
                Err(e) => final(self)@ == old(self)@ && match e {
                    SessionError::NoActiveReplay => !old(self).is_replay,
                    SessionError::InvalidReplayState => old(self).is_replay && toggled(
                        old(self).replay_state,
                    ) is None,
                    _ => false,
                },
            },
    {
        if !self.is_replay {
            return Err(SessionError::NoActiveReplay);
        }
        match self.replay_state {
            ReplayState::Playing => {
                self.replay_state = ReplayState::Paused;
            },
            ReplayState::Paused => {
                self.replay_state = ReplayState::Playing;
            },
            _ => {
                return Err(SessionError::InvalidReplayState);
            },
        }
        Ok(self.replay_state)
    }

    /// Stops the current replay.
    pub fn stop_replay(&mut self) -> (r: Result<(), SessionError>)
        ensures
            match r {
                Ok(_) => old(self).is_replay && final(self)@ == (ManagerView {
                    is_replay: false,
                    replay_state: ReplayState::Stopped,
                    replay_position: 0,
                    ..old(self)@
                }),
                Err(e) => !old(self).is_replay && e is NoActiveReplay && final(self)@ == old(self)@,
            },
    {
        if !self.is_replay {
            return Err(SessionError::NoActiveReplay);
        }
        self.is_replay = false;
        self.replay_state = ReplayState::Stopped;
        self.replay_position = 0;
        Ok(())
    }
}

/// The state after pausing or resuming, where that is possible.
pub open spec fn toggled(state: ReplayState) -> Option<ReplayState> {
    match state {
        ReplayState::Playing => Some(ReplayState::Paused),
        ReplayState::Paused => Some(ReplayState::Playing),
        _ => None,
    }
}

/// Pausing and resuming undo each other.
pub proof fn law_toggle_undoes_itself(state: ReplayState)
    ensures
        match toggled(state) {
            Some(other) => toggled(other) == Some(state) && other != state,
            None => state is Stopped || state is Seeking,
        },
{
}

/// A replay that has just started can be paused.
pub proof fn law_started_replay_can_be_paused(m: ManagerView, data: DataView)
    ensures
        m.replaying(data).is_replay,
        toggled(m.replaying(data).replay_state) == Some(ReplayState::Paused),
{
}

/// A replay that is paused waits, and goes on where it was once it is resumed;
/// one that was stopped is over.
pub proof fn law_replay_heeds_its_state(state: ReplayState, pos: int, total: int)
    requires
        0 <= pos < total,
    ensures
        next_move(state, pos, total) == ReplayMove::Play <==> state == ReplayState::Playing,
        next_move(state, pos, total) == ReplayMove::End <==> state == ReplayState::Stopped,
        match toggled(state) {
            Some(other) => next_move(state, pos, total) != next_move(other, pos, total) && (
            next_move(state, pos, total) == ReplayMove::Hold || next_move(other, pos, total)
                == ReplayMove::Hold),
            None => next_move(state, pos, total) != ReplayMove::Play,
        },
        next_move(state, total, total) == ReplayMove::End,
{
}

/// A recorded piece of output is replayed with the same text and the same
/// mark, whatever moment it was recorded at.
pub proof fn law_recorded_output_is_replayed(output: terminal::OutputView, now: (int, int))
    ensures
        match replayed(output_event(output, now)) {
            Some(o) => o.content == output.content && o.is_control == output.is_control,
            None => false,
        },
{
    let e = output_event(output, now);
    assert(e.metadata[0].0 == "is_control"@);
    reveal_strlit("true");
    reveal_strlit("false");
    assert(table::lookup(e.metadata, "is_control"@) == Some(bool_text(output.is_control)));
    assert("true"@.len() != "false"@.len());
}

/// A recorded command is shown with the time of day that it was given at.
pub proof fn law_recorded_command_is_shown(
    command: Seq<char>,
    cwd: Option<&str>,
    clock: Seq<char>,
    now: (int, int),
)
    ensures
        command_line(command_event(command, cwd, clock, now)) == "["@ + clock + "] $ "@ + command,
{
    let m = command_event(command, cwd, clock, now).metadata;
    reveal_strlit("cwd");
    reveal_strlit("timestamp");
    assert("cwd"@.len() != "timestamp"@.len());
    reveal_with_fuel(table::lookup, 3);
    if cwd is Some {
        assert(m.drop_first() =~= seq![("timestamp"@, clock)]);
    } else {
        assert(m =~= seq![("timestamp"@, clock)]);
    }
}

/// The number of commands among some events.
pub open spec fn commands(events: Seq<EventView>) -> nat
    decreases events.len(),
{
    if events.len() == 0 {
        0
    } else {
        commands(events.drop_last()) + (if events.last().event_type == SessionEventType::Command {
            1nat
        } else {
            0
        })
    }
}

/// Whether the command count of the session is that of its events.
pub open spec fn counts_match(m: ManagerView) -> bool {
    m.recording ==> match m.session {
        Some(info) => info.command_count == commands(m.events),
        None => true,
    }
}

/// The command count of a recording is right when it starts, and stays right
/// with every event.
pub proof fn law_command_count_is_right(
    m: ManagerView,
    id: Seq<char>,
    name: Seq<char>,
    shell: Seq<char>,
    dir: Seq<char>,
    now: (int, int),
    e: EventView,
)
    ensures
        counts_match(m.started(new_info(id, name, shell, dir, now), now)),
        counts_match(m) && m.can_count() ==> counts_match(m.add(e)),
{
    let s = m.started(new_info(id, name, shell, dir, now), now);
    reveal_with_fuel(commands, 2);
    assert(s.events.drop_last() =~= seq![]);
    assert(m.events.push(e).drop_last() =~= m.events);
}

/// A manager that does not record changes nothing; one that does keeps all
/// earlier events and puts the new one last.
pub proof fn law_events_are_only_added(m: ManagerView, e: EventView)
    ensures
        !m.recording ==> m.add(e) == m,
        m.recording ==> m.add(e).events == m.events.push(e),
        m.add(e).recording == m.recording,
        m.add(e).is_replay == m.is_replay && m.add(e).replay_state == m.replay_state,
{
}

/// The file that a recorded session is written to is taken for a session file
/// when sessions are listed or deleted, whatever its directory and moment.
pub proof fn law_recorded_session_is_a_session_file(
    m: ManagerView,
    info: InfoView,
    stamp: Seq<char>,
    tag: Seq<char>,
    duration: u64,
    now: (int, int),
)
    requires
        is_tag(tag),
        info.id == session_id(stamp, tag),
    ensures
        match m.finished_info(info, duration, now).file_path {
            Some(p) => paths::extension(p) == Some(LOG_EXTENSION@),
            None => false,
        },
{
    let c = tag.last();
    let before = time::utc_stamp(info.created_at.0, info.created_at.1) + "-"@ + (stamp + "-"@
        + tag.drop_last());
    reveal_strlit("term");
    reveal_strlit(".");
    assert("."@ =~= seq!['.']);
    assert(tag =~= tag.drop_last().push(c));
    assert(c == tag[31]);
    assert(session_file(info) =~= before.push(c).push('.') + LOG_EXTENSION@);
    paths::lemma_extension_of_joined(m.session_dir, before, c, LOG_EXTENSION@);
}

/// The metadata that is recorded with an event has no name twice.
pub proof fn law_recorded_names_differ(
    content: Seq<char>,
    cwd: Option<&str>,
    clock: Seq<char>,
    output: terminal::OutputView,
    cols: u16,
    rows: u16,
    now: (int, int),
)
    ensures
        table::distinct(input_event(content, cwd, now).metadata),
        table::distinct(output_event(output, now).metadata),
        table::distinct(command_event(content, cwd, clock, now).metadata),
        table::distinct(resize_event(cols, rows, now).metadata),
        table::distinct(system_event(content, now).metadata),
{
    reveal_strlit("cwd");
    reveal_strlit("timestamp");
    reveal_strlit("cols");
    reveal_strlit("rows");
    assert("cwd"@.len() != "timestamp"@.len());
    assert("cols"@[0] != "rows"@[0]);
    assert(command_event(content, cwd, clock, now).metadata.len() == 2 ==> command_event(
        content,
        cwd,
        clock,
        now,
    ).metadata[0].0 == "cwd"@);
}

/// A manager with some events added, one after the other.
pub open spec fn add_all(m: ManagerView, events: Seq<EventView>) -> ManagerView
    decreases events.len(),
{
    if events.len() == 0 {
        m
    } else {
        add_all(m, events.drop_last()).add(events.last())
    }
}

/// Whatever events follow the start of a recording, the session has them all in
/// their order behind its first one, and its command count is the number of
/// commands among them, as long as that can be counted. While nothing is being
/// recorded they change nothing.
pub proof fn law_recording_holds_every_event(
    m: ManagerView,
    info: InfoView,
    now: (int, int),
    events: Seq<EventView>,
)
    requires
        info.command_count == 0,
        commands(events) <= usize::MAX,
    ensures
        ({
            let r = add_all(m.started(info, now), events);
            &&& r.recording
            &&& r.events == seq![system_event("Session started"@, now)] + events
            &&& r.session == Some(InfoView { command_count: commands(events) as usize, ..info })
            &&& commands(r.events) == commands(events)
        }),
        !m.recording ==> add_all(m, events) == m,
    decreases events.len(),
{
    let first = seq![system_event("Session started"@, now)];
    reveal_with_fuel(commands, 2);
    assert(first.drop_last() =~= seq![]);
    if events.len() == 0 {
        assert(first + events =~= first);
        assert(info == InfoView { command_count: commands(events) as usize, ..info });
    } else {
        law_recording_holds_every_event(m, info, now, events.drop_last());
        assert((first + events).drop_last() =~= first + events.drop_last());
        assert(first + events =~= (first + events.drop_last()).push(events.last()));
    }
}

/// A recorded session is loaded as it was recorded: read back from its file,
/// which holds all but its own path, it has the information that it was saved
/// with, and its events with the note of the end as the last one. It has the id
/// that it was started with, which is never empty, so that it is not refused.
pub proof fn law_recorded_session_is_loaded(
    before: ManagerView,
    after: ManagerView,
    saved: DataView,
    duration: u64,
    now: (int, int),
    stamp: Seq<char>,
    tag: Seq<char>,
)
    requires
        ended(before, after, saved, duration, now),
    ensures
        match saved.info.file_path {
            Some(path) => {
                let loaded = saved.stored().loaded_from(path);
                &&& loaded == saved
                &&& loaded.info.is_complete
                &&& Some(loaded.info) == after.session
                &&& loaded.events == before.events.push(system_event("Session ended"@, now))
            },
            None => false,
        },
        match before.session {
            Some(info) => saved.info.id == info.id,
            None => false,
        },
        session_id(stamp, tag).len() > 0,
{
    reveal_strlit("-");
}

/// A session begins with what it is given, at the moment it begins: not
/// complete, without tags, commands or a file, and with the note of its start as
/// its only event. Nothing else of the manager changes but that it records.
pub proof fn law_session_begins(
    m: ManagerView,
    id: Seq<char>,
    name: Seq<char>,
    shell: Seq<char>,
    dir: Seq<char>,
    now: (int, int),
)
    ensures
        ({
            let info = new_info(id, name, shell, dir, now);
            let after = m.started(info, now);
            &&& info.id == id && info.name == name
            &&& info.shell == shell && info.working_directory == dir
            &&& info.created_at == now && info.updated_at == now && info.duration == 0
            &&& !info.is_complete && info.command_count == 0
            &&& info.tags.len() == 0 && info.file_path is None
            &&& after.session == Some(info)
            &&& after.recording
            &&& after.events.len() == 1
            &&& after.events[0].event_type == SessionEventType::System
            &&& after.events[0].content == "Session started"@
            &&& after.events[0].at == now && after.events[0].metadata.len() == 0
            &&& after.session_dir == m.session_dir && after.is_replay == m.is_replay
            &&& after.has_output == m.has_output && after.replay_state == m.replay_state
            &&& after.replay_position == m.replay_position
        }),
{
}

/// At its end a session is complete, with its duration, the moment of its end
/// and a file below the session directory that is named after the moment of its
/// start and its id; all else about it stays as it was recorded.
pub proof fn law_session_ends(
    before: ManagerView,
    after: ManagerView,
    saved: DataView,
    info: InfoView,
    duration: u64,
    now: (int, int),
)
    requires
        ended(before, after, saved, duration, now),
        before.session == Some(info),
    ensures
        saved.info.is_complete && saved.info.duration == duration && saved.info.updated_at == now,
        saved.info.id == info.id && saved.info.name == info.name,
        saved.info.shell == info.shell && saved.info.working_directory == info.working_directory,
        saved.info.created_at == info.created_at && saved.info.tags == info.tags,
        saved.info.file_path == Some(
            paths::join(
                before.session_dir,
                time::utc_stamp(info.created_at.0, info.created_at.1) + seq!['-'] + info.id + seq![
                    '.',
                    't',
                    'e',
                    'r',
                    'm',
                ],
            ),
        ),
        before.recording ==> after.session == Some(saved.info) && after.events == saved.events,
        saved.events.len() == before.events.len() + 1,
        forall|i: int| 0 <= i < before.events.len() ==> #[trigger] saved.events[i] == before.events[i],
        saved.events.last().event_type == SessionEventType::System,
        saved.events.last().content == "Session ended"@ && saved.events.last().at == now,
        saved.events.last().metadata.len() == 0,
        after.session_dir == before.session_dir && after.recording == before.recording,
{
    reveal_strlit("-");
    reveal_strlit(".");
    reveal_strlit("term");
    assert("-"@ =~= seq!['-']);
    let stamp = time::utc_stamp(info.created_at.0, info.created_at.1);
    assert(session_file(info) =~= stamp + seq!['-'] + info.id + seq!['.', 't', 'e', 'r', 'm']);
}

/// What is recorded is told as it was: what was typed, put out or commanded, or
/// the size, with its kind and its moment, and beside it where that was, whether
/// it was a control sequence, or the two numbers of the size.
pub proof fn law_events_tell_what_happened(
    content: Seq<char>,
    dir: &str,
    clock: Seq<char>,
    output: terminal::OutputView,
    cols: u16,
    rows: u16,
    now: (int, int),
)
    ensures
        ({
            let e = input_event(content, Some(dir), now);
            &&& e.event_type == SessionEventType::Input && e.content == content && e.at == now
            &&& table::lookup(e.metadata, "cwd"@) == Some(dir@)
            &&& e.metadata.len() == 1 && input_event(content, None, now).metadata.len() == 0
            &&& input_event(content, None, now).content == content
        }),
        ({
            let e = output_event(output, now);
            &&& e.event_type == SessionEventType::Output && e.content == output.content && e.at == now
            &&& e.metadata.len() == 1
            &&& table::lookup(e.metadata, "is_control"@) == Some(
                if output.is_control {
                    "true"@
                } else {
                    "false"@
                },
            )
        }),
        ({
            let e = command_event(content, Some(dir), clock, now);
            let f = command_event(content, None, clock, now);
            &&& e.event_type == SessionEventType::Command && e.content == content && e.at == now
            &&& f.event_type == SessionEventType::Command && f.content == content && f.at == now
            &&& e.metadata.len() == 2 && f.metadata.len() == 1
            &&& table::lookup(e.metadata, "cwd"@) == Some(dir@)
            &&& table::lookup(e.metadata, "timestamp"@) == Some(clock)
            &&& table::lookup(f.metadata, "timestamp"@) == Some(clock)
        }),
        ({
            let e = resize_event(cols, rows, now);
            let sides = text::split_char(e.content, 'x');
            &&& e.event_type == SessionEventType::Resize && e.at == now && e.metadata.len() == 2
            &&& sides.len() == 2
            &&& text::number_of(sides[0]) == cols && text::number_of(sides[1]) == rows
            &&& table::lookup(e.metadata, "cols"@) == Some(sides[0])
            &&& table::lookup(e.metadata, "rows"@) == Some(sides[1])
        }),
{
    reveal_strlit("cwd");
    reveal_strlit("timestamp");
    reveal_strlit("is_control");
    reveal_strlit("cols");
    reveal_strlit("rows");
    reveal_strlit("x");
    reveal_with_fuel(table::lookup, 3);
    assert("cwd"@.len() != "timestamp"@.len());
    assert("cols"@[0] != "rows"@[0]);
    let e = input_event(content, Some(dir), now);
    assert(e.metadata.first() == ("cwd"@, dir@));
    let o = output_event(output, now);
    assert(o.metadata.first().0 == "is_control"@);
    let c = command_event(content, Some(dir), clock, now);
    assert(c.metadata.first() == ("cwd"@, dir@));
    assert(c.metadata.drop_first() =~= seq![("timestamp"@, clock)]);
    let f = command_event(content, None, clock, now);
    assert(f.metadata =~= seq![("timestamp"@, clock)]);
    let r = resize_event(cols, rows, now);
    let (a, b) = (text::decimal(cols as nat), text::decimal(rows as nat));
    assert(r.metadata.first() == ("cols"@, a));
    assert(r.metadata.drop_first() =~= seq![("rows"@, b)]);
    text::law_decimal_reads_back(cols as nat);
    text::law_decimal_reads_back(rows as nat);
    text::lemma_decimal_digits(cols as nat);
    text::lemma_decimal_digits(rows as nat);
    assert(!a.contains('x') && !b.contains('x')) by {
        if a.contains('x') {
            let i = choose|i: int| 0 <= i < a.len() && a[i] == 'x';
            assert('0' <= a[i] <= '9');
        }
        if b.contains('x') {
            let i = choose|i: int| 0 <= i < b.len() && b[i] == 'x';
            assert('0' <= b[i] <= '9');
        }
    }
    text::law_split_at_each_separator(a, b, 'x');
    text::law_split_at_each_separator(b, a, 'x');
    assert(r.content =~= a.push('x') + b);
    assert(text::split_char(r.content, 'x') =~= seq![a, b]);
}

/// Output is replayed as it was put out, input behind a word that says so, and a
/// command behind its time of day and a prompt, all as plain text but for control
/// sequences; notes and changes of size are not replayed.
pub proof fn law_events_are_replayed(e: EventView)
    ensures
        e.event_type == SessionEventType::Output ==> {
            &&& replayed(e) matches Some(o)
            &&& o.content == e.content
            &&& o.is_control <==> table::lookup(e.metadata, "is_control"@) == Some("true"@)
            &&& o.csi_params is None && o.csi_action is None
        },
        e.event_type == SessionEventType::Input ==> {
            &&& replayed(e) matches Some(o)
            &&& o.content == "Input: "@ + e.content
            &&& !o.is_control && o.csi_params is None && o.csi_action is None
        },
        e.event_type == SessionEventType::Command ==> {
            &&& replayed(e) matches Some(o)
            &&& o.content == seq!['['] + (match table::lookup(e.metadata, "timestamp"@) {
                Some(clock) => clock,
                None => seq![],
            }) + seq![']', ' ', '$', ' '] + e.content
            &&& !o.is_control && o.csi_params is None && o.csi_action is None
        },
        e.event_type == SessionEventType::System || e.event_type == SessionEventType::Resize
            ==> replayed(e) is None,
{
    reveal_strlit("[");
    reveal_strlit("] $ ");
    assert("["@ =~= seq!['[']);
    assert("] $ "@ =~= seq![']', ' ', '$', ' ']);
}

/// The wait before an event is the time since the one ahead of it where time goes
/// on, and none where it does not or where there is none ahead.
pub proof fn law_replay_waits(events: Seq<EventView>, pos: int)
    requires
        0 <= pos < events.len(),
    ensures
        replay_delay(events, pos) >= 0,
        pos == 0 ==> replay_delay(events, pos) == 0,
        pos > 0 && time::millis_between(events[pos].at, events[pos - 1].at) >= 0 ==> replay_delay(
            events,
            pos,
        ) == time::millis_between(events[pos].at, events[pos - 1].at),
        pos > 0 && time::millis_between(events[pos].at, events[pos - 1].at) <= 0 ==> replay_delay(
            events,
            pos,
        ) == 0,
{
}

/// The status of a replay tells where it stands: at its start before the first
/// event, after an event at that event, counted from 0, and at its end behind the
/// last, with all of it done. It always tells the session and how long it is.
pub proof fn law_status_tells_the_position(
    info: InfoView,
    events: Seq<EventView>,
    pos: usize,
    total: usize,
    progress: u8,
)
    requires
        pos < events.len() <= usize::MAX,
    ensures
        ({
            let s = status_at_start(info, total);
            &&& s.state == ReplayState::Playing && s.position == 0 && s.progress_percent == 0
            &&& s.total_events == total && s.session_info == info
            &&& s.current_event is None && s.error is None
        }),
        ({
            let s = status_after(info, events, pos as int, progress);
            &&& s.state == ReplayState::Playing && s.position == pos
            &&& s.total_events == events.len() && s.session_info == info
            &&& s.current_event == Some(events[s.position as int])
            &&& s.progress_percent == progress && s.error is None
        }),
        ({
            let s = status_at_end(info, total);
            &&& s.state == ReplayState::Stopped && s.position == total && s.progress_percent == 100
            &&& s.total_events == total && s.session_info == info
            &&& s.current_event is None && s.error is None
        }),
        ({
            let s = status_at_stop(info, total, pos, progress);
            &&& s.state == ReplayState::Stopped && s.position == pos
            &&& s.total_events == total && s.session_info == info
            &&& s.progress_percent == progress && s.current_event is None && s.error is None
        }),
{
}

/// A replay takes over the whole session, from its first event on.
pub proof fn law_replay_takes_over_the_session(m: ManagerView, data: DataView, path: Seq<char>)
    ensures
        ({
            let after = m.replaying(data.loaded_from(path));
            &&& after.events == data.events
            &&& after.is_replay && after.replay_state == ReplayState::Playing
            &&& after.replay_position == 0
            &&& after.session matches Some(info) && info == (InfoView {
                file_path: Some(path),
                ..data.info
            })
            &&& after.session_dir == m.session_dir && after.recording == m.recording
            &&& after.has_output == m.has_output
        }),
{
}

/// The list shows fifty sessions at most, and all there are where there are no
/// more.
pub proof fn law_list_shows_fifty(v: Seq<InfoView>)
    ensures
        v.len() <= 50 ==> history(v).len() == v.len(),
        v.len() > 50 ==> history(v).len() == 50,
        forall|i: int, j: int|
            0 <= i < j < history(v).len() ==> {
                let (a, b) = (#[trigger] history(v)[i], #[trigger] history(v)[j]);
                a.created_at.0 >= b.created_at.0
            },
{
    law_sessions_are_sorted(v);
    let s = newest_first(v);
    assert forall|i: int, j: int| 0 <= i < j < history(v).len() implies {
        let (a, b) = (#[trigger] history(v)[i], #[trigger] history(v)[j]);
        a.created_at.0 >= b.created_at.0
    } by {
        assert(history(v)[i] == s[i] && history(v)[j] == s[j]);
        assert(!time::after(s[j].created_at, s[i].created_at));
    }
}

/// A manager at rest records nothing, replays nothing and holds no session.
pub proof fn law_manager_begins_at_rest(dir: Seq<char>)
    ensures
        ({
            let m = ManagerView::idle(dir);
            &&& m.session is None && m.events.len() == 0
            &&& m.session_dir == dir
            &&& !m.recording && !m.is_replay && !m.has_output
            &&& m.replay_state == ReplayState::Stopped && m.replay_position == 0
        }),
{
}

/// Sessions that were found stand in the order in which they were found, each as it
/// was recorded but for the path that it was found at.
pub proof fn law_found_sessions_know_their_file(found: Seq<(String, SessionInfo)>, i: int)
    requires
        0 <= i < found.len(),
    ensures
        found_infos(found).len() == found.len(),
        found_infos(found)[i].file_path == Some(found[i].0@),
        found_infos(found)[i].id == found[i].1@.id,
        found_infos(found)[i].name == found[i].1@.name,
        found_infos(found)[i].created_at == found[i].1@.created_at,
        found_infos(found)[i].updated_at == found[i].1@.updated_at,
        found_infos(found)[i].duration == found[i].1@.duration,
        found_infos(found)[i].shell == found[i].1@.shell,
        found_infos(found)[i].working_directory == found[i].1@.working_directory,
        found_infos(found)[i].command_count == found[i].1@.command_count,
        found_infos(found)[i].tags == found[i].1@.tags,
        found_infos(found)[i].is_complete == found[i].1@.is_complete,
{
}

/// An event is noted while a session is recorded, behind those before it, and a command
/// is counted; nothing is noted otherwise. Nothing else changes.
pub proof fn law_only_recording_notes(m: ManagerView, e: EventView, info: InfoView)
    ensures
        !m.recording ==> m.add(e) == m,
        m.recording ==> m.add(e).events == m.events.push(e),
        m.recording && m.session is None ==> m.add(e).session is None,
        m.recording && m.session == Some(info) && e.event_type != SessionEventType::Command
            ==> m.add(e).session == Some(info),
        m.recording && m.session == Some(info) && e.event_type == SessionEventType::Command
            && info.command_count < usize::MAX ==> m.add(e).session == Some(
            InfoView { command_count: (info.command_count + 1) as usize, ..info },
        ),
        m.add(e).session_dir == m.session_dir && m.add(e).recording == m.recording,
        m.add(e).is_replay == m.is_replay && m.add(e).has_output == m.has_output,
        m.add(e).replay_state == m.replay_state,
        m.add(e).replay_position == m.replay_position,
        m.can_count() <==> !m.recording || m.session is None || m.session->Some_0.command_count
            < usize::MAX,
{
}

} // verus!
