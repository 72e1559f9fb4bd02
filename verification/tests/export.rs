use supaterm::export::{
    asciicast_document, asciicast_line, output_size, AsciicastEntry, ExportFormat, Rendering, SharingOptions,
};
use supaterm::session::{
    SessionData, SessionError, SessionEvent, SessionEventType, SessionInfo, SessionManager,
};
use supaterm::time::Timestamp;

fn event(kind: SessionEventType, millis: i64, content: &str) -> SessionEvent {
    SessionEvent {
        event_type: kind,
        timestamp: Timestamp::new(millis / 1000, (millis % 1000) as u32 * 1_000_000).unwrap(),
        content: content.to_string(),
        metadata: vec![],
    }
}

fn session() -> SessionData {
    let mut command = event(SessionEventType::Command, 2500, "echo <&>");
    command.metadata.push(("timestamp".to_string(), "22:13:20".to_string()));
    SessionData {
        info: SessionInfo {
            id: "1".to_string(),
            name: "demo".to_string(),
            created_at: Timestamp::new(1_700_000_000, 0).unwrap(),
            updated_at: Timestamp::new(1_700_000_000, 0).unwrap(),
            duration: 7,
            shell: "fish".to_string(),
            working_directory: "/work".to_string(),
            tags: vec![],
            is_complete: true,
            command_count: 1,
            file_path: None,
        },
        events: vec![
            event(SessionEventType::System, 0, "Session started"),
            event(SessionEventType::Output, 1000, "12"),
            event(SessionEventType::Input, 1500, "typed"),
            command,
            event(SessionEventType::Output, 2250, "<&\"'>ü"),
            event(SessionEventType::Resize, 3000, "80x24"),
        ],
    }
}

fn options(format: &str) -> SharingOptions {
    SharingOptions {
        include_output: true,
        include_timing: true,
        include_input: true,
        include_system_events: true,
        format: format.to_string(),
        encrypt: false,
        password: None,
        expiration: 0,
    }
}

#[test]
fn formats_have_names() {
    assert_eq!(ExportFormat::from("json"), ExportFormat::Json);
    assert_eq!(ExportFormat::from("TEXT"), ExportFormat::Text);
    assert_eq!(ExportFormat::from("Asciicast"), ExportFormat::Asciicast);
    assert_eq!(ExportFormat::from("markdown"), ExportFormat::Markdown);
    assert_eq!(ExportFormat::from("MD"), ExportFormat::Markdown);
    assert_eq!(ExportFormat::from("HTML"), ExportFormat::Html);
    assert_eq!(ExportFormat::from("pdf"), ExportFormat::Text);
}

#[test]
fn text_export() {
    let m = SessionManager::new(None);
    assert_eq!(
        m.export_as_text(&session()),
        "Terminal Session: demo\nRecorded: 2023-11-14 22:13:20 UTC\nDuration: 7 seconds\n----------------------------------------\n\n12\n[22:13:20] $ echo <&>\n<&\"'>ü\n"
    );
}

#[test]
fn markdown_export() {
    let m = SessionManager::new(None);
    assert_eq!(
        m.export_as_markdown(&session()),
        "# Terminal Session: demo\n\n- **Recorded**: 2023-11-14 22:13:20 UTC\n- **Duration**: 7 seconds\n- **Shell**: fish\n- **Working Directory**: /work\n\n## Terminal Transcript\n\n```\n12\n[22:13:20] $ echo <&>\n<&\"'>ü\n```\n"
    );
}

#[test]
fn html_export() {
    let m = SessionManager::new(None);
    let want = concat_lines(&[
        "<!DOCTYPE html>",
        "<html lang=\"en\">",
        "<head>",
        "  <meta charset=\"UTF-8\">",
        "  <meta name=\"viewport\" content=\"width=device-width, initial-scale=1.0\">",
        "  <title>Terminal Session: demo</title>",
        "  <style>",
        "    body { font-family: monospace; background: #222; color: #eee; margin: 20px; }",
        "    h1, h2 { color: #8ff; }",
        "    .info { color: #9cf; margin-bottom: 20px; }",
        "    .terminal { background: #000; border-radius: 5px; padding: 10px; white-space: pre-wrap; }",
        "    .command { color: #ff9; font-weight: bold; }",
        "    .timestamp { color: #999; }",
        "  </style>",
        "</head>",
        "<body>",
        "  <h1>Terminal Session: demo</h1>",
        "  <div class=\"info\">",
        "    <p><strong>Recorded:</strong> 2023-11-14 22:13:20 UTC</p>",
        "    <p><strong>Duration:</strong> 7 seconds</p>",
        "    <p><strong>Shell:</strong> fish</p>",
        "    <p><strong>Working Directory:</strong> /work</p>",
        "  </div>",
        "  <h2>Terminal Transcript</h2>",
        "  <div class=\"terminal\">",
        "12",
        "<span class=\"timestamp\">[22:13:20]</span> <span class=\"command\">$ echo &lt;&amp;&gt;</span>",
        "&lt;&amp;&quot;&#x27;&gt;ü",
        "  </div>",
        "</body>",
        "</html>",
    ]);
    assert_eq!(m.export_as_html(&session()), want);
}

fn concat_lines(lines: &[&str]) -> String {
    let mut out = String::new();
    for l in lines {
        out.push_str(l);
        out.push('\n');
    }
    out
}

#[test]
fn asciicast_export() {
    let m = SessionManager::new(None);
    let (header, entries) = m.export_as_asciicast(&session());
    assert_eq!((header.version, header.width, header.height), (2, 80, 24));
    assert_eq!((header.timestamp, header.duration), (1_700_000_000, 7));
    assert_eq!(header.title, "demo");
    assert!(header.env.is_empty());
    assert_eq!(entries.len(), 3);
    assert_eq!((entries[0].offset_millis, entries[0].is_command), (0, false));
    assert_eq!((entries[1].offset_millis, entries[1].is_command), (1500, true));
    assert_eq!((entries[2].offset_millis, entries[2].is_command), (-250, false));
    assert_eq!(entries[0].content, "12");
    let document = asciicast_document("{}", &entries);
    let lines: Vec<&str> = document.lines().collect();
    assert_eq!(lines.len(), 4);
    assert_eq!(lines[0], "{}");
    assert_eq!(lines[1], "[0.000,\"o\",\"12\"]");
    assert!(lines[2].starts_with("[1.500,\"i\",\""));
    assert!(lines[3].starts_with("[-0.250,\"o\",\""));
    assert_eq!(asciicast_document("{}", &vec![]), "{}\n");
}

#[test]
fn asciicast_lines_carry_the_text() {
    let entry = |millis: i64, content: &str| AsciicastEntry {
        offset_millis: millis,
        is_command: false,
        content: content.to_string(),
    };
    assert_eq!(asciicast_line(&entry(0, "hello")), "[0.000,\"o\",\"hello\"]");
    assert_eq!(asciicast_line(&entry(12_345_067, "")), "[12345.067,\"o\",\"\"]");
    assert_eq!(
        asciicast_line(&entry(5, "a\"\\\n\r\t\u{8}\u{c}\u{1b}[0m\u{7f}\u{1f}ä")),
        "[0.005,\"o\",\"a\\\"\\\\\\n\\r\\t\\b\\f\\u001b[0m\u{7f}\\u001fä\"]"
    );
    assert!(asciicast_line(&entry(i64::MIN, "x")).starts_with("[-9223372036854775.808,"));
    for n in 0..0x250u32 {
        let c = char::from_u32(n).unwrap();
        let line = asciicast_line(&entry(1, &c.to_string()));
        assert!(!line.contains('\n'));
        let value: serde_json::Value = serde_json::from_str(&line).unwrap();
        assert_eq!(value[2].as_str().unwrap(), c.to_string());
        assert_eq!(value[1].as_str().unwrap(), "o");
    }
}

#[test]
fn each_format_has_its_rendering() {
    let m = SessionManager::new(None);
    let s = session();
    assert!(matches!(m.export_session(&s, ExportFormat::Json), Rendering::Json));
    assert!(matches!(m.export_session(&s, ExportFormat::Asciicast), Rendering::Asciicast(_, e) if e.len() == 3));
    for format in [ExportFormat::Text, ExportFormat::Markdown, ExportFormat::Html] {
        match m.export_session(&s, format) {
            Rendering::Document(d) => assert!(d.contains("demo")),
            other => panic!("{:?}", other),
        }
    }
}

#[test]
fn sharing_leaves_out_what_is_not_wanted() {
    let m = SessionManager::new(None);
    let (all, _) = m.share_session(&session(), &options("text"));
    assert_eq!(all.events.len(), 6);
    let mut o = options("md");
    o.include_output = false;
    let (data, rendering) = m.share_session(&session(), &o);
    assert_eq!(data.events.len(), 4);
    match rendering {
        Rendering::Document(d) => assert!(d.ends_with("```\n[22:13:20] $ echo <&>\n```\n")),
        other => panic!("{:?}", other),
    }
    let mut o = options("json");
    o.include_input = false;
    o.include_system_events = false;
    let (data, rendering) = m.share_session(&session(), &o);
    let kinds: Vec<SessionEventType> = data.events.iter().map(|e| e.event_type).collect();
    assert_eq!(
        kinds,
        vec![
            SessionEventType::Output,
            SessionEventType::Command,
            SessionEventType::Output,
            SessionEventType::Resize
        ]
    );
    assert!(matches!(rendering, Rendering::Json));
}

#[test]
fn sealing_needs_a_password() {
    let mut o = options("text");
    assert_eq!(SessionManager::seal("hi".to_string(), &o).unwrap(), "hi");
    o.encrypt = true;
    let err = SessionManager::seal("hi".to_string(), &o).unwrap_err();
    assert!(matches!(err, SessionError::PasswordRequired));
    assert_eq!(err.message(), "Password required for encryption");
    o.password = Some("p".to_string());
    for (text, sealed) in [
        ("", "ENCRYPTED:"),
        ("M", "ENCRYPTED:TQ=="),
        ("Ma", "ENCRYPTED:TWE="),
        ("Man", "ENCRYPTED:TWFu"),
        ("Many hands", "ENCRYPTED:TWFueSBoYW5kcw=="),
        ("ü>?", "ENCRYPTED:w7w+Pw=="),
    ] {
        assert_eq!(SessionManager::seal(text.to_string(), &o).unwrap(), sealed);
    }
}

#[test]
fn statistics() {
    let m = SessionManager::new(None);
    let s = session();
    assert_eq!(output_size(&s.events), Some(9));
    let stats = m.get_session_stats(&s);
    let get = |name: &str| {
        stats.iter().find(|(n, _)| n == name).map(|(_, v)| v.as_str()).unwrap_or("?").to_string()
    };
    assert_eq!(stats.len(), 8);
    assert_eq!(get("name"), "demo");
    assert_eq!(get("created_at"), "2023-11-14 22:13:20 UTC");
    assert_eq!(get("duration"), "7");
    assert_eq!(get("shell"), "fish");
    assert_eq!(get("total_events"), "6");
    assert_eq!(get("command_count"), "1");
    assert_eq!(get("output_count"), "2");
    assert_eq!(get("output_size_bytes"), "9");
}
