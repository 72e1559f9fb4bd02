use supaterm::utils::config::{
    config_file, get_config_dir, Config, FileConfig, NoConfigDir, UiConfig,
};
use supaterm::utils::error::{format_error, ErrorKind};
use supaterm::utils::format::{format_markdown, Color, FormatStyle, Style};
use supaterm::utils::fs;
use supaterm::utils::term;
use supaterm::utils::test::{create_test_file, create_test_project, MockCommand, MockFile};

#[test]
fn errors_are_told_with_their_causes() {
    assert_eq!(format_error("top", &vec![]), "Error: top");
    assert_eq!(
        format_error("top", &vec!["mid".to_string(), "low".to_string()]),
        "Error: top\n  Caused by: mid\n    Caused by: low"
    );
}

#[test]
fn kinds_of_errors_have_names() {
    let all = [
        (ErrorKind::Config, "Configuration error"),
        (ErrorKind::Io, "I/O error"),
        (ErrorKind::Terminal, "Terminal error"),
        (ErrorKind::Api, "API error"),
        (ErrorKind::Auth, "Authentication error"),
        (ErrorKind::FileSystem, "File system error"),
        (ErrorKind::Unknown, "Unknown error"),
    ];
    for (kind, name) in all {
        assert_eq!(kind.to_text(), name);
    }
}

#[test]
fn styles_have_colors() {
    assert_eq!(Style::default().fg, None);
    assert_eq!(Style::default().fg(Color::Red).fg, Some(Color::Red));
    let all = [
        (FormatStyle::Regular, None),
        (FormatStyle::Heading, Some(Color::Yellow)),
        (FormatStyle::Error, Some(Color::Red)),
        (FormatStyle::Success, Some(Color::Green)),
        (FormatStyle::Warning, Some(Color::Yellow)),
        (FormatStyle::Info, Some(Color::Blue)),
        (FormatStyle::Command, Some(Color::Cyan)),
        (FormatStyle::Output, Some(Color::White)),
    ];
    for (style, color) in all {
        let s = style.to_style();
        assert_eq!(s.fg, color);
        assert_eq!((s.bg, s.bold, s.underline), (None, false, false));
    }
}

#[test]
fn markdown_becomes_plain() {
    assert_eq!(
        format_markdown("# One\n## Two\n- item\n```rust\ncode\n#none"),
        "\nOne\n\nTwo\n• item\n\ncode\n#none\n"
    );
    assert_eq!(format_markdown(""), "");
}

#[test]
fn paths_and_files() {
    assert!(fs::is_child_path(Some("/a"), Some("/a/b")));
    assert!(!fs::is_child_path(Some("/a"), Some("/ab")));
    assert!(!fs::is_child_path(None, Some("/a/b")));
    assert!(!fs::is_child_path(Some("/a"), None));
    assert_eq!(fs::find_files("/d", "*.rs"), "/d/*.rs");
    let found = vec![
        ("a".to_string(), true),
        ("b".to_string(), false),
        ("c".to_string(), true),
    ];
    assert_eq!(fs::find_directories(&found), vec!["a", "c"]);
    assert_eq!(fs::get_file_extension("x/y.tar.gz"), Some("gz".to_string()));
    assert_eq!(fs::get_file_extension("x/.hidden"), None);
    assert_eq!(fs::create_file_with_parents("a/b/c"), Some("a/b".to_string()));
}

#[test]
fn ages_of_files() {
    assert!(fs::is_file_older_than(10, 31, 20).unwrap());
    assert!(!fs::is_file_older_than(10, 30, 20).unwrap());
    assert_eq!(
        fs::is_file_older_than(31, 30, 0).unwrap_err().message(),
        "Failed to calculate file age"
    );
}

#[test]
fn backups_stand_beside_their_files() {
    let b = fs::backup_file("/d/x", true).unwrap();
    assert!(b.starts_with("/d/x.") && b.ends_with(".bak"));
    assert_eq!(fs::backup_file("/d/x", false).unwrap_err().message(), "File does not exist: /d/x");
    assert_eq!(supaterm::scaffold::backup_path_at("x", "s"), "x.s.bak");
    assert_eq!(supaterm::scaffold::backup_path_at("/d/x", "s"), "/d/x.s.bak");
}

#[test]
fn the_environment_is_looked_at() {
    assert_eq!(term::get_default_shell(Some("/bin/zsh")), "/bin/zsh");
    assert_eq!(term::get_default_shell(None), "/bin/bash");
    assert!(term::supports_ansi(true, Some("xterm")));
    assert!(!term::supports_ansi(true, Some("dumb")));
    assert!(!term::supports_ansi(true, None));
    assert!(!term::supports_ansi(false, Some("xterm")));
    assert!(term::validate_environment(true, true, Some("/bin/fish")).is_empty());
    assert!(term::validate_environment(true, true, None).is_empty());
    assert_eq!(
        term::validate_environment(false, false, Some("/bin/ksh")),
        vec![
            "OPENAI_API_KEY environment variable not set. AI features will be disabled.",
            "Terminal does not appear to support ANSI escape sequences. Display may be corrupted.",
            "Running in potentially unsupported shell: /bin/ksh. Best results with fish, bash, or zsh.",
        ]
    );
}

#[test]
fn log_levels_have_names() {
    assert_eq!(term::log_level("TRACE"), term::LogLevel::Trace);
    assert_eq!(term::log_level("Debug"), term::LogLevel::Debug);
    assert_eq!(term::log_level("info"), term::LogLevel::Info);
    assert_eq!(term::log_level("warn"), term::LogLevel::Warn);
    assert_eq!(term::log_level("error"), term::LogLevel::Error);
    assert_eq!(term::log_level("loud"), term::LogLevel::Info);
}

#[test]
fn the_configuration_is_put_together() {
    let ui = UiConfig::default();
    assert_eq!((ui.theme.as_str(), ui.font_size, ui.show_line_numbers), ("dark", 12, true));
    let mut c = Config::from_env(None, Some("k".to_string()), None);
    assert_eq!(c.terminal.shell, "/bin/bash");
    assert_eq!(c.ai.model, "gpt-4");
    c.override_with(None, None);
    assert_eq!(c.ai.api_key, Some("k".to_string()));
    c.override_with(Some("fish".to_string()), Some("other".to_string()));
    assert_eq!(c.terminal.shell, "fish");
    assert_eq!(c.ai.api_key, Some("other".to_string()));
    assert!(!c.ensure_shell(true, Some("/bin/zsh")));
    assert_eq!(c.terminal.shell, "fish");
    assert!(c.ensure_shell(false, Some("/bin/zsh")));
    assert_eq!(c.terminal.shell, "/bin/zsh");
    c.ai.max_tokens = None;
    c.ai.org_id = Some("o".to_string());
    let a = c.ai_client_config();
    assert_eq!(a.api_key, "other");
    assert_eq!(a.model, "gpt-4");
    assert_eq!(a.organization_id, Some("o".to_string()));
    assert_eq!(a.max_tokens, Some(2048));
    c.ai.max_tokens = Some(7);
    assert_eq!(c.ai_client_config().max_tokens, Some(7));
}

#[test]
fn a_configuration_file_may_leave_things_out() {
    let empty = FileConfig {
        shell: None,
        columns: None,
        rows: Some(40),
        api_key: None,
        model: None,
        org_id: None,
        max_tokens: None,
        ui: None,
    };
    let c = Config::from_file(empty, Config::from_env(Some("zsh"), Some("k".to_string()), None));
    assert_eq!((c.terminal.shell.as_str(), c.terminal.rows), ("zsh", Some(40)));
    assert_eq!((c.ai.model.as_str(), c.ai.api_key), ("gpt-4", None));
    assert_eq!(c.ui.theme, "dark");
    let full = FileConfig {
        shell: Some("fish".to_string()),
        columns: Some(80),
        rows: None,
        api_key: Some("a".to_string()),
        model: Some("m".to_string()),
        org_id: Some("o".to_string()),
        max_tokens: Some(5),
        ui: Some(UiConfig { theme: "light".to_string(), font_size: 9, show_line_numbers: false }),
    };
    let c = Config::from_file(full, Config::from_env(None, None, None));
    assert_eq!((c.terminal.shell.as_str(), c.terminal.columns), ("fish", Some(80)));
    assert_eq!((c.ai.model.as_str(), c.ai.max_tokens), ("m", Some(5)));
    assert_eq!((c.ui.theme.as_str(), c.ui.font_size), ("light", 9));
}

#[test]
fn the_configuration_has_a_place() {
    assert_eq!(get_config_dir(Some("/home/me/.config")).unwrap(), "/home/me/.config/supaterm");
    assert_eq!(get_config_dir(None), Err(NoConfigDir));
    assert_eq!(NoConfigDir.message(), "Could not determine config directory");
    assert_eq!(config_file("/c"), "/c/config.toml");
}

#[test]
fn mock_commands_return_what_they_are_told() {
    let c = MockCommand::new("git")
        .with_args(&["status", "-s"])
        .with_stdout("öut")
        .with_stderr("err")
        .with_exit_code(3);
    assert_eq!(c.command, "git");
    assert_eq!(c.args, vec!["status", "-s"]);
    let out = c.execute();
    assert_eq!(out.status, 3 << 8);
    assert_eq!(MockCommand::new("x").with_exit_code(1).execute().status, 256);
    assert_eq!(MockCommand::new("x").with_exit_code(-1).execute().status, 255 << 8);
    assert_eq!(MockCommand::new("x").with_exit_code(257).execute().status, 256);
    assert_eq!(out.stdout, "öut".as_bytes());
    assert_eq!(out.stderr, b"err");
    assert_eq!(MockCommand::new("x").execute().status, 0);
}

#[test]
fn mock_files_give_back_what_was_written() {
    let mut f = MockFile::new("/x", "old", false);
    assert_eq!(f.read().unwrap_err().message(), "File does not exist: /x");
    f.write("new");
    assert_eq!(f.read().unwrap(), "new");
    assert_eq!(MockFile::new("/x", "old", true).read().unwrap(), "old");
}

#[test]
fn the_test_project() {
    assert_eq!(create_test_file("/t", "a"), "/t/a");
    let (dirs, files) = create_test_project("/t");
    assert_eq!(dirs, vec!["/t/src", "/t/tests"]);
    let names: Vec<&str> = files.iter().map(|(p, _)| p.as_str()).collect();
    assert_eq!(
        names,
        vec!["/t/Cargo.toml", "/t/src/main.rs", "/t/src/lib.rs", "/t/tests/integration_test.rs"]
    );
    assert!(files[0].1.starts_with("[package]\nname = \"test_project\"\n"));
    assert!(files[2].1.contains("assert_eq!(add(2, 2), 4);"));
}
