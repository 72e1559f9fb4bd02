use supaterm::terminal;
use supaterm::time::Timestamp;
use supaterm::tui::{
    chat_offset, execute_shell_command, overlay_area, overlay_fits, prefix_of, render_diff, App,
    ChatSender, InputMode, KeyAction, KeyCode, KeyPress, Modifiers,
};

fn key(code: KeyCode) -> KeyPress {
    KeyPress { code, modifiers: Modifiers::Plain }
}

fn ctrl(c: char) -> KeyPress {
    KeyPress { code: KeyCode::Char(c), modifiers: Modifiers::Control }
}

fn press(app: &mut App, k: KeyPress) -> Option<String> {
    assert!(app.can_press(k));
    match app.handle_key(k) {
        KeyAction::Nothing => None,
        KeyAction::Send(c) => Some(c),
    }
}

fn write(app: &mut App, s: &str) {
    for c in s.chars() {
        press(app, key(KeyCode::Char(c)));
    }
}

#[test]
fn typing_edits_the_input() {
    let mut app = App::new();
    write(&mut app, "lz");
    press(&mut app, key(KeyCode::Backspace));
    write(&mut app, "s");
    assert_eq!((app.input_buffer.as_str(), app.cursor_position), ("ls", 2));
    press(&mut app, key(KeyCode::Left));
    press(&mut app, key(KeyCode::Left));
    press(&mut app, key(KeyCode::Left));
    assert_eq!(app.cursor_position, 0);
    press(&mut app, key(KeyCode::Backspace));
    press(&mut app, key(KeyCode::Delete));
    assert_eq!(app.input_buffer, "s");
    press(&mut app, key(KeyCode::Right));
    press(&mut app, key(KeyCode::Right));
    press(&mut app, key(KeyCode::Delete));
    assert_eq!((app.input_buffer.as_str(), app.cursor_position), ("s", 1));
    press(&mut app, ctrl('x'));
    press(&mut app, key(KeyCode::Other));
    assert_eq!(app.input_buffer, "sx");
}

#[test]
fn backspace_takes_back_any_character() {
    for c in ['a', 'ä', '€', '😀'] {
        let mut app = App::new();
        write(&mut app, "ab");
        press(&mut app, key(KeyCode::Left));
        press(&mut app, key(KeyCode::Char(c)));
        press(&mut app, key(KeyCode::Backspace));
        assert_eq!((app.input_buffer.as_str(), app.cursor_position), ("ab", 1));
    }
}

#[test]
fn the_cursor_counts_bytes() {
    let mut app = App::new();
    write(&mut app, "ä");
    assert_eq!(app.cursor_position, 1);
    assert!(!app.can_press(key(KeyCode::Char('b'))));
    assert!(!app.can_press(key(KeyCode::Delete)));
    press(&mut app, key(KeyCode::Right));
    assert!(!app.can_press(key(KeyCode::Backspace)));
    write(&mut app, "b");
    assert_eq!(app.input_buffer, "äb");
}

#[test]
fn enter_sends_a_command() {
    let mut app = App::new();
    assert_eq!(press(&mut app, key(KeyCode::Enter)), None);
    assert!(app.terminal_buffer.is_empty());
    write(&mut app, "pwd");
    assert_eq!(press(&mut app, key(KeyCode::Enter)), Some("pwd".to_string()));
    assert_eq!(app.input_buffer, "pwd");
    app.command_sent();
    assert_eq!((app.input_buffer.as_str(), app.cursor_position), ("", 0));
    assert_eq!(app.terminal_buffer, vec!["> pwd"]);
}

#[test]
fn new_projects_open_the_scaffold() {
    let mut app = App::new();
    write(&mut app, "@new web");
    assert_eq!(press(&mut app, key(KeyCode::Enter)), None);
    assert_eq!(app.input_mode, InputMode::Scaffold);
    assert!(app.ai_chat.visible);
    assert_eq!(app.ai_chat.input, "@new web");
    assert_eq!((app.input_buffer.as_str(), app.cursor_position), ("", 0));
    assert_eq!(app.status_line(), "Mode: SCAFFOLD");
    press(&mut app, key(KeyCode::Esc));
    assert_eq!(app.input_mode, InputMode::Normal);
    assert!(!app.ai_chat.visible);
}

#[test]
fn control_keys_quit_and_open_the_chat() {
    let mut app = App::new();
    press(&mut app, ctrl('i'));
    assert_eq!(app.input_mode, InputMode::Ai);
    assert!(app.ai_chat.visible);
    assert_eq!(app.status_line(), "Mode: AI");
    press(&mut app, key(KeyCode::Esc));
    press(&mut app, ctrl('c'));
    assert!(app.should_quit);
    assert_eq!(app.input_buffer, "");
    write(&mut app, "c");
    assert_eq!(app.input_buffer, "c");
}

#[test]
fn the_chat_keeps_messages() {
    let mut app = App::new();
    press(&mut app, ctrl('i'));
    press(&mut app, key(KeyCode::Backspace));
    press(&mut app, key(KeyCode::Enter));
    assert!(app.ai_chat.messages.is_empty());
    write(&mut app, "hellö!");
    press(&mut app, key(KeyCode::Backspace));
    press(&mut app, KeyPress { code: KeyCode::Enter, modifiers: Modifiers::Other });
    assert_eq!(app.ai_chat.input, "hellö");
    assert_eq!(app.shown_input(), "hellö");
    assert_eq!(app.cursor_offset(), 6);
    assert_eq!(chat_offset(&app.ai_chat), 6);
    let sent = Timestamp::new(1, 0).unwrap();
    let answered = Timestamp::new(2, 0).unwrap();
    app.handle_key_at(key(KeyCode::Enter), sent, answered);
    assert_eq!(app.ai_chat.messages.len(), 2);
    assert_eq!(app.ai_chat.messages[0].sender, ChatSender::User);
    assert_eq!(app.ai_chat.messages[0].content, "hellö");
    assert_eq!(app.ai_chat.messages[0].timestamp.secs(), 1);
    assert_eq!(app.ai_chat.messages[1].content, "This is a placeholder AI response.");
    assert_eq!(app.ai_chat.messages[1].timestamp.secs(), 2);
    assert_eq!(app.ai_chat.input, "");
    app.send_ai_message("more".to_string());
    app.answer_ai_message();
    assert_eq!(app.ai_chat.messages.len(), 4);
    assert_eq!(app.ai_chat.messages[2].content, "more");
    assert_eq!(app.ai_chat.messages[3].sender, ChatSender::Ai);
    assert_eq!(prefix_of(ChatSender::User), "You: ");
    assert_eq!(prefix_of(ChatSender::Ai), "AI:  ");
}

#[test]
fn the_last_thousand_lines_are_kept() {
    let mut app = App::new();
    app.process_terminal_output(&terminal::plain("a\nb\n".to_string()));
    assert_eq!(app.terminal_buffer, vec!["a", "b", ""]);
    let many: Vec<String> = (0..1005).map(|i| i.to_string()).collect();
    app.process_terminal_output(&terminal::plain(many.join("\n")));
    assert_eq!(app.terminal_buffer.len(), 1000);
    assert_eq!(app.terminal_buffer[0], "5");
    assert_eq!(app.terminal_buffer[999], "1004");
}

#[test]
fn what_is_shown_in_normal_mode() {
    let mut app = App::new();
    write(&mut app, "abc");
    press(&mut app, key(KeyCode::Left));
    assert_eq!(app.status_line(), "Mode: NORMAL");
    assert_eq!(app.shown_input(), "abc");
    assert_eq!(app.cursor_offset(), 2);
}

#[test]
fn the_overlay_lies_on_the_screen() {
    assert!(overlay_fits(100, 50));
    let a = overlay_area(100, 55);
    assert_eq!((a.x, a.y, a.width, a.height), (10, 5, 80, 44));
    assert!(!overlay_fits(8192, 10));
    assert!(!overlay_fits(10, 8192));
}

#[test]
fn small_texts() {
    assert_eq!(
        render_diff("a", "b"),
        vec!["--- Original", "+++ Modified", "", "a", "", "b"]
    );
    assert_eq!(execute_shell_command("ls"), "Executed command: ls");
}
