use supaterm::terminal::{
    Config, InputStep, OutputStep, PtySize, ReadOutcome, ScreenSize, Terminal, VteHandler,
};

fn handler(rows: u16, cols: u16) -> VteHandler {
    VteHandler::new(PtySize { rows, cols, pixel_width: 0, pixel_height: 0 })
}

fn print(h: &mut VteHandler, s: &str) {
    for c in s.chars() {
        assert!(h.can_print());
        h.print(c);
    }
}

#[test]
fn printing_moves_the_cursor_and_wraps() {
    let mut h = handler(2, 3);
    print(&mut h, "ab");
    assert_eq!(h.cursor_pos, (0, 2));
    print(&mut h, "c");
    assert_eq!(h.cursor_pos, (1, 0));
    print(&mut h, "def");
    assert_eq!(h.cursor_pos, (1, 0));
    assert_eq!(h.current_line, "abcdef");
    h.flush_line_sync();
    let out = h.take_outputs();
    assert_eq!(out.len(), 1);
    assert_eq!(out[0].content, "abcdef");
    assert!(!out[0].is_control);
    h.flush_line_sync();
    assert!(h.take_outputs().is_empty());
}

#[test]
fn a_line_feed_puts_the_line_out() {
    let mut h = handler(2, 10);
    print(&mut h, "hi");
    assert!(h.can_execute(b'\n'));
    h.execute(b'\n');
    assert_eq!(h.cursor_pos, (1, 2));
    h.execute(b'\r');
    assert_eq!(h.cursor_pos, (1, 0));
    h.execute(0x0b);
    h.execute(0x0c);
    assert_eq!(h.cursor_pos, (1, 0));
    let out: Vec<String> = h.take_outputs().into_iter().map(|o| o.content).collect();
    assert_eq!(out, vec!["hi\n", "\r\n", "\n"]);
}

#[test]
fn a_tab_goes_to_the_next_stop() {
    let mut h = handler(4, 10);
    print(&mut h, "ab");
    h.execute(b'\t');
    assert_eq!(h.current_line, "ab      ");
    assert_eq!(h.cursor_pos, (0, 8));
    h.execute(b'\t');
    assert_eq!(h.cursor_pos, (1, 6));
}

#[test]
fn control_characters_show_themselves() {
    let mut h = handler(4, 10);
    h.execute(0x03);
    assert_eq!(h.current_line, "^C");
    assert_eq!(h.cursor_pos, (0, 2));
    h.execute(0x08);
    assert_eq!(h.current_line, "^");
    assert_eq!(h.cursor_pos, (0, 1));
    h.execute(0x07);
    h.execute(0x7f);
    assert_eq!(h.current_line, "^");
    h.execute(0x08);
    h.execute(0x08);
    assert_eq!(h.cursor_pos, (0, 0));
}

#[test]
fn cursor_sequences_move_the_cursor() {
    let mut h = handler(10, 20);
    let none: Vec<Vec<u16>> = vec![];
    h.csi_dispatch(&vec![vec![5], vec![7]], &vec![], false, 'H');
    assert_eq!(h.cursor_pos, (4, 6));
    h.csi_dispatch(&none, &vec![], false, 'A');
    assert_eq!(h.cursor_pos, (3, 6));
    h.csi_dispatch(&vec![vec![100]], &vec![], false, 'B');
    assert_eq!(h.cursor_pos, (9, 6));
    h.csi_dispatch(&vec![vec![100]], &vec![], false, 'C');
    assert_eq!(h.cursor_pos, (9, 19));
    h.csi_dispatch(&vec![vec![4]], &vec![], false, 'D');
    assert_eq!(h.cursor_pos, (9, 15));
    h.csi_dispatch(&vec![vec![0]], &vec![], false, 'B');
    assert_eq!(h.cursor_pos, (9, 15));
    assert!(!handler(0, 0).can_csi(&vec![vec![1]], 'B'));
}

#[test]
fn a_control_sequence_is_put_out_after_the_text() {
    let mut h = handler(10, 20);
    print(&mut h, "x");
    h.csi_dispatch(&vec![vec![38, 2], vec![1]], &vec![b'?'], false, 'm');
    let out = h.take_outputs();
    assert_eq!(out.len(), 2);
    assert_eq!(out[0].content, "x");
    assert_eq!(out[1].content, "\x1b[38:2;1?m");
    assert!(out[1].is_control);
    assert_eq!(out[1].csi_params, Some(vec![38, 1]));
    assert_eq!(out[1].csi_action, Some('m'));
}

#[test]
fn escape_sequences_move_and_are_put_out() {
    let mut h = handler(2, 5);
    assert!(h.can_esc(b'D'));
    h.esc_dispatch(&vec![], false, b'D');
    h.esc_dispatch(&vec![], false, b'D');
    assert_eq!(h.cursor_pos, (1, 0));
    h.esc_dispatch(&vec![], false, b'M');
    assert_eq!(h.cursor_pos, (0, 0));
    print(&mut h, "ab");
    h.esc_dispatch(&vec![b'('], false, b'c');
    assert_eq!(h.cursor_pos, (0, 0));
    let out: Vec<String> = h.take_outputs().into_iter().map(|o| o.content).collect();
    assert_eq!(out, vec!["\x1bD", "\x1bD", "\x1bM", "ab", "\x1b(c"]);
}

#[test]
fn operating_system_commands_are_passed_on_unless_handled() {
    let mut h = handler(2, 5);
    h.osc_dispatch(&vec![b"0".to_vec(), b"title".to_vec()], true);
    h.osc_dispatch(&vec![b"2".to_vec()], true);
    h.osc_dispatch(&vec![b"4".to_vec()], true);
    h.osc_dispatch(&vec![b"104".to_vec()], true);
    assert!(h.take_outputs().is_empty());
    h.osc_dispatch(&vec![b"8".to_vec(), "ü".as_bytes().to_vec(), vec![0xff]], true);
    h.osc_dispatch(&vec![b"9".to_vec()], false);
    let out: Vec<String> = h.take_outputs().into_iter().map(|o| o.content).collect();
    assert_eq!(out, vec!["\x1b]8;ü;\x07", "\x1b]9\x1b\\"]);
}

#[test]
fn a_device_string_comes_out_whole() {
    let mut h = handler(2, 5);
    h.hook(&vec![vec![1, 2], vec![3]], &vec![b'$'], false, 'q');
    h.put(b'a');
    h.print('b');
    h.unhook();
    let out = h.take_outputs();
    assert_eq!(out.len(), 1);
    assert_eq!(out[0].content, "\x1bq$1;2;3ab");
    assert!(out[0].is_control);
    assert!(!h.in_control_sequence);
    h.put(b'z');
    assert_eq!(h.current_line, "z");
}

#[test]
fn all_text_is_kept_in_order() {
    let mut h = handler(3, 4);
    print(&mut h, "one");
    h.csi_dispatch(&vec![], &vec![], false, 'K');
    print(&mut h, "two");
    h.execute(b'\n');
    print(&mut h, "three");
    h.flush_line_sync();
    let shown: String =
        h.take_outputs().into_iter().filter(|o| !o.is_control).map(|o| o.content).collect();
    assert_eq!(shown, "onetwo\nthree");
}

#[test]
fn the_size_can_change() {
    let mut h = handler(3, 4);
    h.set_terminal_size(PtySize { rows: 3, cols: 100, pixel_width: 0, pixel_height: 0 });
    print(&mut h, "wider than four");
    assert_eq!(h.cursor_pos, (0, 15));
}

#[test]
fn a_terminal_without_cells_cannot_print() {
    assert!(!handler(0, 0).can_print());
    assert!(!handler(0, 5).can_execute(b'\n'));
    assert!(!handler(5, 0).can_execute(b'\t'));
    assert!(handler(0, 0).can_execute(b'\r'));
}

#[test]
fn a_terminal_starts_its_shell() {
    assert_eq!(Config::default().shell, "fish");
    let mut t = Terminal::new(Config::default());
    assert!(t.running);
    assert_eq!(t.terminal_size.rows, 24);
    assert_eq!(t.terminal_size.cols, 80);
    assert_eq!(t.check_ready().unwrap_err(), "Terminal not fully initialized");
    assert!(t.restored_size().is_none());
    let screen = ScreenSize { rows: 50, cols: 120, xpixel: 0, ypixel: 0 };
    assert!(Terminal::can_init(&screen));
    let cmd = t.init(&screen, Some("/usr/bin/fish".to_string()), None);
    assert_eq!(cmd.program, "/usr/bin/fish");
    assert_eq!(cmd.args, vec!["--login"]);
    assert_eq!(cmd.env[0], ("TERM".to_string(), "xterm-256color".to_string()));
    assert_eq!(t.terminal_size.pixel_width, 960);
    assert_eq!(t.terminal_size.pixel_height, 800);
    assert!(t.check_ready().is_ok());
    assert_eq!(
        t.restored_size(),
        Some(ScreenSize { rows: 50, cols: 120, xpixel: 960, ypixel: 800 })
    );
    t.emergency_restore();
    assert!(!t.running);
    let cmd = t.init(&screen, None, Some("/tmp".to_string()));
    assert_eq!(cmd.program, "/bin/sh");
    assert_eq!(cmd.cwd, Some("/tmp".to_string()));
    assert!(!Terminal::can_init(&ScreenSize { rows: 5000, cols: 80, xpixel: 0, ypixel: 0 }));
}

#[test]
fn sizes_are_converted_both_ways() {
    let t = Terminal::new(Config { shell: "bash".to_string() });
    let p = PtySize { rows: 1, cols: 2, pixel_width: 3, pixel_height: 4 };
    let s = t.convert_pty_size(&p);
    assert_eq!(s, ScreenSize { rows: 1, cols: 2, xpixel: 3, ypixel: 4 });
    assert_eq!(t.convert_screen_size(&s), p);
    let big = ScreenSize { rows: 0x10001, cols: 2, xpixel: 3, ypixel: 4 };
    assert_eq!(t.convert_screen_size(&big).rows, 1);
    assert_eq!(
        Terminal::measured_or_default(None),
        ScreenSize { rows: 24, cols: 80, xpixel: 0, ypixel: 0 }
    );
    assert_eq!(Terminal::measured_or_default(Some(s)), s);
}

#[test]
fn tasks_go_on_while_the_terminal_runs() {
    assert_eq!(Terminal::output_step(true, ReadOutcome::Bytes), OutputStep::Feed);
    assert_eq!(Terminal::output_step(true, ReadOutcome::WouldBlock), OutputStep::Wait(10));
    assert_eq!(Terminal::output_step(true, ReadOutcome::Closed), OutputStep::Stop);
    assert_eq!(Terminal::output_step(true, ReadOutcome::Failed), OutputStep::Stop);
    assert_eq!(Terminal::output_step(false, ReadOutcome::Bytes), OutputStep::Stop);
    assert!(matches!(Terminal::input_step(false, "x".to_string()), InputStep::Stop));
    match Terminal::input_step(true, "ls".to_string()) {
        InputStep::Write(t) => assert_eq!(t, "ls\n"),
        InputStep::Stop => panic!("stopped"),
    }
    match Terminal::input_step(true, "ls\n".to_string()) {
        InputStep::Write(t) => assert_eq!(t, "ls\n"),
        InputStep::Stop => panic!("stopped"),
    }
}
