//! The text user interface: what each key does to the state of the
//! application, and what is shown of it.

use vstd::prelude::*;
use crate::terminal::TerminalOutput;
use crate::text;
use crate::time;
use crate::time::Timestamp;

verus! {

/// How many lines of terminal output are kept.
pub const MAX_TERMINAL_LINES: usize = 1000;

/// What the chat answers until the assistant is asked.
pub const PLACEHOLDER_REPLY: &'static str = "This is a placeholder AI response.";

/// What a message is answered until the assistant is asked.
pub const PLACEHOLDER_ANSWER: &'static str = "I'm a placeholder AI response. In the real implementation, this would be an actual response from the OpenAI API.";

/// Mode of operation for the input handling.
#[derive(Debug, Clone, Copy, PartialEq, Eq, Structural)]
pub enum InputMode {
    /// Normal terminal mode - input goes to the shell.
    Normal,
    /// AI interaction mode - input goes to the AI assistant.
    Ai,
    /// Scaffolding mode - input is used for project scaffolding.
    Scaffold,
}

/// Sender of a chat message.
#[derive(Debug, Clone, Copy, PartialEq, Eq, Structural)]
pub enum ChatSender {
    User,
    Ai,
}

/// Represents a message in the AI chat.
#[derive(Debug, Clone)]
pub struct ChatMessage {
    /// Who sent this message (user or AI).
    pub sender: ChatSender,
    /// Content of the message.
    pub content: String,
    /// When the message was sent.
    pub timestamp: Timestamp,
}

/// What a `ChatMessage` holds.
pub struct MessageView {
    pub sender: ChatSender,
    pub content: Seq<char>,
    pub at: (int, int),
}

impl View for ChatMessage {
    type V = MessageView;

    open spec fn view(&self) -> MessageView {
        MessageView { sender: self.sender, content: self.content@, at: self.timestamp@ }
    }
}

/// What a list of messages holds.
pub open spec fn message_views(v: Seq<ChatMessage>) -> Seq<MessageView> {
    v.map_values(|m: ChatMessage| m@)
}

/// State of the AI chat overlay.
#[derive(Debug, Clone)]
pub struct AiChatState {
    /// Whether the chat overlay is visible.
    pub visible: bool,
    /// Current messages in the chat.
    pub messages: Vec<ChatMessage>,
    /// Current input buffer for AI interactions.
    pub input: String,
}

/// What an `AiChatState` holds.
pub struct ChatView {
    pub visible: bool,
    pub messages: Seq<MessageView>,
    pub input: Seq<char>,
}

impl View for AiChatState {
    type V = ChatView;

    open spec fn view(&self) -> ChatView {
        ChatView {
            visible: self.visible,
            messages: message_views(self.messages@),
            input: self.input@,
        }
    }
}

impl Default for AiChatState {
    fn default() -> (r: Self)
        ensures
            r@ == (ChatView { visible: false, messages: seq![], input: seq![] }),
    {
        let r = AiChatState { visible: false, messages: Vec::new(), input: String::new() };
        assert(r@.messages =~= seq![]);
        assert(r@.input =~= seq![]);
        r
    }
}

/// A key of the keyboard.
#[derive(Debug, Clone, Copy, PartialEq, Eq, Structural)]
pub enum KeyCode {
    Char(char),
    Enter,
    Backspace,
    Delete,
    Left,
    Right,
    Esc,
    Other,
}

/// What is held down with a key.
#[derive(Debug, Clone, Copy, PartialEq, Eq, Structural)]
pub enum Modifiers {
    /// Nothing.
    Plain,
    /// The control key and nothing else.
    Control,
    Other,
}

/// A key that was pressed.
#[derive(Debug, Clone, Copy, PartialEq, Eq, Structural)]
pub struct KeyPress {
    pub code: KeyCode,
    pub modifiers: Modifiers,
}

/// What is to be done after a key.
#[derive(Debug)]
pub enum KeyAction {
    /// Nothing more.
    Nothing,
    /// Send a command to the shell, and then tell `command_sent`.
    Send(String),
}

/// The character that starts at byte `b` of the UTF-8 form of `s`, by its
/// place; the length of `s` for the end; none inside a character or behind
/// the end.
pub open spec fn index_at(s: Seq<char>, b: int) -> Option<int>
    decreases s.len(),
{
    if b == 0 {
        Some(0)
    } else if s.len() == 0 || b < text::utf8_width(s.first()) {
        None
    } else {
        match index_at(s.drop_first(), b - text::utf8_width(s.first())) {
            Some(k) => Some(k + 1),
            None => None,
        }
    }
}

/// The state of the application.
#[derive(Debug)]
pub struct App {
    /// Current buffer for terminal output.
    pub terminal_buffer: Vec<String>,
    /// Current input buffer for shell commands.
    pub input_buffer: String,
    /// Current input mode.
    pub input_mode: InputMode,
    /// State of the AI chat.
    pub ai_chat: AiChatState,
    /// Flag indicating if the application should exit.
    pub should_quit: bool,
    /// Cursor position in the input field, in bytes.
    pub cursor_position: usize,
}

/// What an `App` holds.
pub struct AppView {
    pub terminal_buffer: Seq<Seq<char>>,
    pub input: Seq<char>,
    pub mode: InputMode,
    pub chat: ChatView,
    pub should_quit: bool,
    pub cursor: usize,
}

impl View for App {
    type V = AppView;

    open spec fn view(&self) -> AppView {
        AppView {
            terminal_buffer: text::views(self.terminal_buffer@),
            input: self.input_buffer@,
            mode: self.input_mode,
            chat: self.ai_chat@,
            should_quit: self.should_quit,
            cursor: self.cursor_position,
        }
    }
}

/// The last `n` of some texts.
pub open spec fn last_lines(v: Seq<Seq<char>>, n: nat) -> Seq<Seq<char>> {
    if v.len() > n {
        v.skip(v.len() - n)
    } else {
        v
    }
}

/// A key without a meaning of its own in normal mode is typed.
pub open spec fn is_typed(key: KeyPress) -> bool {
    match key.code {
        KeyCode::Char(c) => !(key.modifiers == Modifiers::Control && (c == 'c' || c == 'i')),
        _ => false,
    }
}

impl AppView {
    /// Whether the cursor lies in the input.
    pub open spec fn wf(self) -> bool {
        self.cursor <= text::byte_len(self.input)
    }

    /// Whether a key can be handled: where it changes the input, a character
    /// starts or the input ends where the change is made.
    pub open spec fn can_press(self, key: KeyPress) -> bool {
        self.mode == InputMode::Normal ==> match key.code {
            KeyCode::Backspace => self.cursor > 0 ==> index_at(
                self.input,
                self.cursor - 1,
            ) is Some,
            KeyCode::Delete => self.cursor < text::byte_len(self.input) ==> index_at(
                self.input,
                self.cursor as int,
            ) is Some,
            KeyCode::Right => self.cursor < text::byte_len(self.input) ==> self.cursor
                < usize::MAX,
            KeyCode::Char(_) => is_typed(key) ==> self.cursor < usize::MAX && index_at(
                self.input,
                self.cursor as int,
            ) is Some,
            _ => true,
        }
    }

    /// After a key in normal mode.
    pub open spec fn normal(self, key: KeyPress) -> AppView {
        match key.code {
            KeyCode::Char(c) => if !is_typed(key) {
                if c == 'c' {
                    AppView { should_quit: true, ..self }
                } else {
                    AppView {
                        mode: InputMode::Ai,
                        chat: ChatView { visible: true, ..self.chat },
                        ..self
                    }
                }
            } else {
                AppView {
                    input: self.input.insert(index_at(self.input, self.cursor as int)->0, c),
                    cursor: (self.cursor + 1) as usize,
                    ..self
                }
            },
            KeyCode::Enter => if self.input.len() == 0 {
                self
            } else if text::starts_with(self.input, "@new"@) {
                AppView {
                    terminal_buffer: self.terminal_buffer.push("> "@ + self.input),
                    mode: InputMode::Scaffold,
                    chat: ChatView { visible: true, input: self.input, ..self.chat },
                    input: seq![],
                    cursor: 0,
                    ..self
                }
            } else {
                AppView {
                    terminal_buffer: self.terminal_buffer.push("> "@ + self.input),
                    ..self
                }
            },
            KeyCode::Backspace => if self.cursor > 0 {
                AppView {
                    input: self.input.remove(index_at(self.input, self.cursor - 1)->0),
                    cursor: (self.cursor - 1) as usize,
                    ..self
                }
            } else {
                self
            },
            KeyCode::Delete => if self.cursor < text::byte_len(self.input) {
                AppView {
                    input: self.input.remove(index_at(self.input, self.cursor as int)->0),
                    ..self
                }
            } else {
                self
            },
            KeyCode::Left => if self.cursor > 0 {
                AppView { cursor: (self.cursor - 1) as usize, ..self }
            } else {
                self
            },
            KeyCode::Right => if self.cursor < text::byte_len(self.input) {
                AppView { cursor: (self.cursor + 1) as usize, ..self }
            } else {
                self
            },
            _ => self,
        }
    }

    /// After a key in the chat.
    pub open spec fn chatting(self, key: KeyPress, sent: (int, int), answered: (int, int)) -> AppView {
        match key.code {
            KeyCode::Esc => AppView {
                mode: InputMode::Normal,
                chat: ChatView { visible: false, ..self.chat },
                ..self
            },
            KeyCode::Enter => if key.modifiers == Modifiers::Plain && self.chat.input.len() > 0 {
                AppView {
                    chat: ChatView {
                        messages: self.chat.messages.push(
                            MessageView {
                                sender: ChatSender::User,
                                content: self.chat.input,
                                at: sent,
                            },
                        ).push(
                            MessageView {
                                sender: ChatSender::Ai,
                                content: PLACEHOLDER_REPLY@,
                                at: answered,
                            },
                        ),
                        input: seq![],
                        ..self.chat
                    },
                    ..self
                }
            } else {
                self
            },
            KeyCode::Backspace => if self.chat.input.len() > 0 {
                AppView {
                    chat: ChatView { input: self.chat.input.drop_last(), ..self.chat },
                    ..self
                }
            } else {
                self
            },
            KeyCode::Char(c) => AppView {
                chat: ChatView { input: self.chat.input.push(c), ..self.chat },
                ..self
            },
            _ => self,
        }
    }

    /// After a key. Scaffolding handles keys as the chat does.
    pub open spec fn pressed(self, key: KeyPress, sent: (int, int), answered: (int, int)) -> AppView {
        match self.mode {
            InputMode::Normal => self.normal(key),
            InputMode::Ai => self.chatting(key, sent, answered),
            InputMode::Scaffold => self.chatting(key, sent, answered),
        }
    }

    /// The command that a key sends to the shell, if any.
    pub open spec fn sends(self, key: KeyPress) -> Option<Seq<char>> {
        if self.mode == InputMode::Normal && key.code == KeyCode::Enter && self.input.len() > 0
            && !text::starts_with(self.input, "@new"@) {
            Some(self.input)
        } else {
            None
        }
    }
}

/// The width of a text to the place of a character, in bytes.
proof fn lemma_index_at(s: Seq<char>, b: int)
    requires
        b >= 0,
    ensures
        match index_at(s, b) {
            Some(k) => 0 <= k <= s.len() && text::byte_len(s.take(k)) == b,
            None => true,
        },
    decreases s.len(),
{
    if b == 0 {
        assert(s.take(0) =~= seq![]);
    } else if s.len() > 0 && b >= text::utf8_width(s.first()) {
        let t = s.drop_first();
        let w = text::utf8_width(s.first());
        lemma_index_at(t, b - w);
        if let Some(k) = index_at(t, b - w) {
            assert(s.take(k + 1) =~= seq![s.first()] + t.take(k));
            lemma_byte_len_add(seq![s.first()], t.take(k));
            lemma_byte_len_one(s.first());
        }
    }
}

/// The width of one character.
proof fn lemma_byte_len_one(c: char)
    ensures
        text::byte_len(seq![c]) == text::utf8_width(c),
{
    reveal_with_fuel(text::byte_len, 2);
    assert(seq![c].drop_last() =~= seq![]);
}

/// The widths of two texts add up.
proof fn lemma_byte_len_add(a: Seq<char>, b: Seq<char>)
    ensures
        text::byte_len(a + b) == text::byte_len(a) + text::byte_len(b),
    decreases b.len(),
{
    if b.len() == 0 {
        assert(a + b =~= a);
    } else {
        assert((a + b).drop_last() =~= a + b.drop_last());
        lemma_byte_len_add(a, b.drop_last());
    }
}

/// Putting a character in, or taking one out, changes the width by its own.
proof fn lemma_width_changes(s: Seq<char>, k: int, c: char)
    requires
        0 <= k <= s.len(),
    ensures
        text::byte_len(s.insert(k, c)) == text::byte_len(s) + text::utf8_width(c),
        text::byte_len(s.take(k)) <= text::byte_len(s),
        k < s.len() ==> text::byte_len(s.remove(k)) + text::utf8_width(s[k]) == text::byte_len(s)
            && text::byte_len(s.take(k)) <= text::byte_len(s.remove(k)),
{
    let a = s.take(k);
    let b = s.skip(k);
    assert(s =~= a + b);
    lemma_byte_len_add(a, b);
    assert(s.insert(k, c) =~= a + (seq![c] + b));
    lemma_byte_len_add(seq![c], b);
    lemma_byte_len_add(a, seq![c] + b);
    lemma_byte_len_one(c);
    if k < s.len() {
        let rest = s.skip(k + 1);
        assert(b =~= seq![s[k]] + rest);
        lemma_byte_len_add(seq![s[k]], rest);
        lemma_byte_len_one(s[k]);
        assert(s.remove(k) =~= a + rest);
        lemma_byte_len_add(a, rest);
    }
}

/// The place of the character that starts at byte `b`.
fn find_index(v: &Vec<char>, b: usize) -> (r: Option<usize>)
    ensures
        match r {
            Some(k) => index_at(v@, b as int) == Some(k as int) && k <= v@.len(),
            None => index_at(v@, b as int) is None,
        },
{
    let mut left: usize = b;
    let mut i: usize = 0;
    assert(v@.skip(0) =~= v@);
    while left > 0
        invariant
            i <= v@.len(),
            match index_at(v@.skip(i as int), left as int) {
                Some(k) => index_at(v@, b as int) == Some(k + i),
                None => index_at(v@, b as int) is None,
            },
        decreases left,
    {
        if i >= v.len() {
            return None;
        }
        let w: usize = text::char_width(v[i]);
        assert(v@.skip(i as int).first() == v@[i as int]);
        assert(v@.skip(i as int).drop_first() =~= v@.skip(i + 1));
        if left < w {
            return None;
        }
        left -= w;
        i += 1;
    }
    Some(i)
}

/// Characters as a string.
fn whole(v: &Vec<char>) -> (r: String)
    ensures
        r@ == v@,
{
    let r = text::string_of(v, 0, v.len());
    assert(v@.subrange(0, v@.len() as int) =~= v@);
    r
}

impl App {
    /// The application before anything was typed.
    pub fn new() -> (r: Self)
        ensures
            r@ == (AppView {
                terminal_buffer: seq![],
                input: seq![],
                mode: InputMode::Normal,
                chat: ChatView { visible: false, messages: seq![], input: seq![] },
                should_quit: false,
                cursor: 0,
            }),
            r@.wf(),
    {
        let r = App {
            terminal_buffer: Vec::new(),
            input_buffer: String::new(),
            input_mode: InputMode::Normal,
            ai_chat: AiChatState::default(),
            should_quit: false,
            cursor_position: 0,
        };
        assert(r@.terminal_buffer =~= seq![]);
        assert(r@.input =~= seq![]);
        r
    }

    /// Takes in terminal output, line by line, and keeps the last lines.
    pub fn process_terminal_output(&mut self, output: &TerminalOutput)
        ensures
            final(self)@ == (AppView {
                terminal_buffer: last_lines(
                    old(self)@.terminal_buffer + text::split_char(output.content@, '\n'),
                    MAX_TERMINAL_LINES as nat,
                ),
                ..old(self)@
            }),
    {
        let mut lines = text::str_split_char(output.content.as_str(), '\n');
        let ghost before = text::views(self.terminal_buffer@);
        let ghost more = text::views(lines@);
        self.terminal_buffer.append(&mut lines);
        assert(text::views(self.terminal_buffer@) =~= before + more);
        let ghost all = before + more;
        let ghost full = self.terminal_buffer@;
        let total: usize = self.terminal_buffer.len();
        let mut gone: usize = 0;
        assert(full.skip(0) =~= full);
        while self.terminal_buffer.len() > MAX_TERMINAL_LINES
            invariant
                gone <= full.len(),
                self.terminal_buffer@ == full.skip(gone as int),
                gone > 0 ==> full.len() - gone >= MAX_TERMINAL_LINES,
                full.len() == total,
                self.input_buffer == old(self).input_buffer,
                self.input_mode == old(self).input_mode,
                self.ai_chat == old(self).ai_chat,
                self.should_quit == old(self).should_quit,
                self.cursor_position == old(self).cursor_position,
            decreases self.terminal_buffer@.len(),
        {
            self.terminal_buffer.remove(0);
            assert(self.terminal_buffer@ =~= full.skip(gone + 1));
            gone += 1;
        }
        assert(text::views(full.skip(gone as int)) =~= all.skip(gone as int));
        assert(text::views(self.terminal_buffer@) =~= last_lines(all, MAX_TERMINAL_LINES as nat));
    }

    /// Whether a key can be handled.
    pub fn can_press(&self, key: KeyPress) -> (r: bool)
        ensures
            r == self@.can_press(key),
    {
        if self.input_mode != InputMode::Normal {
            return true;
        }
        let v = text::chars_of(self.input_buffer.as_str());
        match key.code {
            KeyCode::Backspace => self.cursor_position == 0 || find_index(
                &v,
                self.cursor_position - 1,
            ).is_some(),
            KeyCode::Delete => self.cursor_position as u128 >= text::bytes_of_chars(&v)
                || find_index(&v, self.cursor_position).is_some(),
            KeyCode::Right => self.cursor_position as u128 >= text::bytes_of_chars(&v)
                || self.cursor_position < usize::MAX,
            KeyCode::Char(c) => (key.modifiers == Modifiers::Control && (c == 'c' || c == 'i')) || (
            self.cursor_position < usize::MAX && find_index(&v, self.cursor_position).is_some()),
            _ => true,
        }
    }

    /// Handles a key, at the moments that the clock has.
    pub fn handle_key(&mut self, key: KeyPress) -> (r: KeyAction)
        requires
            old(self)@.wf(),
            old(self)@.can_press(key),
        ensures
            exists|sent: (int, int), answered: (int, int)|
                #[trigger] time::is_moment(sent.0, sent.1) && #[trigger] time::is_moment(
                    answered.0,
                    answered.1,
                ) && final(self)@ == old(self)@.pressed(key, sent, answered),
            match r {
                KeyAction::Nothing => old(self)@.sends(key) is None,
                KeyAction::Send(c) => old(self)@.sends(key) == Some(c@),
            },
            final(self)@.wf(),
    {
        let sent = Timestamp::now();
        let answered = Timestamp::now();
        self.handle_key_at(key, sent, answered)
    }

    /// Handles a key, where a message sent with it is sent and answered at the
    /// given moments.
    pub fn handle_key_at(&mut self, key: KeyPress, sent: Timestamp, answered: Timestamp) -> (r:
        KeyAction)
        requires
            old(self)@.wf(),
            old(self)@.can_press(key),
        ensures
            final(self)@ == old(self)@.pressed(key, sent@, answered@),
            match r {
                KeyAction::Nothing => old(self)@.sends(key) is None,
                KeyAction::Send(c) => old(self)@.sends(key) == Some(c@),
            },
            final(self)@.wf(),
    {
        match self.input_mode {
            InputMode::Normal => self.handle_normal_mode_input(key),
            InputMode::Ai => {
                self.handle_ai_mode_input(key, sent, answered);
                KeyAction::Nothing
            },
            InputMode::Scaffold => {
                self.handle_scaffold_mode_input(key, sent, answered);
                KeyAction::Nothing
            },
        }
    }

    /// Handles a key in normal mode.
    pub fn handle_normal_mode_input(&mut self, key: KeyPress) -> (r: KeyAction)
        requires
            old(self)@.wf(),
            old(self)@.mode == InputMode::Normal,
            old(self)@.can_press(key),
        ensures
            final(self)@ == old(self)@.normal(key),
            match r {
                KeyAction::Nothing => old(self)@.sends(key) is None,
                KeyAction::Send(c) => old(self)@.sends(key) == Some(c@),
            },
            final(self)@.wf(),
    {
        let mut v = text::chars_of(self.input_buffer.as_str());
        let ghost s = self.input_buffer@;
        proof {
            lemma_index_at(s, self.cursor_position as int);
            if self.cursor_position > 0 {
                lemma_index_at(s, self.cursor_position - 1);
            }
        }
        match key.code {
            KeyCode::Char(c) => {
                if key.modifiers == Modifiers::Control && c == 'c' {
                    self.should_quit = true;
                } else if key.modifiers == Modifiers::Control && c == 'i' {
                    self.input_mode = InputMode::Ai;
                    self.ai_chat.visible = true;
                } else if let Some(k) = find_index(&v, self.cursor_position) {
                    proof {
                        lemma_width_changes(s, k as int, c);
                    }
                    v.insert(k, c);
                    self.input_buffer = whole(&v);
                    self.cursor_position += 1;
                }
            },
            KeyCode::Enter => {
                if v.len() > 0 {
                    let ghost before = text::views(self.terminal_buffer@);
                    let line = "> ".to_owned().concat(self.input_buffer.as_str());
                    let ghost l = line@;
                    self.terminal_buffer.push(line);
                    assert(text::views(self.terminal_buffer@) =~= before.push(l));
                    if text::str_starts_with(self.input_buffer.as_str(), "@new") {
                        self.input_mode = InputMode::Scaffold;
                        self.ai_chat.visible = true;
                        self.ai_chat.input = self.input_buffer.clone();
                        self.clear_input();
                    } else {
                        return KeyAction::Send(self.input_buffer.clone());
                    }
                }
            },
            KeyCode::Backspace => {
                if self.cursor_position > 0 {
                    if let Some(k) = find_index(&v, self.cursor_position - 1) {
                        proof {
                            assert(k < s.len()) by {
                                if k == s.len() {
                                    assert(s.take(k as int) =~= s);
                                }
                            }
                            lemma_width_changes(s, k as int, 'x');
                        }
                        v.remove(k);
                        self.input_buffer = whole(&v);
                        self.cursor_position -= 1;
                    }
                }
            },
            KeyCode::Delete => {
                if (self.cursor_position as u128) < text::bytes_of_chars(&v) {
                    if let Some(k) = find_index(&v, self.cursor_position) {
                        proof {
                            assert(k < s.len()) by {
                                if k == s.len() {
                                    assert(s.take(k as int) =~= s);
                                }
                            }
                            lemma_width_changes(s, k as int, 'x');
                        }
                        v.remove(k);
                        self.input_buffer = whole(&v);
                    }
                }
            },
            KeyCode::Left => {
                if self.cursor_position > 0 {
                    self.cursor_position -= 1;
                }
            },
            KeyCode::Right => {
                if (self.cursor_position as u128) < text::bytes_of_chars(&v) {
                    self.cursor_position += 1;
                }
            },
            _ => {},
        }
        KeyAction::Nothing
    }

    /// Empties the input.
    fn clear_input(&mut self)
        ensures
            final(self)@ == (AppView { input: seq![], cursor: 0, ..old(self)@ }),
            final(self)@.wf(),
    {
        self.input_buffer = String::new();
        self.cursor_position = 0;
        assert(self.input_buffer@ =~= seq![]);
    }

    /// Empties the input once the command in it was sent.
    pub fn command_sent(&mut self)
        ensures
            final(self)@ == (AppView { input: seq![], cursor: 0, ..old(self)@ }),
            final(self)@.wf(),
    {
        self.clear_input();
    }

    /// Handles a key in the chat.
    pub fn handle_ai_mode_input(&mut self, key: KeyPress, sent: Timestamp, answered: Timestamp)
        ensures
            final(self)@ == old(self)@.chatting(key, sent@, answered@),
            old(self)@.wf() ==> final(self)@.wf(),
    {
        match key.code {
            KeyCode::Esc => {
                self.input_mode = InputMode::Normal;
                self.ai_chat.visible = false;
            },
            KeyCode::Enter => {
                if key.modifiers == Modifiers::Plain && !self.ai_chat.input.as_str().is_empty() {
                    let ghost before = message_views(self.ai_chat.messages@);
                    let question = ChatMessage {
                        sender: ChatSender::User,
                        content: self.ai_chat.input.clone(),
                        timestamp: sent,
                    };
                    let answer = ChatMessage {
                        sender: ChatSender::Ai,
                        content: PLACEHOLDER_REPLY.to_owned(),
                        timestamp: answered,
                    };
                    let ghost q = question@;
                    let ghost a = answer@;
                    self.ai_chat.messages.push(question);
                    self.ai_chat.messages.push(answer);
                    assert(message_views(self.ai_chat.messages@) =~= before.push(q).push(a));
                    self.ai_chat.input = String::new();
                    assert(self.ai_chat.input@ =~= seq![]);
                }
            },
            KeyCode::Backspace => {
                let mut v = text::chars_of(self.ai_chat.input.as_str());
                let ghost s = v@;
                if v.len() > 0 {
                    v.pop();
                    assert(v@ =~= s.drop_last());
                    self.ai_chat.input = whole(&v);
                }
            },
            KeyCode::Char(c) => {
                self.ai_chat.input.push(c);
            },
            _ => {},
        }
    }

    /// Handles a key in scaffold mode, as the chat does.
    pub fn handle_scaffold_mode_input(
        &mut self,
        key: KeyPress,
        sent: Timestamp,
        answered: Timestamp,
    )
        ensures
            final(self)@ == old(self)@.chatting(key, sent@, answered@),
            old(self)@.wf() ==> final(self)@.wf(),
    {
        self.handle_ai_mode_input(key, sent, answered);
    }
}

// What is shown.

/// A part of the screen.
#[derive(Debug, Clone, Copy, PartialEq, Eq, Structural)]
pub struct Area {
    pub x: u16,
    pub y: u16,
    pub width: u16,
    pub height: u16,
}

/// Whether the overlay can be laid out on a screen.
pub open spec fn can_overlay(width: u16, height: u16) -> bool {
    width * 8 <= u16::MAX && height * 8 <= u16::MAX
}

/// Whether the overlay can be laid out on a screen.
pub fn overlay_fits(width: u16, height: u16) -> (r: bool)
    ensures
        r == can_overlay(width, height),
{
    width as u32 * 8 <= u16::MAX as u32 && height as u32 * 8 <= u16::MAX as u32
}

/// The part of the screen that the chat overlay takes: a tenth is left free
/// above it and to its left, and eight tenths are taken.
pub fn overlay_area(width: u16, height: u16) -> (r: Area)
    requires
        can_overlay(width, height),
    ensures
        r.x == width / 10,
        r.y == height / 10,
        r.width == width * 8 / 10,
        r.height == height * 8 / 10,
        r.x + r.width <= width,
        r.y + r.height <= height,
{
    Area { x: width / 10, y: height / 10, width: width * 8 / 10, height: height * 8 / 10 }
}

/// The name of a mode.
pub open spec fn mode_name(mode: InputMode) -> Seq<char> {
    match mode {
        InputMode::Normal => "NORMAL"@,
        InputMode::Ai => "AI"@,
        InputMode::Scaffold => "SCAFFOLD"@,
    }
}

/// What stands before a message.
pub open spec fn sender_prefix(sender: ChatSender) -> Seq<char> {
    match sender {
        ChatSender::User => "You: "@,
        ChatSender::Ai => "AI:  "@,
    }
}

/// What stands before a message.
pub fn prefix_of(sender: ChatSender) -> (r: &'static str)
    ensures
        r@ == sender_prefix(sender),
{
    match sender {
        ChatSender::User => "You: ",
        ChatSender::Ai => "AI:  ",
    }
}

impl AppView {
    /// The input that is shown.
    pub open spec fn shown_input(self) -> Seq<char> {
        if self.mode == InputMode::Normal {
            self.input
        } else {
            self.chat.input
        }
    }

    /// How far behind the start of the input the cursor is shown, in the 16
    /// bits that a column has.
    pub open spec fn cursor_offset(self) -> nat {
        if self.mode == InputMode::Normal {
            (self.cursor % 0x10000) as nat
        } else {
            text::byte_len(self.chat.input) % 0x10000
        }
    }
}

impl App {
    /// The status line.
    pub fn status_line(&self) -> (r: String)
        ensures
            r@ == "Mode: "@ + mode_name(self@.mode),
    {
        let name = match self.input_mode {
            InputMode::Normal => "NORMAL",
            InputMode::Ai => "AI",
            InputMode::Scaffold => "SCAFFOLD",
        };
        "Mode: ".to_owned().concat(name)
    }

    /// The input that is shown.
    pub fn shown_input(&self) -> (r: String)
        ensures
            r@ == self@.shown_input(),
    {
        match self.input_mode {
            InputMode::Normal => self.input_buffer.clone(),
            InputMode::Ai => self.ai_chat.input.clone(),
            InputMode::Scaffold => self.ai_chat.input.clone(),
        }
    }

    /// How far behind the start of the input the cursor is shown.
    pub fn cursor_offset(&self) -> (r: u16)
        ensures
            r == self@.cursor_offset(),
    {
        match self.input_mode {
            InputMode::Normal => (self.cursor_position % 0x10000) as u16,
            _ => chat_offset(&self.ai_chat),
        }
    }

    /// Adds a message to the chat, sent at the clock's moment.
    pub fn send_ai_message(&mut self, message: String)
        ensures
            exists|now: (int, int)|
                #[trigger] time::is_moment(now.0, now.1) && final(self)@ == old(self)@.said(
                    ChatSender::User,
                    message@,
                    now,
                ),
    {
        let now = Timestamp::now();
        self.say_at(ChatSender::User, message, now);
    }

    /// Adds the answer to a message to the chat, given at the clock's moment.
    pub fn answer_ai_message(&mut self)
        ensures
            exists|now: (int, int)|
                #[trigger] time::is_moment(now.0, now.1) && final(self)@ == old(self)@.said(
                    ChatSender::Ai,
                    PLACEHOLDER_ANSWER@,
                    now,
                ),
    {
        let now = Timestamp::now();
        self.say_at(ChatSender::Ai, PLACEHOLDER_ANSWER.to_owned(), now);
    }

    /// Adds a message to the chat.
    pub fn say_at(&mut self, sender: ChatSender, content: String, now: Timestamp)
        ensures
            final(self)@ == old(self)@.said(sender, content@, now@),
    {
        let ghost before = message_views(self.ai_chat.messages@);
        let message = ChatMessage { sender, content, timestamp: now };
        let ghost m = message@;
        self.ai_chat.messages.push(message);
        assert(message_views(self.ai_chat.messages@) =~= before.push(m));
    }
}

impl AppView {
    /// With a message added to the chat.
    pub open spec fn said(self, sender: ChatSender, content: Seq<char>, now: (int, int)) -> AppView {
        AppView {
            chat: ChatView {
                messages: self.chat.messages.push(MessageView { sender, content, at: now }),
                ..self.chat
            },
            ..self
        }
    }
}

/// How far behind the start of the chat's input the cursor is shown.
pub fn chat_offset(chat: &AiChatState) -> (r: u16)
    ensures
        r == text::byte_len(chat.input@) % 0x10000,
{
    let v = text::chars_of(chat.input.as_str());
    (text::bytes_of_chars(&v) % 0x10000) as u16
}

/// Two texts as the lines of a diff.
pub fn render_diff(original: &str, modified: &str) -> (r: Vec<String>)
    ensures
        text::views(r@) == seq![
            "--- Original"@,
            "+++ Modified"@,
            ""@,
            original@,
            ""@,
            modified@,
        ],
{
    let mut lines: Vec<String> = Vec::new();
    lines.push("--- Original".to_owned());
    lines.push("+++ Modified".to_owned());
    lines.push("".to_owned());
    lines.push(original.to_owned());
    lines.push("".to_owned());
    lines.push(modified.to_owned());
    assert(text::views(lines@) =~= seq![
        "--- Original"@,
        "+++ Modified"@,
        ""@,
        original@,
        ""@,
        modified@,
    ]);
    lines
}

/// What is said of a command that was sent to the shell.
pub fn execute_shell_command(command: &str) -> (r: String)
    ensures
        r@ == "Executed command: "@ + command@,
{
    "Executed command: ".to_owned().concat(command)
}

// Laws.

/// Where a character starts is told by what stands before it.
proof fn lemma_index_by_prefix(s: Seq<char>, t: Seq<char>, b: int, k: int)
    requires
        b >= 0,
        index_at(s, b) == Some(k),
        0 <= k <= s.len(),
        k <= t.len(),
        s.take(k) == t.take(k),
    ensures
        index_at(t, b) == Some(k),
    decreases s.len(),
{
    if b > 0 {
        assert(k > 0) by {
            lemma_index_at(s.drop_first(), b - text::utf8_width(s.first()));
        }
        assert(s.first() == s.take(k)[0]);
        assert(t.first() == t.take(k)[0]);
        assert(s.drop_first().take(k - 1) =~= s.take(k).drop_first());
        assert(t.drop_first().take(k - 1) =~= t.take(k).drop_first());
        lemma_index_by_prefix(
            s.drop_first(),
            t.drop_first(),
            b - text::utf8_width(s.first()),
            k - 1,
        );
    }
}

/// The backspace key takes back a character that was just typed, whatever it
/// is: the input and the cursor are as before.
pub proof fn law_backspace_undoes_typing(app: AppView, key: KeyPress, back: KeyPress)
    requires
        app.wf(),
        app.mode == InputMode::Normal,
        is_typed(key),
        app.can_press(key),
        back.code == KeyCode::Backspace,
    ensures
        app.normal(key).can_press(back),
        app.normal(key).normal(back) == app,
{
    if let KeyCode::Char(c) = key.code {
        let s = app.input;
        let b = app.cursor as int;
        lemma_index_at(s, b);
        let k = index_at(s, b)->0;
        let t = s.insert(k, c);
        assert(s.take(k) =~= t.take(k));
        lemma_index_by_prefix(s, t, b, k);
        assert(t.remove(k) =~= s);
    }
}

/// The left and the right key undo each other inside the input.
pub proof fn law_arrows_undo_each_other(app: AppView, left: KeyPress, right: KeyPress)
    requires
        app.wf(),
        app.mode == InputMode::Normal,
        left.code == KeyCode::Left,
        right.code == KeyCode::Right,
    ensures
        app.cursor > 0 ==> app.normal(left).normal(right) == app,
        app.cursor < text::byte_len(app.input) && app.cursor < usize::MAX ==> app.normal(
            right,
        ).normal(left) == app,
        app.normal(left).input == app.input && app.normal(right).input == app.input,
{
}

/// Whether each character is a single byte.
pub open spec fn is_ascii(s: Seq<char>) -> bool {
    forall|i: int| 0 <= i < s.len() ==> text::utf8_width(#[trigger] s[i]) == 1
}

/// In a text of single bytes a character starts at every byte.
proof fn lemma_ascii_index(s: Seq<char>, b: int)
    requires
        is_ascii(s),
        0 <= b <= s.len(),
    ensures
        index_at(s, b) == Some(b),
        text::byte_len(s) == s.len(),
    decreases s.len(),
{
    if s.len() > 0 {
        let t = s.drop_first();
        assert(text::utf8_width(s[0]) == 1);
        assert forall|i: int| 0 <= i < t.len() implies text::utf8_width(#[trigger] t[i]) == 1 by {
            assert(t[i] == s[i + 1]);
        }
        lemma_ascii_index(
            t,
            if b > 0 {
                b - 1
            } else {
                0
            },
        );
        assert(s =~= seq![s.first()] + t);
        lemma_byte_len_add(seq![s.first()], t);
        lemma_byte_len_one(s.first());
    }
}

/// As long as the input holds single bytes only, every key can be handled.
pub proof fn law_ascii_input_takes_every_key(app: AppView, key: KeyPress)
    requires
        app.wf(),
        is_ascii(app.input),
        app.input.len() < usize::MAX,
    ensures
        app.can_press(key),
{
    lemma_ascii_index(app.input, 0);
    lemma_ascii_index(app.input, app.cursor as int);
    if app.cursor > 0 {
        lemma_ascii_index(app.input, app.cursor - 1);
    }
}

/// Typing a single byte into an input of single bytes leaves one, with the
/// cursor inside it, and the backspace key takes it back: the input and the
/// cursor are as before.
pub proof fn law_ascii_input_is_edited(app: AppView, key: KeyPress, c: char, back: KeyPress)
    requires
        app.wf(),
        app.mode == InputMode::Normal,
        is_ascii(app.input),
        app.input.len() < usize::MAX,
        is_typed(key),
        key.code == KeyCode::Char(c),
        text::utf8_width(c) == 1,
        back.code == KeyCode::Backspace,
    ensures
        app.can_press(key),
        is_ascii(app.normal(key).input),
        app.normal(key).cursor <= app.normal(key).input.len(),
        app.normal(key).can_press(back),
        app.normal(key).normal(back) == app,
{
    law_ascii_input_takes_every_key(app, key);
    law_backspace_undoes_typing(app, key, back);
    lemma_ascii_index(app.input, 0);
    lemma_ascii_index(app.input, app.cursor as int);
    let k = index_at(app.input, app.cursor as int)->0;
    let t = app.input.insert(k, c);
    assert forall|i: int| 0 <= i < t.len() implies text::utf8_width(#[trigger] t[i]) == 1 by {
        if i < k {
            assert(t[i] == app.input[i]);
        } else if i > k {
            assert(t[i] == app.input[i - 1]);
        }
    }
}

/// Whether the chat is shown exactly outside normal mode.
pub open spec fn overlay_matches_mode(app: AppView) -> bool {
    app.chat.visible <==> app.mode != InputMode::Normal
}

/// The chat is shown exactly outside normal mode: no key changes that.
pub proof fn law_overlay_matches_mode(
    app: AppView,
    key: KeyPress,
    sent: (int, int),
    answered: (int, int),
)
    requires
        overlay_matches_mode(app),
    ensures
        overlay_matches_mode(app.pressed(key, sent, answered)),
{
}

/// The cursor stays in the input, whatever key is handled.
pub proof fn law_cursor_stays_in_input(
    app: AppView,
    key: KeyPress,
    sent: (int, int),
    answered: (int, int),
)
    requires
        app.wf(),
        app.can_press(key),
    ensures
        app.pressed(key, sent, answered).wf(),
{
    let s = app.input;
    let b = app.cursor as int;
    if app.mode == InputMode::Normal {
        lemma_index_at(s, b);
        match key.code {
            KeyCode::Char(c) => {
                if is_typed(key) {
                    lemma_width_changes(s, index_at(s, b)->0, c);
                }
            },
            KeyCode::Backspace => {
                if b > 0 {
                    lemma_index_at(s, b - 1);
                    let k = index_at(s, b - 1)->0;
                    if k == s.len() {
                        assert(s.take(k) =~= s);
                    }
                    lemma_width_changes(s, k, 'x');
                }
            },
            KeyCode::Delete => {
                if b < text::byte_len(s) {
                    let k = index_at(s, b)->0;
                    if k == s.len() {
                        assert(s.take(k) =~= s);
                    }
                    lemma_width_changes(s, k, 'x');
                }
            },
            _ => {},
        }
    }
}

/// The terminal keeps the last lines put out, and no more than its limit.
pub proof fn law_last_lines_are_kept(v: Seq<Seq<char>>, n: nat)
    ensures
        last_lines(v, n).len() <= n,
        v.len() >= n ==> last_lines(v, n).len() == n,
        forall|i: int|
            0 <= i < last_lines(v, n).len() ==> #[trigger] last_lines(v, n)[i] == v[v.len()
                - last_lines(v, n).len() + i],
{
}

/// The character behind a text starts at the byte where the text ends; no character
/// starts inside of another one, nor behind the end.
pub proof fn law_characters_start_at_their_bytes(a: Seq<char>, c: char, b: Seq<char>, d: int)
    requires
        d > 0,
    ensures
        index_at(a + b, text::byte_len(a) as int) == Some(a.len() as int),
        d < text::utf8_width(c) ==> index_at(a + (seq![c] + b), text::byte_len(a) + d) is None,
        index_at(a, text::byte_len(a) + d) is None,
    decreases a.len(),
{
    if a.len() == 0 {
        assert(a + b =~= b);
        assert(a + (seq![c] + b) =~= seq![c] + b);
        assert((seq![c] + b).first() == c);
    } else {
        let rest = a.drop_first();
        let w = text::utf8_width(a.first()) as int;
        law_characters_start_at_their_bytes(rest, c, b, d);
        assert(a =~= seq![a.first()] + rest);
        lemma_byte_len_add(seq![a.first()], rest);
        lemma_byte_len_one(a.first());
        assert((a + b).first() == a.first());
        assert((a + b).drop_first() =~= rest + b);
        let s = a + (seq![c] + b);
        assert(s.first() == a.first());
        assert(s.drop_first() =~= rest + (seq![c] + b));
        let n = text::byte_len(a) as int;
        assert(n == w + text::byte_len(rest));
        if d < text::utf8_width(c) {
            assert(index_at(s.drop_first(), n + d - w) is None);
        }
        assert(index_at(a.drop_first(), n + d - w) is None);
    }
}

/// A key puts its character where the cursor stands, with what stood before it and
/// behind it kept, and the cursor goes on by one; nothing else changes.
pub proof fn law_typing_goes_in_at_the_cursor(
    app: AppView,
    a: Seq<char>,
    b: Seq<char>,
    c: char,
    key: KeyPress,
)
    requires
        app.input == a + b,
        app.cursor == text::byte_len(a),
        app.cursor < usize::MAX,
        key.code == KeyCode::Char(c),
        key.modifiers != Modifiers::Control || (c != 'c' && c != 'i'),
    ensures
        app.can_press(key),
        app.normal(key).input == a.push(c) + b,
        app.normal(key).cursor == app.cursor + 1,
        app.normal(key).terminal_buffer == app.terminal_buffer,
        app.normal(key).mode == app.mode,
        app.normal(key).chat == app.chat,
        app.normal(key).should_quit == app.should_quit,
{
    law_characters_start_at_their_bytes(a, c, b, 1);
    assert((a + b).insert(a.len() as int, c) =~= a.push(c) + b);
}

/// Backspace takes the character out that starts just before the cursor, and delete
/// the one at the cursor; what stands round it is kept. Where there is nothing to
/// take out, nothing changes.
pub proof fn law_erasing_takes_one_character(
    app: AppView,
    a: Seq<char>,
    c: char,
    b: Seq<char>,
    back: KeyPress,
    delete: KeyPress,
)
    requires
        app.input == a + (seq![c] + b),
        back.code == KeyCode::Backspace,
        delete.code == KeyCode::Delete,
    ensures
        app.cursor == text::byte_len(a) + 1 ==> {
            &&& app.can_press(back)
            &&& app.normal(back).input == a + b
            &&& app.normal(back).cursor == app.cursor - 1
            &&& app.normal(back).terminal_buffer == app.terminal_buffer
            &&& app.normal(back).chat == app.chat
            &&& app.normal(back).mode == app.mode
            &&& app.normal(back).should_quit == app.should_quit
        },
        app.cursor == text::byte_len(a) ==> {
            &&& app.can_press(delete)
            &&& app.normal(delete).input == a + b
            &&& app.normal(delete).cursor == app.cursor
            &&& app.normal(delete).terminal_buffer == app.terminal_buffer
            &&& app.normal(delete).chat == app.chat
            &&& app.normal(delete).mode == app.mode
            &&& app.normal(delete).should_quit == app.should_quit
        },
        app.cursor == 0 ==> app.normal(back) == app,
        app.cursor >= text::byte_len(app.input) ==> app.normal(delete) == app,
{
    let s = a + (seq![c] + b);
    law_characters_start_at_their_bytes(a, c, seq![c] + b, 1);
    assert(s.remove(a.len() as int) =~= a + b);
    lemma_byte_len_add(a, seq![c] + b);
    lemma_byte_len_add(seq![c], b);
    lemma_byte_len_one(c);
}

/// The left key takes the cursor back by one and the right key takes it on by one,
/// inside of the input; neither changes anything else.
pub proof fn law_arrows_move_by_one(app: AppView, left: KeyPress, right: KeyPress)
    requires
        left.code == KeyCode::Left,
        right.code == KeyCode::Right,
    ensures
        app.cursor > 0 ==> app.normal(left) == (AppView {
            cursor: (app.cursor - 1) as usize,
            ..app
        }),
        app.cursor == 0 ==> app.normal(left) == app,
        app.cursor < text::byte_len(app.input) ==> app.normal(right) == (AppView {
            cursor: (app.cursor + 1) as usize,
            ..app
        }),
        app.cursor >= text::byte_len(app.input) ==> app.normal(right) == app,
{
}

/// Enter shows the command behind a prompt and sends it, whole and once; an empty
/// input is not sent, and one that begins with `@new` goes to scaffolding instead.
pub proof fn law_enter_sends_the_input(app: AppView, enter: KeyPress, rest: Seq<char>)
    requires
        app.mode == InputMode::Normal,
        enter.code == KeyCode::Enter,
    ensures
        app.input.len() == 0 ==> app.normal(enter) == app && app.sends(enter) is None,
        app.input.len() > 0 && app.input[0] != '@' ==> {
            &&& app.sends(enter) == Some(app.input)
            &&& app.normal(enter).terminal_buffer == app.terminal_buffer.push(
                seq!['>', ' '] + app.input,
            )
            &&& app.normal(enter).input == app.input
            &&& app.normal(enter).cursor == app.cursor
            &&& app.normal(enter).mode == app.mode
            &&& app.normal(enter).chat == app.chat
            &&& app.normal(enter).should_quit == app.should_quit
        },
        app.input == seq!['@', 'n', 'e', 'w'] + rest ==> {
            &&& app.sends(enter) is None
            &&& app.normal(enter).terminal_buffer == app.terminal_buffer.push(
                seq!['>', ' '] + app.input,
            )
            &&& app.normal(enter).input.len() == 0
            &&& app.normal(enter).cursor == 0
            &&& app.normal(enter).mode == InputMode::Scaffold
            &&& app.normal(enter).chat.visible
            &&& app.normal(enter).chat.input == app.input
            &&& app.normal(enter).chat.messages == app.chat.messages
            &&& app.normal(enter).should_quit == app.should_quit
        },
{
    reveal_strlit("@new");
    reveal_strlit("> ");
    let new = seq!['@', 'n', 'e', 'w'];
    assert("@new"@ =~= new);
    assert("> "@ =~= seq!['>', ' ']);
    if text::starts_with(app.input, "@new"@) {
        assert(app.input.subrange(0, 4)[0] == '@');
    }
    if app.input == new + rest {
        assert((new + rest).subrange(0, 4) =~= new);
    }
}

/// Nothing but enter in normal mode sends anything.
pub proof fn law_only_enter_sends(app: AppView, key: KeyPress)
    ensures
        key.code != KeyCode::Enter ==> app.sends(key) is None,
        app.mode != InputMode::Normal ==> app.sends(key) is None,
{
}

/// Control and `c` ends the program, control and `i` opens the chat; both leave the
/// input alone. Escape and keys without a meaning do nothing in normal mode.
pub proof fn law_control_keys(app: AppView, key: KeyPress)
    ensures
        key.modifiers == Modifiers::Control && key.code == KeyCode::Char('c') ==> app.normal(key)
            == (AppView { should_quit: true, ..app }),
        key.modifiers == Modifiers::Control && key.code == KeyCode::Char('i') ==> {
            &&& app.normal(key).mode == InputMode::Ai
            &&& app.normal(key).chat.visible
            &&& app.normal(key).chat.messages == app.chat.messages
            &&& app.normal(key).chat.input == app.chat.input
            &&& app.normal(key).input == app.input
            &&& app.normal(key).cursor == app.cursor
            &&& app.normal(key).should_quit == app.should_quit
            &&& app.normal(key).terminal_buffer == app.terminal_buffer
        },
        key.code == KeyCode::Esc || key.code == KeyCode::Other ==> app.normal(key) == app,
{
}

/// In the chat a character goes behind the input and backspace takes the last one
/// back, escape hides the chat, and enter, by itself, adds the question and its
/// answer and empties the input. Nothing there touches the command line.
pub proof fn law_chat_keys(
    app: AppView,
    key: KeyPress,
    c: char,
    back: KeyPress,
    sent: (int, int),
    answered: (int, int),
)
    requires
        back.code == KeyCode::Backspace,
    ensures
        ({
            let r = app.chatting(key, sent, answered);
            &&& r.input == app.input
            &&& r.cursor == app.cursor
            &&& r.terminal_buffer == app.terminal_buffer
            &&& r.should_quit == app.should_quit
            &&& key.code != KeyCode::Esc ==> r.mode == app.mode && r.chat.visible
                == app.chat.visible
            &&& key.code == KeyCode::Esc ==> r.mode == InputMode::Normal && !r.chat.visible
                && r.chat.input == app.chat.input
            &&& key.code != KeyCode::Enter ==> r.chat.messages == app.chat.messages
            &&& key.code == KeyCode::Char(c) ==> r.chat.input == app.chat.input.push(c)
            &&& key.code == KeyCode::Char(c) ==> r.chatting(back, sent, answered).chat.input
                == app.chat.input
            &&& key.code == KeyCode::Enter && key.modifiers == Modifiers::Plain
                && app.chat.input.len() > 0 ==> {
                &&& r.chat.input.len() == 0
                &&& r.chat.messages.len() == app.chat.messages.len() + 2
                &&& r.chat.messages.take(app.chat.messages.len() as int) == app.chat.messages
                &&& r.chat.messages[app.chat.messages.len() as int].sender == ChatSender::User
                &&& r.chat.messages[app.chat.messages.len() as int].content == app.chat.input
                &&& r.chat.messages[app.chat.messages.len() as int].at == sent
                &&& r.chat.messages.last().sender == ChatSender::Ai
                &&& r.chat.messages.last().content == PLACEHOLDER_REPLY@
                &&& r.chat.messages.last().at == answered
            }
            &&& key.code == KeyCode::Enter && (key.modifiers != Modifiers::Plain
                || app.chat.input.len() == 0) ==> r == app
        }),
        app.chat.input.len() == 0 ==> app.chatting(back, sent, answered) == app,
        app.chat.input.len() > 0 ==> app.chatting(back, sent, answered).chat.input
            == app.chat.input.take(app.chat.input.len() - 1),
{
    let r = app.chatting(key, sent, answered);
    let n = app.chat.messages.len() as int;
    if key.code == KeyCode::Char(c) {
        assert(app.chat.input.push(c).drop_last() =~= app.chat.input);
    }
    if r.chat.messages.len() == n + 2 {
        assert(r.chat.messages.take(n) =~= app.chat.messages);
    }
    if app.chat.input.len() > 0 {
        assert(app.chat.input.drop_last() =~= app.chat.input.take(app.chat.input.len() - 1));
    }
}

/// Keys go to the command line in normal mode, and to the chat in the two others.
pub proof fn law_keys_go_by_the_mode(
    app: AppView,
    key: KeyPress,
    sent: (int, int),
    answered: (int, int),
)
    ensures
        app.mode == InputMode::Normal ==> app.pressed(key, sent, answered) == app.normal(key)
            && app.shown_input() == app.input && app.cursor_offset() == app.cursor as int % 0x10000,
        app.mode == InputMode::Ai || app.mode == InputMode::Scaffold ==> app.pressed(
            key,
            sent,
            answered,
        ) == app.chatting(key, sent, answered) && app.shown_input() == app.chat.input
            && app.cursor_offset() == text::byte_len(app.chat.input) % 0x10000,
{
}

/// What is said in the chat comes behind what was said before, with its sender and
/// its moment, and changes nothing else.
pub proof fn law_messages_are_added(
    app: AppView,
    sender: ChatSender,
    content: Seq<char>,
    now: (int, int),
)
    ensures
        ({
            let r = app.said(sender, content, now);
            &&& r.chat.messages.len() == app.chat.messages.len() + 1
            &&& r.chat.messages.drop_last() == app.chat.messages
            &&& r.chat.messages.last().sender == sender
            &&& r.chat.messages.last().content == content
            &&& r.chat.messages.last().at == now
            &&& r.chat.input == app.chat.input
            &&& r.chat.visible == app.chat.visible
            &&& r.input == app.input
            &&& r.cursor == app.cursor
            &&& r.mode == app.mode
            &&& r.terminal_buffer == app.terminal_buffer
            &&& r.should_quit == app.should_quit
        }),
        sender_prefix(ChatSender::User) == "You: "@,
        sender_prefix(ChatSender::Ai) == "AI:  "@,
        mode_name(InputMode::Normal) == "NORMAL"@,
        mode_name(InputMode::Ai) == "AI"@,
        mode_name(InputMode::Scaffold) == "SCAFFOLD"@,
{
    assert(app.said(sender, content, now).chat.messages.drop_last() =~= app.chat.messages);
}

/// Of terminal output the last thousand lines are kept; fewer are all kept.
pub proof fn law_last_thousand_lines_are_kept(before: Seq<Seq<char>>, last: Seq<Seq<char>>)
    ensures
        MAX_TERMINAL_LINES == 1000,
        last_lines(before + last, last.len()) == last,
        before.len() + last.len() <= 1000 ==> last_lines(before + last, 1000) == before + last,
{
    if before.len() > 0 {
        assert((before + last).skip(before.len() as int) =~= last);
    } else {
        assert(before + last =~= last);
    }
}

/// The overlay can be laid out on screens of up to 8191 columns and lines.
pub proof fn law_overlay_needs_a_screen(width: u16, height: u16)
    ensures
        can_overlay(width, height) <==> width <= 8191 && height <= 8191,
{
}

} // verus!
