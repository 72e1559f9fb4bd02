//! The terminal: its sizes, how its shell is started, and the handler that
//! turns parsed control sequences into output records and cursor moves.

use vstd::prelude::*;
use vstd::utf8::*;
use crate::text;

verus! {

/// Configuration for the terminal.
#[derive(Debug, Clone)]
pub struct Config {
    /// The shell to spawn (e.g., "fish", "bash", "zsh").
    pub shell: String,
}

impl Default for Config {
    fn default() -> (r: Self)
        ensures
            r.shell@ == "fish"@,
    {
        Config { shell: "fish".to_owned() }
    }
}

/// Represents terminal output data.
#[derive(Debug, Clone)]
pub struct TerminalOutput {
    /// Raw content received from the PTY.
    pub content: String,
    /// Whether this is a control sequence or regular text.
    pub is_control: bool,
    /// Optional CSI parameters for control sequences.
    pub csi_params: Option<Vec<u16>>,
    /// Optional action character for CSI sequences.
    pub csi_action: Option<char>,
}

/// What a `TerminalOutput` holds.
pub struct OutputView {
    pub content: Seq<char>,
    pub is_control: bool,
    pub csi_params: Option<Seq<u16>>,
    pub csi_action: Option<char>,
}

impl View for TerminalOutput {
    type V = OutputView;

    open spec fn view(&self) -> OutputView {
        OutputView {
            content: self.content@,
            is_control: self.is_control,
            csi_params: match self.csi_params {
                Some(p) => Some(p@),
                None => None,
            },
            csi_action: self.csi_action,
        }
    }
}

/// A record of plain text.
pub open spec fn plain_output(content: Seq<char>) -> OutputView {
    OutputView { content, is_control: false, csi_params: None, csi_action: None }
}

/// A record of a control sequence without CSI parameters.
pub open spec fn control_output(content: Seq<char>) -> OutputView {
    OutputView { content, is_control: true, csi_params: None, csi_action: None }
}

/// Makes a record of plain text.
pub fn plain(content: String) -> (r: TerminalOutput)
    ensures
        r@ == plain_output(content@),
{
    TerminalOutput { content, is_control: false, csi_params: None, csi_action: None }
}

/// Makes a record of a control sequence without CSI parameters.
pub fn control(content: String) -> (r: TerminalOutput)
    ensures
        r@ == control_output(content@),
{
    TerminalOutput { content, is_control: true, csi_params: None, csi_action: None }
}

/// The size of a pseudo terminal.
#[derive(Debug, Clone, Copy, PartialEq, Eq, Structural)]
pub struct PtySize {
    pub rows: u16,
    pub cols: u16,
    pub pixel_width: u16,
    pub pixel_height: u16,
}

/// The size of the screen that the terminal is shown on.
#[derive(Debug, Clone, Copy, PartialEq, Eq, Structural)]
pub struct ScreenSize {
    pub rows: usize,
    pub cols: usize,
    pub xpixel: usize,
    pub ypixel: usize,
}

/// The texts joined with `sep` between them.
pub open spec fn join(parts: Seq<Seq<char>>, sep: char) -> Seq<char>
    decreases parts.len(),
{
    if parts.len() == 0 {
        seq![]
    } else if parts.len() == 1 {
        parts[0]
    } else {
        join(parts.drop_last(), sep).push(sep) + parts.last()
    }
}

/// The numbers in decimal notation.
pub open spec fn decimals(values: Seq<u16>) -> Seq<Seq<char>> {
    values.map_values(|v: u16| text::decimal(v as nat))
}

/// The parameters of a control sequence as text: `inner` stands between the
/// values of one parameter, `;` between the parameters.
pub open spec fn params_text(params: Seq<Vec<u16>>, inner: char) -> Seq<char> {
    join(params.map_values(|p: Vec<u16>| join(decimals(p@), inner)), ';')
}

/// Bytes read as characters, one for one.
pub open spec fn latin(bytes: Seq<u8>) -> Seq<char> {
    bytes.map_values(|b: u8| b as char)
}

/// The first value of each parameter; 0 for one that has none.
pub open spec fn first_values(params: Seq<Vec<u16>>) -> Seq<u16> {
    params.map_values(|p: Vec<u16>| if p@.len() > 0 { p@[0] } else { 0u16 })
}

/// The parameter at `i`, or 1 if it was not given.
pub open spec fn param_or_one(params: Seq<Vec<u16>>, i: int) -> int {
    if i < params.len() {
        first_values(params)[i] as int
    } else {
        1
    }
}

/// The smaller of two numbers.
pub open spec fn least(a: int, b: int) -> int {
    if a <= b {
        a
    } else {
        b
    }
}

/// What `std::str::from_utf8` reads from the bytes: their text where they are
/// valid UTF-8, and nothing where they are not.
#[verifier::external_body]
fn utf8_text(bytes: &Vec<u8>) -> (r: Option<String>)
    ensures
        match r {
            Some(t) => valid_utf8(bytes@) && t@ == decode_utf8(bytes@),
            None => !valid_utf8(bytes@),
        },
{
    std::str::from_utf8(bytes).ok().map(|t| t.to_string())
}

/// The text of one OSC parameter: empty where it is not valid UTF-8.
pub open spec fn osc_param(bytes: Seq<u8>) -> Seq<char> {
    if valid_utf8(bytes) {
        decode_utf8(bytes)
    } else {
        seq![]
    }
}

/// An OSC sequence: ESC, `]`, the parameters, and BEL or the string terminator.
pub open spec fn osc_text(params: Seq<Vec<u8>>, bell_terminated: bool) -> Seq<char> {
    seq!['\x1b', ']'] + join(params.map_values(|p: Vec<u8>| osc_param(p@)), ';') + (
    if bell_terminated {
        seq!['\x07']
    } else {
        seq!['\x1b', '\\']
    })
}

/// Whether an OSC sequence is dealt with here: a title (0, 2), the colour
/// palette (4) or its reset (104).
pub open spec fn osc_handled(params: Seq<Vec<u8>>) -> bool {
    params.len() > 0 && {
        ||| params[0]@ == seq![0x30u8]
        ||| params[0]@ == seq![0x32u8]
        ||| params[0]@ == seq![0x34u8]
        ||| params[0]@ == seq![0x31u8, 0x30u8, 0x34u8]
    }
}

/// The handler for parsed terminal sequences.
#[derive(Debug)]
pub struct VteHandler {
    /// The size that the cursor moves in.
    pub terminal_size: PtySize,
    /// Text not yet put out.
    pub current_line: String,
    /// Buffer for collecting a device control string.
    pub ansi_buffer: String,
    /// Current cursor position (row, column).
    pub cursor_pos: (u16, u16),
    /// Tracks if we're in the middle of a control sequence.
    pub in_control_sequence: bool,
    /// The records put out so far, the earliest first.
    pub outputs: Vec<TerminalOutput>,
}

/// What a `VteHandler` holds.
pub struct HandlerView {
    pub rows: int,
    pub cols: int,
    pub line: Seq<char>,
    pub ansi: Seq<char>,
    pub row: int,
    pub col: int,
    pub in_control: bool,
    pub sent: Seq<OutputView>,
}

impl View for VteHandler {
    type V = HandlerView;

    open spec fn view(&self) -> HandlerView {
        HandlerView {
            rows: self.terminal_size.rows as int,
            cols: self.terminal_size.cols as int,
            line: self.current_line@,
            ansi: self.ansi_buffer@,
            row: self.cursor_pos.0 as int,
            col: self.cursor_pos.1 as int,
            in_control: self.in_control_sequence,
            sent: self.outputs@.map_values(|o: TerminalOutput| o@),
        }
    }
}

impl HandlerView {
    /// The handler before anything was read.
    pub open spec fn fresh(size: PtySize) -> HandlerView {
        HandlerView {
            rows: size.rows as int,
            cols: size.cols as int,
            line: seq![],
            ansi: seq![],
            row: 0,
            col: 0,
            in_control: false,
            sent: seq![],
        }
    }

    /// With one more record put out.
    pub open spec fn send(self, o: OutputView) -> HandlerView {
        HandlerView { sent: self.sent.push(o), ..self }
    }

    /// With the pending text, if there is any, put out.
    pub open spec fn flushed(self) -> HandlerView {
        if self.line.len() == 0 {
            self
        } else {
            HandlerView {
                line: seq![],
                sent: self.sent.push(plain_output(self.line)),
                ..self
            }
        }
    }

    /// Whether the cursor can move to the next line.
    pub open spec fn down_fits(self) -> bool {
        self.row < u16::MAX && self.rows > 0
    }

    /// The cursor on the next line, or on the last one.
    pub open spec fn down(self) -> HandlerView {
        HandlerView { row: least(self.row + 1, self.rows - 1), ..self }
    }

    /// Whether the cursor can move on by `n` columns.
    pub open spec fn forward_fits(self, n: int) -> bool {
        &&& self.col + n <= u16::MAX
        &&& self.col + n >= self.cols ==> self.cols > 0 && self.down_fits()
    }

    /// The cursor `n` columns on; past the last column it goes on in the next
    /// line, by as much as it went past.
    pub open spec fn forward(self, n: int) -> HandlerView {
        if self.col + n < self.cols {
            HandlerView { col: self.col + n, ..self }
        } else {
            HandlerView { col: (self.col + n) % self.cols, ..self }.down()
        }
    }

    /// Whether one character can be shown.
    pub open spec fn show_fits(self) -> bool {
        self.in_control || {
            &&& self.col < u16::MAX
            &&& self.col + 1 >= self.cols ==> self.down_fits()
        }
    }

    /// With the character `c` shown: collected while inside a control
    /// sequence, else added to the line, the cursor moving one column on or to
    /// the start of the next line.
    pub open spec fn show(self, c: char) -> HandlerView {
        if self.in_control {
            HandlerView { ansi: self.ansi.push(c), ..self }
        } else if self.col + 1 < self.cols {
            HandlerView { line: self.line.push(c), col: self.col + 1, ..self }
        } else {
            HandlerView { line: self.line.push(c), col: 0, ..self }.down()
        }
    }

    /// Whether the control character `byte` can be carried out.
    pub open spec fn execute_fits(self, byte: u8) -> bool {
        if byte == 0x0A || byte == 0x0B || byte == 0x0C {
            self.down_fits()
        } else if byte == 0x09 {
            self.forward_fits(8 - self.col % 8)
        } else if byte == 0x0D || byte == 0x07 || byte == 0x08 || byte >= 32 {
            true
        } else {
            self.forward_fits(2)
        }
    }

    /// With the control character `byte` carried out.
    pub open spec fn execute(self, byte: u8) -> HandlerView {
        if byte == 0x0D {
            HandlerView { line: self.line.push('\r'), col: 0, ..self }
        } else if byte == 0x0A || byte == 0x0B || byte == 0x0C {
            HandlerView {
                line: seq![],
                sent: self.sent.push(plain_output(self.line.push('\n'))),
                ..self
            }.down()
        } else if byte == 0x09 {
            let spaces = 8 - self.col % 8;
            HandlerView {
                line: self.line + Seq::new(spaces as nat, |i: int| ' '),
                ..self
            }.forward(spaces)
        } else if byte == 0x08 {
            HandlerView {
                line: if self.line.len() > 0 {
                    self.line.drop_last()
                } else {
                    self.line
                },
                col: if self.col > 0 {
                    self.col - 1
                } else {
                    0
                },
                ..self
            }
        } else if byte == 0x07 || byte >= 32 {
            self
        } else {
            HandlerView {
                line: self.line.push('^').push(((byte + 64) as u8) as char),
                ..self
            }.forward(2)
        }
    }

    /// With a device control string begun.
    pub open spec fn hook(
        self,
        params: Seq<Vec<u16>>,
        intermediates: Seq<u8>,
        action: char,
    ) -> HandlerView {
        HandlerView {
            in_control: true,
            ansi: seq!['\x1b', action] + latin(intermediates) + params_text(params, ';'),
            ..self
        }
    }

    /// With the device control string ended and put out.
    pub open spec fn unhook(self) -> HandlerView {
        HandlerView {
            in_control: false,
            ansi: seq![],
            sent: self.sent.push(control_output(self.ansi)),
            ..self
        }
    }

    /// With an OSC sequence dealt with or put out.
    pub open spec fn osc(self, params: Seq<Vec<u8>>, bell_terminated: bool) -> HandlerView {
        if osc_handled(params) {
            self.flushed()
        } else {
            self.flushed().send(control_output(osc_text(params, bell_terminated)))
        }
    }

    /// Whether a CSI sequence can be carried out.
    pub open spec fn csi_fits(self, params: Seq<Vec<u16>>, action: char) -> bool {
        let n = param_or_one(params, 0);
        if action == 'B' && n > 0 {
            self.row + n <= u16::MAX && self.rows > 0
        } else if action == 'C' && n > 0 {
            self.col + n <= u16::MAX && self.cols > 0
        } else {
            true
        }
    }

    /// The cursor moved as a CSI sequence says.
    pub open spec fn csi_moved(self, params: Seq<Vec<u16>>, action: char) -> HandlerView {
        let n = param_or_one(params, 0);
        if action == 'A' {
            HandlerView {
                row: if self.row > n {
                    self.row - n
                } else {
                    0
                },
                ..self
            }
        } else if action == 'B' && n > 0 {
            HandlerView { row: least(self.row + n, self.rows - 1), ..self }
        } else if action == 'C' && n > 0 {
            HandlerView { col: least(self.col + n, self.cols - 1), ..self }
        } else if action == 'D' {
            HandlerView {
                col: if self.col > n {
                    self.col - n
                } else {
                    0
                },
                ..self
            }
        } else if action == 'H' || action == 'f' {
            let m = param_or_one(params, 1);
            HandlerView {
                row: if n > 0 {
                    n - 1
                } else {
                    0
                },
                col: if m > 0 {
                    m - 1
                } else {
                    0
                },
                ..self
            }
        } else {
            self
        }
    }

    /// With a CSI sequence carried out and put out.
    pub open spec fn csi(
        self,
        params: Seq<Vec<u16>>,
        intermediates: Seq<u8>,
        action: char,
    ) -> HandlerView {
        self.flushed().csi_moved(params, action).send(
            OutputView {
                content: (seq!['\x1b', '['] + params_text(params, ':') + latin(
                    intermediates,
                )).push(action),
                is_control: true,
                csi_params: Some(first_values(params)),
                csi_action: Some(action),
            },
        )
    }

    /// Whether an escape sequence can be carried out.
    pub open spec fn esc_fits(self, byte: u8) -> bool {
        byte == 0x44 ==> self.down_fits()
    }

    /// With an escape sequence carried out and put out: `D` moves down, `M`
    /// moves up, `c` moves to the first row and column.
    pub open spec fn esc(self, intermediates: Seq<u8>, byte: u8) -> HandlerView {
        let flushed = self.flushed();
        let moved = if byte == 0x44 {
            flushed.down()
        } else if byte == 0x4D {
            HandlerView {
                row: if flushed.row > 0 {
                    flushed.row - 1
                } else {
                    0
                },
                ..flushed
            }
        } else if byte == 0x63 {
            HandlerView { row: 0, col: 0, ..flushed }
        } else {
            flushed
        };
        moved.send(control_output((seq!['\x1b'] + latin(intermediates)).push(byte as char)))
    }
}

/// `join` with one more part at the end.
proof fn lemma_join_push(parts: Seq<Seq<char>>, last: Seq<char>, sep: char)
    ensures
        join(parts.push(last), sep) == if parts.len() == 0 {
            last
        } else {
            join(parts, sep).push(sep) + last
        },
{
    assert(parts.push(last).drop_last() =~= parts);
}

/// Appends the numbers in decimal notation with `sep` between them.
fn push_joined(out: &mut String, values: &Vec<u16>, sep: char)
    ensures
        final(out)@ == old(out)@ + join(decimals(values@), sep),
{
    let mut i: usize = 0;
    assert(out@ =~= old(out)@ + join(decimals(values@.take(0)), sep));
    while i < values.len()
        invariant
            i <= values@.len(),
            out@ == old(out)@ + join(decimals(values@.take(i as int)), sep),
        decreases values@.len() - i,
    {
        if i > 0 {
            out.push(sep);
        }
        text::push_decimal(out, values[i] as u64);
        proof {
            let before = decimals(values@.take(i as int));
            lemma_join_push(before, text::decimal(values@[i as int] as nat), sep);
            assert(decimals(values@.take(i + 1)) =~= before.push(
                text::decimal(values@[i as int] as nat),
            ));
            assert(out@ =~= old(out)@ + join(decimals(values@.take(i + 1)), sep));
        }
        i += 1;
    }
    assert(values@.take(i as int) =~= values@);
}

/// Appends the parameters of a control sequence.
fn push_params(out: &mut String, params: &Vec<Vec<u16>>, inner: char)
    ensures
        final(out)@ == old(out)@ + params_text(params@, inner),
{
    let ghost part = |p: Vec<u16>| join(decimals(p@), inner);
    let mut i: usize = 0;
    assert(out@ =~= old(out)@ + join(params@.take(0).map_values(part), ';'));
    while i < params.len()
        invariant
            i <= params@.len(),
            part == (|p: Vec<u16>| join(decimals(p@), inner)),
            out@ == old(out)@ + join(params@.take(i as int).map_values(part), ';'),
        decreases params@.len() - i,
    {
        if i > 0 {
            out.push(';');
        }
        push_joined(out, &params[i], inner);
        proof {
            let before = params@.take(i as int).map_values(part);
            lemma_join_push(before, part(params@[i as int]), ';');
            assert(params@.take(i + 1).map_values(part) =~= before.push(part(params@[i as int])));
            assert(out@ =~= old(out)@ + join(params@.take(i + 1).map_values(part), ';'));
        }
        i += 1;
    }
    assert(params@.take(i as int) =~= params@);
}

/// Appends the bytes as characters.
fn push_latin(out: &mut String, bytes: &Vec<u8>)
    ensures
        final(out)@ == old(out)@ + latin(bytes@),
{
    let mut i: usize = 0;
    assert(out@ =~= old(out)@ + latin(bytes@.take(0)));
    while i < bytes.len()
        invariant
            i <= bytes@.len(),
            out@ == old(out)@ + latin(bytes@.take(i as int)),
        decreases bytes@.len() - i,
    {
        out.push(bytes[i] as char);
        assert(out@ =~= old(out)@ + latin(bytes@.take(i + 1)));
        i += 1;
    }
    assert(bytes@.take(i as int) =~= bytes@);
}

/// Whether the bytes are those given.
fn same_bytes(a: &Vec<u8>, b: &[u8]) -> (r: bool)
    ensures
        r == (a@ == b@),
{
    if a.len() != b.len() {
        return false;
    }
    let mut i: usize = 0;
    while i < a.len()
        invariant
            i <= a@.len() == b@.len(),
            forall|j: int| 0 <= j < i ==> a@[j] == b@[j],
        decreases a@.len() - i,
    {
        if a[i] != b[i] {
            return false;
        }
        i += 1;
    }
    assert(a@ =~= b@);
    true
}

/// Whether an OSC sequence is dealt with here.
fn is_handled_osc(params: &Vec<Vec<u8>>) -> (r: bool)
    ensures
        r == osc_handled(params@),
{
    let icon: [u8; 1] = [0x30];
    let title: [u8; 1] = [0x32];
    let palette: [u8; 1] = [0x34];
    let reset: [u8; 3] = [0x31, 0x30, 0x34];
    proof {
        assert(icon@ =~= seq![0x30u8]);
        assert(title@ =~= seq![0x32u8]);
        assert(palette@ =~= seq![0x34u8]);
        assert(reset@ =~= seq![0x31u8, 0x30u8, 0x34u8]);
    }
    params.len() > 0 && (same_bytes(&params[0], &icon) || same_bytes(&params[0], &title)
        || same_bytes(&params[0], &palette) || same_bytes(&params[0], &reset))
}

impl VteHandler {
    /// A handler for a terminal of the given size.
    pub fn new(terminal_size: PtySize) -> (r: Self)
        ensures
            r@ == HandlerView::fresh(terminal_size),
            r.terminal_size == terminal_size,
    {
        let r = VteHandler {
            terminal_size,
            current_line: String::new(),
            ansi_buffer: String::new(),
            cursor_pos: (0, 0),
            in_control_sequence: false,
            outputs: Vec::new(),
        };
        assert(r@.sent =~= seq![]);
        r
    }

    /// Puts out one record.
    fn send(&mut self, output: TerminalOutput)
        ensures
            final(self)@ == old(self)@.send(output@),
            final(self).terminal_size == old(self).terminal_size,
    {
        self.outputs.push(output);
        assert(self@.sent =~= old(self)@.sent.push(output@));
    }

    /// Hands over the records put out so far.
    pub fn take_outputs(&mut self) -> (r: Vec<TerminalOutput>)
        ensures
            r@ == old(self).outputs@,
            final(self)@ == (HandlerView { sent: seq![], ..old(self)@ }),
            final(self).terminal_size == old(self).terminal_size,
    {
        let mut r: Vec<TerminalOutput> = Vec::new();
        r.append(&mut self.outputs);
        assert(self@.sent =~= seq![]);
        r
    }

    /// Takes over a new terminal size.
    pub fn set_terminal_size(&mut self, size: PtySize)
        ensures
            final(self)@ == (HandlerView {
                rows: size.rows as int,
                cols: size.cols as int,
                ..old(self)@
            }),
            final(self).terminal_size == size,
    {
        self.terminal_size = size;
    }

    /// Puts out the pending text, if there is any.
    pub fn flush_line_sync(&mut self)
        ensures
            final(self)@ == old(self)@.flushed(),
            final(self).terminal_size == old(self).terminal_size,
    {
        if !self.current_line.as_str().is_empty() {
            let content = self.current_line.clone();
            self.current_line = String::new();
            self.send(plain(content));
        }
    }

    /// Puts out a control sequence.
    pub fn send_control_sequence_sync(
        &mut self,
        seq: String,
        params: Option<Vec<u16>>,
        action: Option<char>,
    )
        ensures
            final(self)@ == old(self)@.send(
                OutputView {
                    content: seq@,
                    is_control: true,
                    csi_params: match params {
                        Some(p) => Some(p@),
                        None => None,
                    },
                    csi_action: action,
                },
            ),
            final(self).terminal_size == old(self).terminal_size,
    {
        self.send(
            TerminalOutput {
                content: seq,
                is_control: true,
                csi_params: params,
                csi_action: action,
            },
        );
    }

    /// Whether the cursor can move to the next line.
    fn down_fits(&self) -> (r: bool)
        ensures
            r == self@.down_fits(),
    {
        self.cursor_pos.0 < u16::MAX && self.terminal_size.rows > 0
    }

    /// Whether the cursor can move on by `n` columns.
    fn forward_fits(&self, n: u16) -> (r: bool)
        requires
            n <= 8,
        ensures
            r == self@.forward_fits(n as int),
    {
        let cols: u16 = self.terminal_size.cols;
        self.cursor_pos.1 <= u16::MAX - n && (self.cursor_pos.1 + n < cols || (cols > 0
            && self.down_fits()))
    }

    /// Moves the cursor to the next line, or keeps it on the last one.
    fn down(&mut self)
        requires
            old(self)@.down_fits(),
        ensures
            final(self)@ == old(self)@.down(),
            final(self).terminal_size == old(self).terminal_size,
    {
        let (row, col) = self.cursor_pos;
        let next: u16 = if row + 1 >= self.terminal_size.rows {
            self.terminal_size.rows - 1
        } else {
            row + 1
        };
        self.cursor_pos = (next, col);
    }

    /// Moves the cursor on by `n` columns.
    fn forward(&mut self, n: u16)
        requires
            0 < n <= 8,
            old(self)@.forward_fits(n as int),
        ensures
            final(self)@ == old(self)@.forward(n as int),
            final(self).terminal_size == old(self).terminal_size,
    {
        let (row, col) = self.cursor_pos;
        if col + n < self.terminal_size.cols {
            self.cursor_pos = (row, col + n);
        } else {
            self.cursor_pos = (row, (col + n) % self.terminal_size.cols);
            self.down();
        }
    }

    /// Whether `print` and `put` can show one more character.
    pub fn can_print(&self) -> (r: bool)
        ensures
            r == self@.show_fits(),
    {
        self.in_control_sequence || (self.cursor_pos.1 < u16::MAX && (self.cursor_pos.1 + 1
            < self.terminal_size.cols || self.down_fits()))
    }

    /// Shows a printable character.
    pub fn print(&mut self, c: char)
        requires
            old(self)@.show_fits(),
        ensures
            final(self)@ == old(self)@.show(c),
            final(self).terminal_size == old(self).terminal_size,
    {
        if self.in_control_sequence {
            self.ansi_buffer.push(c);
        } else {
            self.current_line.push(c);
            let (row, col) = self.cursor_pos;
            if col + 1 < self.terminal_size.cols {
                self.cursor_pos = (row, col + 1);
            } else {
                self.cursor_pos = (row, 0);
                self.down();
            }
        }
    }

    /// Shows a byte of a device control string.
    pub fn put(&mut self, byte: u8)
        requires
            old(self)@.show_fits(),
        ensures
            final(self)@ == old(self)@.show(byte as char),
            final(self).terminal_size == old(self).terminal_size,
    {
        self.print(byte as char);
    }

    /// Whether `execute` can carry out `byte`.
    pub fn can_execute(&self, byte: u8) -> (r: bool)
        ensures
            r == self@.execute_fits(byte),
    {
        if byte == 0x0A || byte == 0x0B || byte == 0x0C {
            self.down_fits()
        } else if byte == 0x09 {
            self.forward_fits(8 - self.cursor_pos.1 % 8)
        } else if byte == 0x0D || byte == 0x07 || byte == 0x08 || byte >= 32 {
            true
        } else {
            self.forward_fits(2)
        }
    }

    /// Carries out a control character: carriage return, line feed and its
    /// like, tab, backspace; others show as `^` and a letter.
    pub fn execute(&mut self, byte: u8)
        requires
            old(self)@.execute_fits(byte),
        ensures
            final(self)@ == old(self)@.execute(byte),
            final(self).terminal_size == old(self).terminal_size,
    {
        if byte == 0x0D {
            self.current_line.push('\r');
            let (row, col) = self.cursor_pos;
            self.cursor_pos = (row, 0);
        } else if byte == 0x0A || byte == 0x0B || byte == 0x0C {
            let mut content = self.current_line.clone();
            content.push('\n');
            self.current_line = String::new();
            self.send(plain(content));
            self.down();
        } else if byte == 0x09 {
            let spaces: u16 = 8 - self.cursor_pos.1 % 8;
            let mut i: u16 = 0;
            assert(self@.line =~= old(self)@.line + Seq::new(0, |i: int| ' '));
            while i < spaces
                invariant
                    i <= spaces,
                    self@ == (HandlerView {
                        line: old(self)@.line + Seq::new(i as nat, |i: int| ' '),
                        ..old(self)@
                    }),
                    self.terminal_size == old(self).terminal_size,
                decreases spaces - i,
            {
                self.current_line.push(' ');
                assert(self@.line =~= old(self)@.line + Seq::new((i + 1) as nat, |i: int| ' '));
                i += 1;
            }
            self.forward(spaces);
        } else if byte == 0x08 {
            let v = text::chars_of(self.current_line.as_str());
            if v.len() > 0 {
                self.current_line = text::string_of(&v, 0, v.len() - 1);
                assert(v@.subrange(0, v@.len() - 1) =~= old(self)@.line.drop_last());
            }
            let (row, col) = self.cursor_pos;
            if col > 0 {
                self.cursor_pos = (row, col - 1);
            }
        } else if byte < 32 && byte != 0x07 {
            self.current_line.push('^');
            self.current_line.push((byte + 64) as char);
            self.forward(2);
        }
    }

    /// Begins a device control string.
    pub fn hook(
        &mut self,
        params: &Vec<Vec<u16>>,
        intermediates: &Vec<u8>,
        _ignore: bool,
        action: char,
    )
        ensures
            final(self)@ == old(self)@.hook(params@, intermediates@, action),
            final(self).terminal_size == old(self).terminal_size,
    {
        self.in_control_sequence = true;
        let mut buffer: String = String::new();
        buffer.push('\x1b');
        buffer.push(action);
        assert(buffer@ =~= seq!['\x1b', action]);
        push_latin(&mut buffer, intermediates);
        push_params(&mut buffer, params, ';');
        self.ansi_buffer = buffer;
    }

    /// Ends a device control string and puts it out.
    pub fn unhook(&mut self)
        ensures
            final(self)@ == old(self)@.unhook(),
            final(self).terminal_size == old(self).terminal_size,
    {
        self.in_control_sequence = false;
        let content = self.ansi_buffer.clone();
        self.ansi_buffer = String::new();
        self.send(control(content));
    }

    /// Deals with an operating system command: a change of title or of
    /// colours is taken in, any other is put out as it came.
    pub fn osc_dispatch(&mut self, params: &Vec<Vec<u8>>, bell_terminated: bool)
        ensures
            final(self)@ == old(self)@.osc(params@, bell_terminated),
            final(self).terminal_size == old(self).terminal_size,
    {
        self.flush_line_sync();
        let ghost part = |p: Vec<u8>| osc_param(p@);
        let mut osc: String = String::new();
        osc.push('\x1b');
        osc.push(']');
        let ghost head = osc@;
        assert(head =~= seq!['\x1b', ']']);
        let mut i: usize = 0;
        assert(osc@ =~= head + join(params@.take(0).map_values(part), ';'));
        while i < params.len()
            invariant
                i <= params@.len(),
                part == (|p: Vec<u8>| osc_param(p@)),
                osc@ == head + join(params@.take(i as int).map_values(part), ';'),
            decreases params@.len() - i,
        {
            if i > 0 {
                osc.push(';');
            }
            if let Some(t) = utf8_text(&params[i]) {
                osc.append(t.as_str());
            }
            proof {
                let before = params@.take(i as int).map_values(part);
                lemma_join_push(before, part(params@[i as int]), ';');
                assert(params@.take(i + 1).map_values(part) =~= before.push(
                    part(params@[i as int]),
                ));
                assert(osc@ =~= head + join(params@.take(i + 1).map_values(part), ';'));
            }
            i += 1;
        }
        assert(params@.take(i as int) =~= params@);
        let ghost body = osc@;
        if bell_terminated {
            osc.push('\x07');
            assert(osc@ =~= body + seq!['\x07']);
        } else {
            osc.push('\x1b');
            osc.push('\\');
            assert(osc@ =~= body + seq!['\x1b', '\\']);
        }
        if !is_handled_osc(params) {
            self.send(control(osc));
        }
    }

    /// Whether `csi_dispatch` can carry out the sequence.
    pub fn can_csi(&self, params: &Vec<Vec<u16>>, action: char) -> (r: bool)
        ensures
            r == self@.csi_fits(params@, action),
    {
        let n: u16 = param_of(params, 0);
        if action == 'B' && n > 0 {
            self.cursor_pos.0 <= u16::MAX - n && self.terminal_size.rows > 0
        } else if action == 'C' && n > 0 {
            self.cursor_pos.1 <= u16::MAX - n && self.terminal_size.cols > 0
        } else {
            true
        }
    }

    /// Moves the cursor as a CSI sequence says, and gives back the first
    /// value of each parameter with the action.
    pub fn process_csi(&mut self, params: &Vec<Vec<u16>>, action: char) -> (r: Option<
        (Vec<u16>, char),
    >)
        requires
            old(self)@.csi_fits(params@, action),
        ensures
            final(self)@ == old(self)@.csi_moved(params@, action),
            final(self).terminal_size == old(self).terminal_size,
            match r {
                Some((values, a)) => values@ == first_values(params@) && a == action,
                None => false,
            },
    {
        let parsed = parse_first_values(params);
        let n: u16 = param_of(params, 0);
        let (row, col) = self.cursor_pos;
        if action == 'A' {
            self.cursor_pos = (
                if row > n {
                    row - n
                } else {
                    0
                },
                col,
            );
        } else if action == 'B' {
            if n > 0 {
                let last: u16 = self.terminal_size.rows - 1;
                self.cursor_pos = (
                    if row + n <= last {
                        row + n
                    } else {
                        last
                    },
                    col,
                );
            }
        } else if action == 'C' {
            if n > 0 {
                let last: u16 = self.terminal_size.cols - 1;
                self.cursor_pos = (
                    row,
                    if col + n <= last {
                        col + n
                    } else {
                        last
                    },
                );
            }
        } else if action == 'D' {
            self.cursor_pos = (
                row,
                if col > n {
                    col - n
                } else {
                    0
                },
            );
        } else if action == 'H' || action == 'f' {
            let m: u16 = param_of(params, 1);
            self.cursor_pos = (
                if n > 0 {
                    n - 1
                } else {
                    0
                },
                if m > 0 {
                    m - 1
                } else {
                    0
                },
            );
        }
        Some((parsed, action))
    }

    /// Carries out a CSI sequence and puts it out.
    pub fn csi_dispatch(
        &mut self,
        params: &Vec<Vec<u16>>,
        intermediates: &Vec<u8>,
        _ignore: bool,
        action: char,
    )
        requires
            old(self)@.csi_fits(params@, action),
        ensures
            final(self)@ == old(self)@.csi(params@, intermediates@, action),
            final(self).terminal_size == old(self).terminal_size,
    {
        self.flush_line_sync();
        let mut csi: String = String::new();
        csi.push('\x1b');
        csi.push('[');
        assert(csi@ =~= seq!['\x1b', '[']);
        push_params(&mut csi, params, ':');
        push_latin(&mut csi, intermediates);
        csi.push(action);
        match self.process_csi(params, action) {
            Some((values, a)) => {
                self.send_control_sequence_sync(csi, Some(values), Some(a));
            },
            None => {
                self.send(control(csi));
            },
        }
    }

    /// Whether `esc_dispatch` can carry out the sequence.
    pub fn can_esc(&self, byte: u8) -> (r: bool)
        ensures
            r == self@.esc_fits(byte),
    {
        byte != 0x44 || self.down_fits()
    }

    /// Carries out an escape sequence and puts it out.
    pub fn esc_dispatch(&mut self, intermediates: &Vec<u8>, _ignore: bool, byte: u8)
        requires
            old(self)@.esc_fits(byte),
        ensures
            final(self)@ == old(self)@.esc(intermediates@, byte),
            final(self).terminal_size == old(self).terminal_size,
    {
        self.flush_line_sync();
        let mut esc: String = String::new();
        esc.push('\x1b');
        assert(esc@ =~= seq!['\x1b']);
        push_latin(&mut esc, intermediates);
        esc.push(byte as char);
        if byte == 0x44 {
            self.down();
        } else if byte == 0x4D {
            let (row, col) = self.cursor_pos;
            if row > 0 {
                self.cursor_pos = (row - 1, col);
            }
        } else if byte == 0x63 {
            self.cursor_pos = (0, 0);
        }
        self.send(control(esc));
    }
}

/// The parameter at `i`, or 1 if it was not given.
fn param_of(params: &Vec<Vec<u16>>, i: usize) -> (r: u16)
    ensures
        r == param_or_one(params@, i as int),
{
    if i >= params.len() {
        1
    } else if params[i].len() > 0 {
        params[i][0]
    } else {
        0
    }
}

/// The first value of each parameter; 0 for one that has none.
fn parse_first_values(params: &Vec<Vec<u16>>) -> (r: Vec<u16>)
    ensures
        r@ == first_values(params@),
{
    let mut out: Vec<u16> = Vec::new();
    let mut i: usize = 0;
    while i < params.len()
        invariant
            i <= params@.len(),
            out@ == first_values(params@.take(i as int)),
        decreases params@.len() - i,
    {
        let first: u16 = if params[i].len() > 0 {
            params[i][0]
        } else {
            0
        };
        out.push(first);
        assert(out@ =~= first_values(params@.take(i + 1)));
        i += 1;
    }
    assert(params@.take(i as int) =~= params@);
    out
}

/// A shell to start, and how.
#[derive(Debug)]
pub struct ShellCommand {
    /// The program.
    pub program: String,
    /// Its arguments.
    pub args: Vec<String>,
    /// Environment variables to set, as name and value.
    pub env: Vec<(String, String)>,
    /// The directory to start in; where there is none, that of the caller.
    pub cwd: Option<String>,
}

/// What came of reading from the PTY.
#[derive(Debug, Clone, Copy, PartialEq, Eq, Structural)]
pub enum ReadOutcome {
    /// The other side has closed.
    Closed,
    /// Some bytes came.
    Bytes,
    /// Nothing is there yet.
    WouldBlock,
    /// Reading failed.
    Failed,
}

/// What the output task does next.
#[derive(Debug, Clone, Copy, PartialEq, Eq, Structural)]
pub enum OutputStep {
    /// End the task.
    Stop,
    /// Hand the bytes to the parser, then flush the line.
    Feed,
    /// Wait for this many milliseconds, then read again.
    Wait(u64),
}

/// What the input task does with a line.
#[derive(Debug)]
pub enum InputStep {
    /// End the task.
    Stop,
    /// Write this text to the PTY.
    Write(String),
}

/// Where a size in cells or pixels is kept in 16 bits.
pub open spec fn low16(n: usize) -> int {
    n as int % 0x10000
}

/// Keeps the low 16 bits.
fn to_u16(n: usize) -> (r: u16)
    ensures
        r == low16(n),
{
    assert(n as u16 == n % 0x10000) by (bit_vector);
    n as u16
}

/// The state of the terminal that does not live in the operating system.
#[derive(Debug)]
pub struct Terminal {
    /// Configuration for this terminal instance.
    pub config: Config,
    /// Current terminal size.
    pub terminal_size: PtySize,
    /// Flag to indicate if the terminal is running.
    pub running: bool,
    /// Original terminal size (columns, rows), kept for restoration.
    pub original_size: Option<(u16, u16)>,
    /// Whether the shell was started and its PTY opened.
    pub initialized: bool,
}

impl Terminal {
    /// A new terminal with the given configuration, of 24 rows and 80 columns.
    pub fn new(config: Config) -> (r: Self)
        ensures
            r.config == config,
            r.terminal_size == (PtySize { rows: 24, cols: 80, pixel_width: 0, pixel_height: 0 }),
            r.running,
            r.original_size is None,
            !r.initialized,
    {
        Terminal {
            config,
            terminal_size: PtySize { rows: 24, cols: 80, pixel_width: 0, pixel_height: 0 },
            running: true,
            original_size: None,
            initialized: false,
        }
    }

    /// Converts a screen size into a PTY size.
    pub fn convert_screen_size(&self, size: &ScreenSize) -> (r: PtySize)
        ensures
            r.rows == low16(size.rows),
            r.cols == low16(size.cols),
            r.pixel_width == low16(size.xpixel),
            r.pixel_height == low16(size.ypixel),
    {
        PtySize {
            rows: to_u16(size.rows),
            cols: to_u16(size.cols),
            pixel_width: to_u16(size.xpixel),
            pixel_height: to_u16(size.ypixel),
        }
    }

    /// Converts a PTY size into a screen size.
    pub fn convert_pty_size(&self, size: &PtySize) -> (r: ScreenSize)
        ensures
            r.rows == size.rows,
            r.cols == size.cols,
            r.xpixel == size.pixel_width,
            r.ypixel == size.pixel_height,
    {
        ScreenSize {
            rows: size.rows as usize,
            cols: size.cols as usize,
            xpixel: size.pixel_width as usize,
            ypixel: size.pixel_height as usize,
        }
    }

    /// The screen size to go by: what was measured, or 24 rows of 80 columns.
    pub fn measured_or_default(measured: Option<ScreenSize>) -> (r: ScreenSize)
        ensures
            r == match measured {
                Some(size) => size,
                None => ScreenSize { rows: 24, cols: 80, xpixel: 0, ypixel: 0 },
            },
    {
        match measured {
            Some(size) => size,
            None => ScreenSize { rows: 24, cols: 80, xpixel: 0, ypixel: 0 },
        }
    }

    /// Whether `init` can take a screen of this size.
    pub fn can_init(screen: &ScreenSize) -> (r: bool)
        ensures
            r == (low16(screen.cols) * 8 <= u16::MAX && low16(screen.rows) * 16 <= u16::MAX),
    {
        to_u16(screen.cols) <= 8191 && to_u16(screen.rows) <= 4095
    }

    /// Takes over the screen size, keeps it for restoration, and says how to
    /// start the shell. `found` is where the configured shell was found;
    /// without it the shell is `/bin/sh`. A cell counts for 8 by 16 pixels.
    pub fn init(&mut self, screen: &ScreenSize, found: Option<String>, cwd: Option<String>) -> (r:
        ShellCommand)
        requires
            low16(screen.cols) * 8 <= u16::MAX,
            low16(screen.rows) * 16 <= u16::MAX,
        ensures
            final(self).config == old(self).config,
            final(self).running == old(self).running,
            final(self).initialized,
            final(self).original_size == Some(
                (low16(screen.cols) as u16, low16(screen.rows) as u16),
            ),
            final(self).terminal_size.rows == low16(screen.rows),
            final(self).terminal_size.cols == low16(screen.cols),
            final(self).terminal_size.pixel_width == low16(screen.cols) * 8,
            final(self).terminal_size.pixel_height == low16(screen.rows) * 16,
            r.program@ == match found {
                Some(path) => path@,
                None => "/bin/sh"@,
            },
            text::views(r.args@) == seq!["--login"@],
            r.env@.map_values(|e: (String, String)| (e.0@, e.1@)) == seq![
                ("TERM"@, "xterm-256color"@),
                ("LANG"@, "en_US.UTF-8"@),
                ("LC_ALL"@, "en_US.UTF-8"@),
            ],
            r.cwd == cwd,
    {
        let cols: u16 = to_u16(screen.cols);
        let rows: u16 = to_u16(screen.rows);
        self.original_size = Some((cols, rows));
        self.terminal_size = PtySize {
            rows,
            cols,
            pixel_width: cols * 8,
            pixel_height: rows * 16,
        };
        self.initialized = true;
        let program: String = match found {
            Some(path) => path,
            None => "/bin/sh".to_owned(),
        };
        let mut args: Vec<String> = Vec::new();
        args.push("--login".to_owned());
        let mut env: Vec<(String, String)> = Vec::new();
        env.push(("TERM".to_owned(), "xterm-256color".to_owned()));
        env.push(("LANG".to_owned(), "en_US.UTF-8".to_owned()));
        env.push(("LC_ALL".to_owned(), "en_US.UTF-8".to_owned()));
        assert(text::views(args@) =~= seq!["--login"@]);
        assert(env@.map_values(|e: (String, String)| (e.0@, e.1@)) =~= seq![
            ("TERM"@, "xterm-256color"@),
            ("LANG"@, "en_US.UTF-8"@),
            ("LC_ALL"@, "en_US.UTF-8"@),
        ]);
        ShellCommand { program, args, env, cwd }
    }

    /// Whether the terminal may run: it has to be initialized first.
    pub fn check_ready(&self) -> (r: Result<(), String>)
        ensures
            r is Ok <==> self.initialized,
            match r {
                Ok(_) => true,
                Err(e) => e@ == "Terminal not fully initialized"@,
            },
    {
        if self.initialized {
            Ok(())
        } else {
            Err("Terminal not fully initialized".to_owned())
        }
    }

    /// What the output task does after a read.
    pub fn output_step(running: bool, outcome: ReadOutcome) -> (r: OutputStep)
        ensures
            r == if !running {
                OutputStep::Stop
            } else {
                match outcome {
                    ReadOutcome::Bytes => OutputStep::Feed,
                    ReadOutcome::WouldBlock => OutputStep::Wait(10),
                    ReadOutcome::Closed => OutputStep::Stop,
                    ReadOutcome::Failed => OutputStep::Stop,
                }
            },
    {
        if !running {
            return OutputStep::Stop;
        }
        match outcome {
            ReadOutcome::Bytes => OutputStep::Feed,
            ReadOutcome::WouldBlock => OutputStep::Wait(10),
            ReadOutcome::Closed => OutputStep::Stop,
            ReadOutcome::Failed => OutputStep::Stop,
        }
    }

    /// What the input task writes for a line: the line, ended by a line feed.
    pub fn input_step(running: bool, line: String) -> (r: InputStep)
        ensures
            match r {
                InputStep::Stop => !running,
                InputStep::Write(t) => running && t@ == if line@.len() > 0 && line@.last() == '\n' {
                    line@
                } else {
                    line@.push('\n')
                },
            },
    {
        if !running {
            return InputStep::Stop;
        }
        let v = text::chars_of(line.as_str());
        let mut out = line;
        if !(v.len() > 0 && v[v.len() - 1] == '\n') {
            out.push('\n');
        }
        InputStep::Write(out)
    }

    /// Ends the terminal's tasks.
    pub fn emergency_restore(&mut self)
        ensures
            !final(self).running,
            final(self).config == old(self).config,
            final(self).terminal_size == old(self).terminal_size,
            final(self).original_size == old(self).original_size,
            final(self).initialized == old(self).initialized,
    {
        self.running = false;
    }

    /// The screen size to restore when the terminal goes away; none where no
    /// size was kept.
    pub fn restored_size(&self) -> (r: Option<ScreenSize>)
        requires
            match self.original_size {
                Some((cols, rows)) => cols * 8 <= u16::MAX && rows * 16 <= u16::MAX,
                None => true,
            },
        ensures
            r == match self.original_size {
                Some((cols, rows)) => Some(
                    ScreenSize {
                        rows: rows as usize,
                        cols: cols as usize,
                        xpixel: (cols * 8) as usize,
                        ypixel: (rows * 16) as usize,
                    },
                ),
                None => None,
            },
    {
        match self.original_size {
            Some((cols, rows)) => {
                let size = PtySize { rows, cols, pixel_width: cols * 8, pixel_height: rows * 16 };
                Some(self.convert_pty_size(&size))
            },
            None => None,
        }
    }
}

// Laws of the handler.

/// Whether the cursor stands on a cell of the terminal.
pub open spec fn inside(h: HandlerView) -> bool {
    0 <= h.row < h.rows && 0 <= h.col < h.cols
}

/// The plain text among the records.
pub open spec fn plain_text(sent: Seq<OutputView>) -> Seq<char>
    decreases sent.len(),
{
    if sent.len() == 0 {
        seq![]
    } else if sent.last().is_control {
        plain_text(sent.drop_last())
    } else {
        plain_text(sent.drop_last()) + sent.last().content
    }
}

/// All text shown so far, put out or pending.
pub open spec fn shown(h: HandlerView) -> Seq<char> {
    plain_text(h.sent) + h.line
}

/// A cursor on a cell of the terminal stays on one, whatever is printed,
/// executed or dispatched; only a CSI sequence that names a position may take
/// it elsewhere.
pub proof fn law_cursor_stays_inside(
    h: HandlerView,
    c: char,
    byte: u8,
    params: Seq<Vec<u16>>,
    intermediates: Seq<u8>,
    action: char,
)
    requires
        inside(h),
    ensures
        inside(h.show(c)),
        inside(h.execute(byte)),
        inside(h.esc(intermediates, byte)),
        action != 'H' && action != 'f' ==> inside(h.csi(params, intermediates, action)),
{
}

/// Records that were put out stay put out, in their order: every step only
/// adds to them.
pub proof fn law_outputs_only_grow(
    h: HandlerView,
    c: char,
    byte: u8,
    params: Seq<Vec<u16>>,
    osc_params: Seq<Vec<u8>>,
    bell_terminated: bool,
    intermediates: Seq<u8>,
    action: char,
)
    ensures
        h.sent.is_prefix_of(h.show(c).sent),
        h.sent.is_prefix_of(h.execute(byte).sent),
        h.sent.is_prefix_of(h.flushed().sent),
        h.sent.is_prefix_of(h.hook(params, intermediates, action).sent),
        h.sent.is_prefix_of(h.unhook().sent),
        h.sent.is_prefix_of(h.osc(osc_params, bell_terminated).sent),
        h.sent.is_prefix_of(h.csi(params, intermediates, action).sent),
        h.sent.is_prefix_of(h.esc(intermediates, byte).sent),
{
}

/// The plain text after one more record.
proof fn lemma_plain_text_push(sent: Seq<OutputView>, o: OutputView)
    ensures
        plain_text(sent.push(o)) == if o.is_control {
            plain_text(sent)
        } else {
            plain_text(sent) + o.content
        },
{
    assert(sent.push(o).drop_last() =~= sent);
}

/// No text is lost and none is made up: a printed character adds itself to
/// the text shown, a line feed adds itself, and flushing, control sequences
/// and device control strings leave the text as it was.
pub proof fn law_text_is_kept(
    h: HandlerView,
    c: char,
    byte: u8,
    params: Seq<Vec<u16>>,
    osc_params: Seq<Vec<u8>>,
    bell_terminated: bool,
    intermediates: Seq<u8>,
    action: char,
)
    ensures
        shown(h.show(c)) == if h.in_control {
            shown(h)
        } else {
            shown(h).push(c)
        },
        shown(h.execute(0x0A)) == shown(h).push('\n'),
        shown(h.execute(0x0D)) == shown(h).push('\r'),
        shown(h.flushed()) == shown(h),
        shown(h.hook(params, intermediates, action)) == shown(h),
        shown(h.unhook()) == shown(h),
        shown(h.osc(osc_params, bell_terminated)) == shown(h),
        shown(h.csi(params, intermediates, action)) == shown(h),
        shown(h.esc(intermediates, byte)) == shown(h),
{
    assert forall|o: OutputView|
        #![trigger h.sent.push(o)]
        true implies plain_text(h.sent.push(o)) == if o.is_control {
        plain_text(h.sent)
    } else {
        plain_text(h.sent) + o.content
    } by {
        lemma_plain_text_push(h.sent, o);
    }
    let f = h.flushed();
    assert(shown(f) =~= shown(h));
    assert forall|o: OutputView|
        #![trigger f.sent.push(o)]
        o.is_control implies plain_text(f.sent.push(o)) == plain_text(f.sent) by {
        lemma_plain_text_push(f.sent, o);
    }
    assert(shown(h.show(c)) =~= if h.in_control {
        shown(h)
    } else {
        shown(h).push(c)
    });
    assert(shown(h.execute(0x0A)) =~= shown(h).push('\n'));
    assert(shown(h.execute(0x0D)) =~= shown(h).push('\r'));
}

/// The handler after `bytes` of a device control string.
pub open spec fn put_all(h: HandlerView, bytes: Seq<u8>) -> HandlerView
    decreases bytes.len(),
{
    if bytes.len() == 0 {
        h
    } else {
        put_all(h, bytes.drop_last()).show(bytes.last() as char)
    }
}

/// A device control string comes out as one control record: its header and
/// then its bytes. The text, the cursor and the earlier records stay.
pub proof fn law_device_string_comes_out_whole(
    h: HandlerView,
    params: Seq<Vec<u16>>,
    intermediates: Seq<u8>,
    action: char,
    bytes: Seq<u8>,
)
    ensures
        put_all(h.hook(params, intermediates, action), bytes).unhook() == (HandlerView {
            ansi: seq![],
            in_control: false,
            sent: h.sent.push(
                control_output(h.hook(params, intermediates, action).ansi + latin(bytes)),
            ),
            ..h
        }),
    decreases bytes.len(),
{
    let start = h.hook(params, intermediates, action);
    lemma_put_all(start, bytes);
}

/// Inside a control sequence the bytes are collected and nothing else changes.
proof fn lemma_put_all(h: HandlerView, bytes: Seq<u8>)
    requires
        h.in_control,
    ensures
        put_all(h, bytes) == (HandlerView { ansi: h.ansi + latin(bytes), ..h }),
    decreases bytes.len(),
{
    if bytes.len() == 0 {
        assert(h.ansi + latin(bytes) =~= h.ansi);
    } else {
        lemma_put_all(h, bytes.drop_last());
        assert((h.ansi + latin(bytes.drop_last())).push(bytes.last() as char) =~= h.ansi + latin(
            bytes,
        ));
    }
}

/// A size in cells and pixels comes back as it was when it is converted to a
/// screen size and back.
pub proof fn law_sizes_convert_back(size: PtySize)
    ensures
        low16(size.rows as usize) == size.rows,
        low16(size.cols as usize) == size.cols,
        low16(size.pixel_width as usize) == size.pixel_width,
        low16(size.pixel_height as usize) == size.pixel_height,
{
}

/// Whether a control sequence names the count `n`.
pub open spec fn names_count(params: Seq<Vec<u16>>, n: int) -> bool {
    params.len() > 0 && params[0]@.len() > 0 && params[0]@[0] == n
}

/// The cell that the cursor stands on.
pub open spec fn cell(h: HandlerView) -> (int, int) {
    (h.row, h.col)
}

/// The cursor goes by as many rows or columns as a sequence names, and stops at
/// the edge of the screen, wherever it was put before. It keeps its column when it
/// goes up or down, and its row when it goes forward or back. A count of zero leaves
/// it where it is.
pub proof fn law_cursor_goes_by_the_count(
    h: HandlerView,
    params: Seq<Vec<u16>>,
    n: int,
    intermediates: Seq<u8>,
)
    requires
        names_count(params, n),
        h.row >= 0,
        h.col >= 0,
    ensures
        n <= h.row ==> cell(h.csi(params, intermediates, 'A')) == (h.row - n, h.col),
        n >= h.row ==> cell(h.csi(params, intermediates, 'A')) == (0int, h.col),
        h.row + n < h.rows ==> cell(h.csi(params, intermediates, 'B')) == (h.row + n, h.col),
        n > 0 && h.row + n >= h.rows ==> cell(h.csi(params, intermediates, 'B')) == (
            h.rows - 1,
            h.col,
        ),
        h.col + n < h.cols ==> cell(h.csi(params, intermediates, 'C')) == (h.row, h.col + n),
        n > 0 && h.col + n >= h.cols ==> cell(h.csi(params, intermediates, 'C')) == (
            h.row,
            h.cols - 1,
        ),
        n <= h.col ==> cell(h.csi(params, intermediates, 'D')) == (h.row, h.col - n),
        n >= h.col ==> cell(h.csi(params, intermediates, 'D')) == (h.row, 0int),
        n == 0 ==> cell(h.csi(params, intermediates, 'B')) == cell(h),
        n == 0 ==> cell(h.csi(params, intermediates, 'C')) == cell(h),
{
}

/// Carrying out a sequence moves the cursor and does nothing else; putting it out
/// moves the cursor no further.
pub proof fn law_sequence_moves_the_cursor_only(
    h: HandlerView,
    params: Seq<Vec<u16>>,
    intermediates: Seq<u8>,
    action: char,
)
    ensures
        cell(h.csi_moved(params, action)) == cell(h.csi(params, intermediates, action)),
        h.csi_moved(params, action) == (HandlerView {
            row: h.csi_moved(params, action).row,
            col: h.csi_moved(params, action).col,
            ..h
        }),
{
}

/// On a screen of up to 32767 rows and columns every character, every control
/// character and every escape sequence can be carried out wherever the cursor stands
/// inside, and so can every move by up to 32767.
pub proof fn law_everything_fits_inside(
    h: HandlerView,
    byte: u8,
    params: Seq<Vec<u16>>,
    n: int,
    action: char,
)
    requires
        inside(h),
        h.rows <= 32767,
        h.cols <= 32767,
        names_count(params, n),
        n <= 32767,
    ensures
        h.show_fits(),
        h.execute_fits(byte),
        h.esc_fits(byte),
        h.csi_fits(params, action),
        h.csi_fits(seq![], action),
{
}

/// A move is refused only where the cursor would leave the 16 bits that it is kept in,
/// or where the screen has no row or no column to stop at; up, back and everything
/// else is never refused.
pub proof fn law_moves_are_seldom_refused(
    h: HandlerView,
    params: Seq<Vec<u16>>,
    n: int,
    action: char,
)
    requires
        names_count(params, n),
    ensures
        n > 0 ==> (h.csi_fits(params, 'B') <==> h.row + n <= 65535 && h.rows > 0),
        n > 0 ==> (h.csi_fits(params, 'C') <==> h.col + n <= 65535 && h.cols > 0),
        n == 0 ==> h.csi_fits(params, action),
        action != 'B' && action != 'C' ==> h.csi_fits(params, action),
        h.in_control ==> h.show_fits(),
        h.col + 1 < h.cols && h.col < 65535 ==> h.show_fits(),
        h.execute_fits(7) && h.execute_fits(8) && h.execute_fits(13),
        h.esc_fits(0x4D) && h.esc_fits(0x63),
        h.execute_fits(10) <==> h.row < 65535 && h.rows > 0,
        h.execute_fits(1) <==> h.col + 2 <= 65535 && (h.col + 2 < h.cols || (h.cols > 0 && h.row
            < 65535 && h.rows > 0)),
        h.execute_fits(9) <==> h.col + (8 - h.col % 8) <= 65535 && (h.col + (8 - h.col % 8) < h.cols
            || (h.cols > 0 && h.row < 65535 && h.rows > 0)),
        !h.in_control ==> (h.show_fits() <==> h.col < 65535 && (h.col + 1 < h.cols || (h.row < 65535
            && h.rows > 0))),
        h.esc_fits(0x44) <==> h.row < 65535 && h.rows > 0,
{
}

/// A sequence without a count moves the cursor by one.
pub proof fn law_missing_count_is_one(
    h: HandlerView,
    one: Seq<Vec<u16>>,
    intermediates: Seq<u8>,
    action: char,
)
    requires
        inside(h),
        names_count(one, 1),
        action == 'A' || action == 'B' || action == 'C' || action == 'D',
    ensures
        cell(h.csi(seq![], intermediates, action)) == cell(h.csi(one, intermediates, action)),
{
}

/// Up and down undo each other, and so do forward and back, as long as the
/// cursor does not reach beyond the screen.
pub proof fn law_cursor_moves_undo_each_other(
    h: HandlerView,
    params: Seq<Vec<u16>>,
    n: int,
    intermediates: Seq<u8>,
)
    requires
        inside(h),
        names_count(params, n),
    ensures
        n <= h.row ==> cell(
            h.csi(params, intermediates, 'A').csi(params, intermediates, 'B'),
        ) == cell(h),
        h.row + n < h.rows ==> cell(
            h.csi(params, intermediates, 'B').csi(params, intermediates, 'A'),
        ) == cell(h),
        h.col + n < h.cols ==> cell(
            h.csi(params, intermediates, 'C').csi(params, intermediates, 'D'),
        ) == cell(h),
        n <= h.col ==> cell(
            h.csi(params, intermediates, 'D').csi(params, intermediates, 'C'),
        ) == cell(h),
{
}

/// Two moves in one direction are one move by both counts together.
pub proof fn law_cursor_moves_add_up(
    h: HandlerView,
    first: Seq<Vec<u16>>,
    second: Seq<Vec<u16>>,
    both: Seq<Vec<u16>>,
    m: int,
    n: int,
    intermediates: Seq<u8>,
    action: char,
)
    requires
        inside(h),
        names_count(first, m),
        names_count(second, n),
        names_count(both, m + n),
        action == 'A' || action == 'B' || action == 'C' || action == 'D',
    ensures
        cell(h.csi(first, intermediates, action).csi(second, intermediates, action)) == cell(
            h.csi(both, intermediates, action),
        ),
{
}

/// A sequence that names a position takes the cursor there, wherever it was.
/// Rows and columns are counted from one; what is missing or zero is the first.
pub proof fn law_cursor_goes_to_the_position(
    h: HandlerView,
    params: Seq<Vec<u16>>,
    intermediates: Seq<u8>,
    row: int,
    col: int,
)
    requires
        0 <= row,
        0 <= col,
        row == 0 ==> params.len() == 0 || names_count(params, 0) || names_count(params, 1),
        row > 0 ==> names_count(params, row + 1),
        col == 0 ==> params.len() < 2 || (params[1]@.len() > 0 && params[1]@[0] <= 1),
        col > 0 ==> params.len() >= 2 && params[1]@.len() > 0 && params[1]@[0] == col + 1,
    ensures
        cell(h.csi(params, intermediates, 'H')) == (row, col),
        cell(h.csi(params, intermediates, 'f')) == (row, col),
{
}

/// Any other sequence leaves the cursor where it is, and none changes the size,
/// a device control string or the pending text that it puts out first.
pub proof fn law_other_sequences_leave_the_cursor(
    h: HandlerView,
    params: Seq<Vec<u16>>,
    intermediates: Seq<u8>,
    action: char,
)
    ensures
        action != 'A' && action != 'B' && action != 'C' && action != 'D' && action != 'H' && action
            != 'f' ==> cell(h.csi(params, intermediates, action)) == cell(h),
        h.csi(params, intermediates, action).rows == h.rows,
        h.csi(params, intermediates, action).cols == h.cols,
        h.csi(params, intermediates, action).ansi == h.ansi,
        h.csi(params, intermediates, action).in_control == h.in_control,
        h.csi(params, intermediates, action).line.len() == 0,
{
}

/// The pending text comes out as one plain record, and only where there is any;
/// nothing else changes.
pub proof fn law_pending_text_comes_out_once(h: HandlerView)
    ensures
        h.flushed().line.len() == 0,
        h.line.len() == 0 ==> h.flushed() == h,
        h.line.len() > 0 ==> h.flushed().sent.len() == h.sent.len() + 1,
        h.line.len() > 0 ==> h.flushed().sent.drop_last() == h.sent,
        h.line.len() > 0 ==> h.flushed().sent.last().content == h.line,
        h.line.len() > 0 ==> !h.flushed().sent.last().is_control,
        h.line.len() > 0 ==> h.flushed().sent.last().csi_params is None,
        h.line.len() > 0 ==> h.flushed().sent.last().csi_action is None,
        cell(h.flushed()) == cell(h),
        h.flushed().ansi == h.ansi && h.flushed().in_control == h.in_control,
        h.flushed().rows == h.rows && h.flushed().cols == h.cols,
        h.flushed().flushed() == h.flushed(),
{
    assert(h.sent.push(plain_output(h.line)).drop_last() =~= h.sent);
}

/// A sequence is put out as the last record, marked as a control sequence, with
/// the first value of each parameter and the letter that ends it.
pub proof fn law_sequence_is_put_out(
    h: HandlerView,
    params: Seq<Vec<u16>>,
    intermediates: Seq<u8>,
    action: char,
)
    ensures
        ({
            let after = h.csi(params, intermediates, action);
            let o = after.sent.last();
            let n = o.content.len() as int;
            let k = intermediates.len() as int;
            &&& after.sent.drop_last() == h.flushed().sent
            &&& o.is_control
            &&& o.csi_action == Some(action)
            &&& o.csi_params matches Some(values) && values.len() == params.len() && forall|i: int|
                0 <= i < params.len() ==> #[trigger] values[i] == (if params[i]@.len() > 0 {
                    params[i]@[0]
                } else {
                    0
                })
            &&& n >= 3 + k
            &&& o.content[0] == '\x1b' && o.content[1] == '['
            &&& o.content[n - 1] == action
            &&& forall|i: int|
                0 <= i < k ==> #[trigger] o.content[n - 1 - k + i] == intermediates[i] as char
            &&& params_read(o.content.subrange(2, n - 1 - k), params, ':')
        }),
{
    let after = h.csi(params, intermediates, action);
    let o = after.sent.last();
    let text = params_text(params, ':');
    let n = o.content.len() as int;
    let k = intermediates.len() as int;
    assert(after.sent.drop_last() =~= h.flushed().sent);
    assert(o.content.subrange(2, n - 1 - k) =~= text);
    lemma_params_read(params, ':');
}

/// Whether a text reads as the parameters of a control sequence: split at `;`
/// it gives a part for each parameter, and each part, split at `inner`, the
/// decimal notation of its values.
pub open spec fn params_read(s: Seq<char>, params: Seq<Vec<u16>>, inner: char) -> bool {
    if params.len() == 0 {
        s.len() == 0
    } else {
        let parts = text::split_char(s, ';');
        &&& parts.len() == params.len()
        &&& forall|i: int|
            0 <= i < params.len() ==> #[trigger] values_read(parts[i], params[i]@, inner)
    }
}

/// Whether a text reads as some numbers with `sep` between them.
pub open spec fn values_read(s: Seq<char>, values: Seq<u16>, sep: char) -> bool {
    if values.len() == 0 {
        s.len() == 0
    } else {
        let parts = text::split_char(s, sep);
        &&& parts.len() == values.len()
        &&& forall|i: int|
            0 <= i < values.len() ==> text::number_of(#[trigger] parts[i]) == values[i]
    }
}

/// Texts with a separator between them split into the same texts again, where
/// none of them holds it.
pub proof fn law_joined_parts_split_again(parts: Seq<Seq<char>>, sep: char)
    requires
        parts.len() > 0,
        forall|i: int| 0 <= i < parts.len() ==> !(#[trigger] parts[i]).contains(sep),
    ensures
        text::split_char(join(parts, sep), sep) == parts,
    decreases parts.len(),
{
    if parts.len() == 1 {
        assert(!parts[0].contains(sep));
        text::lemma_find_char(parts[0], sep);
        assert(text::split_char(parts[0], sep) =~= parts);
    } else {
        let rest = parts.drop_last();
        assert forall|i: int| 0 <= i < rest.len() implies !(#[trigger] rest[i]).contains(sep) by {
            assert(rest[i] == parts[i]);
        }
        law_joined_parts_split_again(rest, sep);
        let last = parts.last();
        assert(!parts[parts.len() - 1].contains(sep));
        text::lemma_find_char(last, sep);
        assert(text::split_char(last, sep) =~= seq![last]);
        crate::paths::lemma_split_char_join(join(rest, sep), last, sep);
        assert(rest + seq![last] =~= parts);
    }
}

/// Joined texts hold no character that is neither in them nor between them.
proof fn lemma_join_without(parts: Seq<Seq<char>>, sep: char, c: char)
    requires
        c != sep,
        forall|i: int| 0 <= i < parts.len() ==> !(#[trigger] parts[i]).contains(c),
    ensures
        !join(parts, sep).contains(c),
    decreases parts.len(),
{
    let s = join(parts, sep);
    if parts.len() == 1 {
        assert(!parts[0].contains(c));
    } else if parts.len() > 1 {
        let rest = parts.drop_last();
        assert forall|i: int| 0 <= i < rest.len() implies !(#[trigger] rest[i]).contains(c) by {
            assert(rest[i] == parts[i]);
        }
        lemma_join_without(rest, sep, c);
        let a = join(rest, sep);
        let b = parts.last();
        assert(!parts[parts.len() - 1].contains(c));
        if s.contains(c) {
            let i = choose|i: int| 0 <= i < s.len() && s[i] == c;
            if i < a.len() {
                assert(a[i] == c);
            } else if i > a.len() {
                assert(b[i - a.len() - 1] == c);
            }
        }
    }
}

/// The decimal notation of numbers holds no separator.
proof fn lemma_decimals_without(values: Seq<u16>, c: char)
    requires
        c == ';' || c == ':',
    ensures
        forall|i: int| 0 <= i < values.len() ==> !(#[trigger] decimals(values)[i]).contains(c),
{
    assert forall|i: int| 0 <= i < values.len() implies !(
    #[trigger] decimals(values)[i]).contains(c) by {
        text::lemma_decimal_digits(values[i] as nat);
        let d = text::decimal(values[i] as nat);
        assert(decimals(values)[i] == d);
        if d.contains(c) {
            let j = choose|j: int| 0 <= j < d.len() && d[j] == c;
            assert('0' <= d[j] <= '9');
        }
    }
}

/// Numbers with a separator between them are read back.
proof fn lemma_values_read(values: Seq<u16>, sep: char)
    requires
        sep == ';' || sep == ':',
    ensures
        values_read(join(decimals(values), sep), values, sep),
{
    if values.len() > 0 {
        lemma_decimals_without(values, sep);
        law_joined_parts_split_again(decimals(values), sep);
        assert forall|i: int| 0 <= i < values.len() implies text::number_of(
            #[trigger] decimals(values)[i],
        ) == values[i] by {
            text::law_decimal_reads_back(values[i] as nat);
        }
    }
}

/// The parameters of a control sequence are read back.
proof fn lemma_params_read(params: Seq<Vec<u16>>, inner: char)
    requires
        inner == ':',
    ensures
        params_read(params_text(params, inner), params, inner),
{
    if params.len() > 0 {
        let parts = params.map_values(|p: Vec<u16>| join(decimals(p@), inner));
        assert forall|i: int| 0 <= i < parts.len() implies !(#[trigger] parts[i]).contains(';') by {
            lemma_decimals_without(params[i]@, ';');
            lemma_join_without(decimals(params[i]@), inner, ';');
        }
        law_joined_parts_split_again(parts, ';');
        assert forall|i: int| 0 <= i < params.len() implies #[trigger] values_read(
            parts[i],
            params[i]@,
            inner,
        ) by {
            lemma_values_read(params[i]@, inner);
        }
    }
}

/// A character that is shown goes on the line and takes the cursor to the next
/// column, from the last column to the first of the next row, and from the last
/// cell to the first of the last row. No record is put out for it.
pub proof fn law_printing_takes_the_next_cell(h: HandlerView, c: char)
    requires
        inside(h),
        !h.in_control,
    ensures
        h.col + 1 < h.cols ==> cell(h.show(c)) == (h.row, h.col + 1),
        h.col + 1 == h.cols && h.row + 1 < h.rows ==> cell(h.show(c)) == (h.row + 1, 0int),
        h.col + 1 == h.cols && h.row + 1 == h.rows ==> cell(h.show(c)) == (h.row, 0int),
        h.show(c).line.len() == h.line.len() + 1,
        h.show(c).line.last() == c,
        h.show(c).line.drop_last() == h.line,
        h.show(c).sent == h.sent,
        h.show(c).ansi == h.ansi && !h.show(c).in_control,
        h.show(c).rows == h.rows && h.show(c).cols == h.cols,
{
    assert(h.line.push(c).drop_last() =~= h.line);
}

/// Inside a device control string a character is collected and shown nowhere.
pub proof fn law_device_string_is_not_shown(h: HandlerView, c: char)
    requires
        h.in_control,
    ensures
        cell(h.show(c)) == cell(h),
        h.show(c).line == h.line,
        h.show(c).sent == h.sent,
        h.show(c).ansi.len() == h.ansi.len() + 1,
        h.show(c).ansi.last() == c,
        h.show(c).ansi.drop_last() == h.ansi,
        h.show(c).in_control,
{
    assert(h.ansi.push(c).drop_last() =~= h.ansi);
}

/// A backspace takes back a character that was shown before the last column.
pub proof fn law_backspace_takes_back(h: HandlerView, c: char)
    requires
        inside(h),
        !h.in_control,
        h.col + 1 < h.cols,
    ensures
        h.show(c).execute(0x08) == h,
{
    assert(h.line.push(c).drop_last() =~= h.line);
}

/// A carriage return goes to the first column of the row. A line feed, a
/// vertical tab and a form feed go to the next row, or stay on the last one,
/// and put out the pending text with a line end; the column stays.
pub proof fn law_line_ends_move_the_cursor(h: HandlerView, byte: u8)
    requires
        inside(h),
    ensures
        cell(h.execute(0x0D)) == (h.row, 0int),
        h.execute(0x0D).line == h.line.push('\r'),
        h.execute(0x0D).sent == h.sent,
        byte == 0x0A || byte == 0x0B || byte == 0x0C ==> {
            let after = h.execute(byte);
            &&& h.row + 1 < h.rows ==> cell(after) == (h.row + 1, h.col)
            &&& h.row + 1 == h.rows ==> cell(after) == cell(h)
            &&& after.line.len() == 0
            &&& after.sent.drop_last() == h.sent
            &&& after.sent.last().content == h.line.push('\n')
            &&& !after.sent.last().is_control
            &&& after.ansi == h.ansi && after.in_control == h.in_control
        },
{
    assert(h.sent.push(plain_output(h.line.push('\n'))).drop_last() =~= h.sent);
}

/// A tab goes on to the next column that is a multiple of eight, and shows a
/// blank for each column it passes. Past the last column it goes on in the next
/// row, by as many columns as it went past.
pub proof fn law_tab_goes_to_the_next_stop(h: HandlerView)
    requires
        inside(h),
    ensures
        ({
            let after = h.execute(0x09);
            let blanks = after.line.len() - h.line.len();
            &&& 1 <= blanks <= 8
            &&& (h.col + blanks) % 8 == 0
            &&& after.line.take(h.line.len() as int) == h.line
            &&& forall|i: int| h.line.len() <= i < after.line.len() ==> after.line[i] == ' '
            &&& after.sent == h.sent
            &&& h.col + blanks < h.cols ==> cell(after) == (h.row, h.col + blanks)
            &&& h.cols >= 8 && h.col + blanks >= h.cols ==> after.col == h.col + blanks - h.cols
            &&& h.col + blanks >= h.cols && h.row + 1 < h.rows ==> after.row == h.row + 1
            &&& h.col + blanks >= h.cols && h.row + 1 == h.rows ==> after.row == h.row
        }),
{
    let blanks = 8 - h.col % 8;
    let after = h.execute(0x09);
    assert(after.line.take(h.line.len() as int) =~= h.line);
    if h.cols >= 8 && h.col + blanks >= h.cols {
        let over = h.col + blanks - h.cols;
        assert(0 <= over < h.cols);
        vstd::arithmetic::div_mod::lemma_mod_add_multiples_vanish(over, h.cols);
        vstd::arithmetic::div_mod::lemma_small_mod(over as nat, h.cols as nat);
        assert((h.cols + over) % h.cols == over % h.cols);
    }
}

/// Other control characters are shown as a caret and a letter, 64 above them,
/// and take two columns; the bell and what is no control character do nothing.
pub proof fn law_control_characters_are_shown(h: HandlerView, byte: u8)
    requires
        inside(h),
    ensures
        byte == 0x07 || byte >= 32 ==> h.execute(byte) == h,
        byte < 32 && !(0x07 <= byte <= 0x0D) ==> {
            let after = h.execute(byte);
            &&& after.line.len() == h.line.len() + 2
            &&& after.line.take(h.line.len() as int) == h.line
            &&& after.line[h.line.len() as int] == '^'
            &&& after.line.last() as int == byte + 64
            &&& after.sent == h.sent
            &&& h.col + 2 < h.cols ==> cell(after) == (h.row, h.col + 2)
            &&& h.col + 2 >= h.cols && h.row + 1 < h.rows ==> after.row == h.row + 1
        },
{
    if byte < 32 && !(0x07 <= byte <= 0x0D) {
        assert(h.execute(byte).line.take(h.line.len() as int) =~= h.line);
    }
}

/// Index and reverse index undo each other on the screen, a reset goes to the
/// first cell, and any other escape sequence leaves the cursor. Each is put out
/// as it came, as a control record.
pub proof fn law_escape_sequences(h: HandlerView, intermediates: Seq<u8>, byte: u8)
    requires
        inside(h),
    ensures
        h.row + 1 < h.rows ==> cell(h.esc(intermediates, 0x44)) == (h.row + 1, h.col),
        h.row + 1 == h.rows ==> cell(h.esc(intermediates, 0x44)) == cell(h),
        h.row > 0 ==> cell(h.esc(intermediates, 0x4D)) == (h.row - 1, h.col),
        h.row == 0 ==> cell(h.esc(intermediates, 0x4D)) == cell(h),
        h.row + 1 < h.rows ==> cell(h.esc(intermediates, 0x44).esc(intermediates, 0x4D)) == cell(h),
        cell(h.esc(intermediates, 0x63)) == (0int, 0int),
        byte != 0x44 && byte != 0x4D && byte != 0x63 ==> cell(h.esc(intermediates, byte)) == cell(
            h,
        ),
        ({
            let after = h.esc(intermediates, byte);
            let o = after.sent.last();
            let k = intermediates.len() as int;
            &&& after.sent.drop_last() == h.flushed().sent
            &&& after.line.len() == 0
            &&& o.is_control && o.csi_params is None && o.csi_action is None
            &&& o.content.len() == k + 2
            &&& o.content[0] == '\x1b'
            &&& forall|i: int| 0 <= i < k ==> #[trigger] o.content[1 + i] == intermediates[i] as char
            &&& o.content.last() == byte as char
        }),
{
    let after = h.esc(intermediates, byte);
    assert(after.sent.drop_last() =~= h.flushed().sent);
}

/// An operating system command comes out as a control record behind the pending
/// text, unless it is a title, the palette or its reset. Between the opening and
/// the end stand its parameters, which are read back where each is valid text
/// without a semicolon.
pub proof fn law_operating_system_commands(
    h: HandlerView,
    params: Seq<Vec<u8>>,
    bell_terminated: bool,
)
    ensures
        ({
            let after = h.osc(params, bell_terminated);
            let handled = params.len() > 0 && (params[0]@ =~= seq![0x30u8] || params[0]@ =~= seq![
                0x32u8,
            ] || params[0]@ =~= seq![0x34u8] || params[0]@ =~= seq![0x31u8, 0x30u8, 0x34u8]);
            &&& cell(after) == cell(h)
            &&& after.line.len() == 0
            &&& handled ==> after.sent == h.flushed().sent
            &&& !handled ==> {
                let o = after.sent.last();
                let n = o.content.len() as int;
                let tail: int = if bell_terminated {
                    1
                } else {
                    2
                };
                &&& after.sent.drop_last() == h.flushed().sent
                &&& o.is_control && o.csi_params is None && o.csi_action is None
                &&& n >= 2 + tail
                &&& o.content[0] == '\x1b' && o.content[1] == ']'
                &&& bell_terminated ==> o.content[n - 1] == '\x07'
                &&& !bell_terminated ==> o.content[n - 2] == '\x1b' && o.content[n - 1] == '\\'
                &&& params.len() > 0 && (forall|i: int|
                    0 <= i < params.len() ==> valid_utf8((#[trigger] params[i])@) && !decode_utf8(
                        params[i]@,
                    ).contains(';')) ==> {
                    let parts = text::split_char(o.content.subrange(2, n - tail), ';');
                    &&& parts.len() == params.len()
                    &&& forall|i: int|
                        0 <= i < params.len() ==> #[trigger] parts[i] == decode_utf8(params[i]@)
                }
            }
        }),
{
    let after = h.osc(params, bell_terminated);
    if !osc_handled(params) {
        let parts = params.map_values(|p: Vec<u8>| osc_param(p@));
        let o = after.sent.last();
        let n = o.content.len() as int;
        let tail: int = if bell_terminated {
            1
        } else {
            2
        };
        assert(after.sent.drop_last() =~= h.flushed().sent);
        assert(o.content.subrange(2, n - tail) =~= join(parts, ';'));
        if params.len() > 0 && forall|i: int|
            0 <= i < params.len() ==> valid_utf8((#[trigger] params[i])@) && !decode_utf8(
                params[i]@,
            ).contains(';') {
            assert forall|i: int| 0 <= i < parts.len() implies !(#[trigger] parts[i]).contains(
                ';',
            ) by {
                assert(valid_utf8(params[i]@));
            }
            law_joined_parts_split_again(parts, ';');
            assert forall|i: int| 0 <= i < params.len() implies #[trigger] parts[i] == decode_utf8(
                params[i]@,
            ) by {
                assert(valid_utf8(params[i]@));
            }
        }
    }
}

/// A device control string begins with the escape character, the letter that it
/// is for and its intermediate characters; only the record shows it, and nothing
/// is shown of it before.
pub proof fn law_device_string_begins(
    h: HandlerView,
    params: Seq<Vec<u16>>,
    intermediates: Seq<u8>,
    action: char,
)
    ensures
        ({
            let after = h.hook(params, intermediates, action);
            &&& after.in_control
            &&& after.ansi.len() >= 2 + intermediates.len()
            &&& after.ansi[0] == '\x1b' && after.ansi[1] == action
            &&& forall|i: int|
                0 <= i < intermediates.len() ==> #[trigger] after.ansi[2 + i] == intermediates[i] as char
            &&& params.len() == 1 ==> values_read(
                after.ansi.skip(2 + intermediates.len() as int),
                params[0]@,
                ';',
            )
            &&& params.len() == 0 ==> after.ansi.len() == 2 + intermediates.len()
            &&& cell(after) == cell(h) && after.line == h.line && after.sent == h.sent
        }),
        !h.unhook().in_control,
        h.unhook().ansi.len() == 0,
        h.unhook().sent.drop_last() == h.sent,
        h.unhook().sent.last().content == h.ansi && h.unhook().sent.last().is_control,
        cell(h.unhook()) == cell(h) && h.unhook().line == h.line,
{
    let after = h.hook(params, intermediates, action);
    assert(h.unhook().sent.drop_last() =~= h.sent);
    let text = params_text(params, ';');
    assert(after.ansi.skip(2 + intermediates.len() as int) =~= text);
    if params.len() == 1 {
        lemma_values_read(params[0]@, ';');
        assert(params.map_values(|p: Vec<u16>| join(decimals(p@), ';'))[0] == join(
            decimals(params[0]@),
            ';',
        ));
    }
}

/// A fresh handler stands on the first cell, with nothing shown, collected or
/// put out.
pub proof fn law_fresh_handler(size: PtySize)
    ensures
        cell(HandlerView::fresh(size)) == (0int, 0int),
        HandlerView::fresh(size).rows == size.rows && HandlerView::fresh(size).cols == size.cols,
        HandlerView::fresh(size).line.len() == 0,
        HandlerView::fresh(size).ansi.len() == 0,
        HandlerView::fresh(size).sent.len() == 0,
        !HandlerView::fresh(size).in_control,
{
}

} // verus!
