//! Sessions as documents: text, Markdown, HTML and asciicast, and what is
//! shared of them.

use vstd::prelude::*;
use vstd::std_specs::convert::FromSpecImpl;
use vstd::utf8::*;
use crate::diff;
use crate::json;
use crate::session;
use crate::session::SessionData;
use crate::session::SessionError;
use crate::session::SessionEvent;
use crate::session::SessionEventType;
use crate::session::SessionManager;
use crate::table;
use crate::text;
use crate::time;

verus! {

/// Terminal session export format.
#[derive(Debug, Clone, Copy, PartialEq, Eq, Structural)]
pub enum ExportFormat {
    /// JSON format.
    Json,
    /// Text format.
    Text,
    /// Asciicast format (for asciinema).
    Asciicast,
    /// Markdown format.
    Markdown,
    /// HTML format.
    Html,
}

/// The format that a name stands for, in capital or small letters; text for
/// names that are not known.
pub open spec fn format_named(s: Seq<char>) -> ExportFormat {
    let name = text::ascii_lowered(s);
    if name == "json"@ {
        ExportFormat::Json
    } else if name == "asciicast"@ {
        ExportFormat::Asciicast
    } else if name == "markdown"@ || name == "md"@ {
        ExportFormat::Markdown
    } else if name == "html"@ {
        ExportFormat::Html
    } else {
        ExportFormat::Text
    }
}

impl<'a> From<&'a str> for ExportFormat {
    fn from(s: &'a str) -> (r: Self) {
        if text::lowers_to(s, "json") {
            ExportFormat::Json
        } else if text::lowers_to(s, "asciicast") {
            ExportFormat::Asciicast
        } else if text::lowers_to(s, "markdown") || text::lowers_to(s, "md") {
            ExportFormat::Markdown
        } else if text::lowers_to(s, "html") {
            ExportFormat::Html
        } else {
            ExportFormat::Text
        }
    }
}

impl<'a> FromSpecImpl<&'a str> for ExportFormat {
    open spec fn obeys_from_spec() -> bool {
        true
    }

    open spec fn from_spec(s: &'a str) -> ExportFormat {
        format_named(s@)
    }
}

/// Session sharing options.
#[derive(Debug, Clone)]
pub struct SharingOptions {
    /// Include terminal output.
    pub include_output: bool,
    /// Include timing information.
    pub include_timing: bool,
    /// Include user input.
    pub include_input: bool,
    /// Include system events.
    pub include_system_events: bool,
    /// Export format (json, asciicast, text, etc.).
    pub format: String,
    /// Whether to encrypt the shared content.
    pub encrypt: bool,
    /// Password for encryption (if enabled).
    pub password: Option<String>,
    /// Expiration time in seconds (0 = never).
    pub expiration: u64,
}

// Text and Markdown.

/// One event in a transcript: a command or a piece of output is a line of its
/// own, other events are left out.
pub open spec fn transcript_line(e: session::EventView) -> Seq<char> {
    match e.event_type {
        SessionEventType::Command => session::command_line(e) + "\n"@,
        SessionEventType::Output => e.content + "\n"@,
        _ => seq![],
    }
}

/// The events as lines.
pub open spec fn transcript(events: Seq<session::EventView>) -> Seq<char>
    decreases events.len(),
{
    if events.len() == 0 {
        seq![]
    } else {
        transcript(events.drop_last()) + transcript_line(events.last())
    }
}

/// A session as plain text.
pub open spec fn text_document(d: session::DataView) -> Seq<char> {
    "Terminal Session: "@ + d.info.name + "\nRecorded: "@ + time::utc_text(
        d.info.created_at.0,
        d.info.created_at.1,
    ) + "\nDuration: "@ + text::decimal(d.info.duration as nat)
        + " seconds\n----------------------------------------\n\n"@ + transcript(d.events)
}

/// A session as Markdown.
pub open spec fn markdown_document(d: session::DataView) -> Seq<char> {
    "# Terminal Session: "@ + d.info.name + "\n\n- **Recorded**: "@ + time::utc_text(
        d.info.created_at.0,
        d.info.created_at.1,
    ) + "\n- **Duration**: "@ + text::decimal(d.info.duration as nat)
        + " seconds\n- **Shell**: "@ + d.info.shell + "\n- **Working Directory**: "@
        + d.info.working_directory + "\n\n## Terminal Transcript\n\n```\n"@ + transcript(d.events)
        + "```\n"@
}

/// The events as lines.
fn transcript_of(events: &Vec<SessionEvent>) -> (r: String)
    ensures
        r@ == transcript(session::event_views(events@)),
{
    let ghost all = session::event_views(events@);
    let mut out: String = String::new();
    let mut i: usize = 0;
    assert(all.take(0) =~= seq![]);
    assert(out@ =~= transcript(all.take(0)));
    while i < events.len()
        invariant
            i <= events@.len(),
            all == session::event_views(events@),
            out@ == transcript(all.take(i as int)),
        decreases events@.len() - i,
    {
        let e = &events[i];
        let ghost before = out@;
        match e.event_type {
            SessionEventType::Command => {
                let line = session::command_line_of(e);
                out.append(line.as_str());
                out.append("\n");
                assert(out@ =~= before + (session::command_line(e@) + "\n"@));
            },
            SessionEventType::Output => {
                out.append(e.content.as_str());
                out.append("\n");
                assert(out@ =~= before + (e.content@ + "\n"@));
            },
            _ => {},
        }
        proof {
            assert(all[i as int] == e@);
            assert(out@ =~= before + transcript_line(e@));
            assert(all.take(i + 1).drop_last() =~= all.take(i as int));
        }
        i += 1;
    }
    assert(all.take(i as int) =~= all);
    out
}

// HTML.

/// A character as HTML text.
pub open spec fn html_char(c: char) -> Seq<char> {
    if c == '"' {
        "&quot;"@
    } else if c == '&' {
        "&amp;"@
    } else if c == '\'' {
        "&#x27;"@
    } else if c == '<' {
        "&lt;"@
    } else if c == '>' {
        "&gt;"@
    } else {
        seq![c]
    }
}

/// A text as HTML text: the five characters with a meaning of their own are
/// written as entities.
pub open spec fn html_escaped(s: Seq<char>) -> Seq<char> {
    text::concat(s.map_values(|c: char| html_char(c)))
}

/// `htmlescape::encode_minimal`: the text with `"`, `&`, `'`, `<` and `>`
/// written as `&quot;`, `&amp;`, `&#x27;`, `&lt;` and `&gt;`.
#[verifier::external_body]
fn escape_html(s: &str) -> (r: String)
    ensures
        r@ == html_escaped(s@),
{
    htmlescape::encode_minimal(s)
}

/// One event in an HTML transcript.
pub open spec fn html_line(e: session::EventView) -> Seq<char> {
    match e.event_type {
        SessionEventType::Command => "<span class=\"timestamp\">["@ + session::command_clock(e)
            + "]</span> <span class=\"command\">$ "@ + html_escaped(e.content) + "</span>\n"@,
        SessionEventType::Output => html_escaped(e.content) + "\n"@,
        _ => seq![],
    }
}

/// The events as HTML lines.
pub open spec fn html_transcript(events: Seq<session::EventView>) -> Seq<char>
    decreases events.len(),
{
    if events.len() == 0 {
        seq![]
    } else {
        html_transcript(events.drop_last()) + html_line(events.last())
    }
}

/// The start of an HTML document, up to its title.
pub const HTML_START: &'static str = "<!DOCTYPE html>\n<html lang=\"en\">\n<head>\n  <meta charset=\"UTF-8\">\n  <meta name=\"viewport\" content=\"width=device-width, initial-scale=1.0\">\n  <title>Terminal Session: ";

/// The rest of the head of an HTML document, from the end of its title to the
/// heading.
pub const HTML_STYLE: &'static str = "</title>\n  <style>\n    body { font-family: monospace; background: #222; color: #eee; margin: 20px; }\n    h1, h2 { color: #8ff; }\n    .info { color: #9cf; margin-bottom: 20px; }\n    .terminal { background: #000; border-radius: 5px; padding: 10px; white-space: pre-wrap; }\n    .command { color: #ff9; font-weight: bold; }\n    .timestamp { color: #999; }\n  </style>\n</head>\n<body>\n  <h1>Terminal Session: ";

/// A session as HTML.
pub open spec fn html_document(d: session::DataView) -> Seq<char> {
    HTML_START@ + d.info.name + HTML_STYLE@ + d.info.name
        + "</h1>\n  <div class=\"info\">\n    <p><strong>Recorded:</strong> "@ + time::utc_text(
        d.info.created_at.0,
        d.info.created_at.1,
    ) + "</p>\n    <p><strong>Duration:</strong> "@ + text::decimal(d.info.duration as nat)
        + " seconds</p>\n    <p><strong>Shell:</strong> "@ + d.info.shell
        + "</p>\n    <p><strong>Working Directory:</strong> "@ + d.info.working_directory
        + "</p>\n  </div>\n  <h2>Terminal Transcript</h2>\n  <div class=\"terminal\">\n"@
        + html_transcript(d.events) + "  </div>\n</body>\n</html>\n"@
}

/// The events as HTML lines.
fn html_transcript_of(events: &Vec<SessionEvent>) -> (r: String)
    ensures
        r@ == html_transcript(session::event_views(events@)),
{
    let ghost all = session::event_views(events@);
    let mut out: String = String::new();
    let mut i: usize = 0;
    assert(all.take(0) =~= seq![]);
    assert(out@ =~= html_transcript(all.take(0)));
    while i < events.len()
        invariant
            i <= events@.len(),
            all == session::event_views(events@),
            out@ == html_transcript(all.take(i as int)),
        decreases events@.len() - i,
    {
        let e = &events[i];
        let ghost before = out@;
        match e.event_type {
            SessionEventType::Command => {
                let clock = session::command_clock_of(e);
                let escaped = escape_html(e.content.as_str());
                let line = "<span class=\"timestamp\">[".to_owned().concat(clock.as_str()).concat(
                    "]</span> <span class=\"command\">$ ",
                ).concat(escaped.as_str()).concat("</span>\n");
                assert(line@ == html_line(e@));
                out.append(line.as_str());
            },
            SessionEventType::Output => {
                let line = escape_html(e.content.as_str()).concat("\n");
                assert(line@ == html_line(e@));
                out.append(line.as_str());
            },
            _ => {},
        }
        proof {
            assert(all[i as int] == e@);
            assert(out@ =~= before + html_line(e@));
            assert(all.take(i + 1).drop_last() =~= all.take(i as int));
        }
        i += 1;
    }
    assert(all.take(i as int) =~= all);
    out
}

// Asciicast.

/// Asciicast format header for asciinema compatibility.
#[derive(Debug)]
pub struct AsciicastHeader {
    /// Version of the asciicast format.
    pub version: u8,
    /// Terminal width.
    pub width: u16,
    /// Terminal height.
    pub height: u16,
    /// Unix timestamp when recording started.
    pub timestamp: i64,
    /// Total duration in whole seconds.
    pub duration: u64,
    /// Title of the recording.
    pub title: String,
    /// Environment variables.
    pub env: Vec<(String, String)>,
}

/// One entry of an asciicast.
#[derive(Debug)]
pub struct AsciicastEntry {
    /// Milliseconds since the entry before it; 0 for the first one.
    pub offset_millis: i64,
    /// Whether it is a command.
    pub is_command: bool,
    /// What was put out or commanded.
    pub content: String,
}

/// What an `AsciicastEntry` holds.
pub struct EntryView {
    pub offset_millis: int,
    pub is_command: bool,
    pub content: Seq<char>,
}

impl View for AsciicastEntry {
    type V = EntryView;

    open spec fn view(&self) -> EntryView {
        EntryView {
            offset_millis: self.offset_millis as int,
            is_command: self.is_command,
            content: self.content@,
        }
    }
}

/// What a list of entries holds.
pub open spec fn entry_views(v: Seq<AsciicastEntry>) -> Seq<EntryView> {
    v.map_values(|e: AsciicastEntry| e@)
}

/// Whether an event has an entry in an asciicast.
pub open spec fn is_cast(e: session::EventView) -> bool {
    e.event_type == SessionEventType::Output || e.event_type == SessionEventType::Command
}

/// The entry for the event at `i`, among the events that have one.
pub open spec fn cast_entry(kept: Seq<session::EventView>, i: int) -> EntryView {
    EntryView {
        offset_millis: if i == 0 {
            0
        } else {
            time::millis_between(kept[i].at, kept[i - 1].at)
        },
        is_command: kept[i].event_type == SessionEventType::Command,
        content: kept[i].content,
    }
}

/// The events that have an entry.
pub open spec fn cast_events(events: Seq<session::EventView>) -> Seq<session::EventView> {
    events.filter(|e: session::EventView| is_cast(e))
}

/// The entries of a session.
pub open spec fn cast_entries(events: Seq<session::EventView>) -> Seq<EntryView> {
    let kept = cast_events(events);
    Seq::new(kept.len(), |i: int| cast_entry(kept, i))
}

/// Lines, each with its end.
pub open spec fn ended_lines(lines: Seq<Seq<char>>) -> Seq<char>
    decreases lines.len(),
{
    if lines.len() == 0 {
        seq![]
    } else {
        ended_lines(lines.drop_last()) + (lines.last() + "\n"@)
    }
}

/// Milliseconds as seconds, with three decimals.
pub open spec fn seconds_text(millis: int) -> Seq<char> {
    let n = if millis < 0 {
        -millis
    } else {
        millis
    };
    (if millis < 0 {
        seq!['-']
    } else {
        seq![]
    }) + text::decimal((n / 1000) as nat) + seq![
        '.',
        text::digit(n / 100 % 10),
        text::digit(n / 10 % 10),
        text::digit(n % 10),
    ]
}

/// An entry as a line of an asciicast: the time in seconds, `o` for output or
/// `i` for input, and the text.
pub open spec fn cast_line(e: EntryView) -> Seq<char> {
    "["@ + seconds_text(e.offset_millis) + (if e.is_command {
        ",\"i\","@
    } else {
        ",\"o\","@
    }) + json::json_string(e.content) + "]"@
}

/// Milliseconds as seconds, with three decimals.
fn seconds_of(millis: i64) -> (r: String)
    ensures
        r@ == seconds_text(millis as int),
{
    let mut out: String = String::new();
    let n: u64 = if millis < 0 {
        out.push('-');
        (-(millis as i128)) as u64
    } else {
        millis as u64
    };
    let ghost sign = out@;
    assert(sign =~= if millis < 0 {
        seq!['-']
    } else {
        seq![]
    });
    text::push_decimal(&mut out, n / 1000);
    let ghost whole = out@;
    out.push('.');
    out.push(digit_char(n / 100 % 10));
    out.push(digit_char(n / 10 % 10));
    out.push(digit_char(n % 10));
    assert(out@ =~= whole + seq![
        '.',
        text::digit((n / 100 % 10) as int),
        text::digit((n / 10 % 10) as int),
        text::digit((n % 10) as int),
    ]);
    out
}

/// A decimal digit.
fn digit_char(d: u64) -> (r: char)
    requires
        d < 10,
    ensures
        r == text::digit(d as int),
{
    (48 + d as u8) as char
}

/// An entry as a line of an asciicast.
pub fn asciicast_line(e: &AsciicastEntry) -> (r: String)
    ensures
        r@ == cast_line(e@),
{
    let kind = if e.is_command {
        ",\"i\","
    } else {
        ",\"o\","
    };
    "[".to_owned().concat(seconds_of(e.offset_millis).as_str()).concat(kind).concat(
        json::string_to_json(e.content.as_str()).as_str(),
    ).concat("]")
}

/// The entries as lines.
pub open spec fn cast_lines(entries: Seq<EntryView>) -> Seq<Seq<char>> {
    entries.map_values(|e: EntryView| cast_line(e))
}

/// The asciicast document out of its header and its entries, each a line.
pub fn asciicast_document(header: &str, entries: &Vec<AsciicastEntry>) -> (r: String)
    ensures
        r@ == header@ + "\n"@ + ended_lines(cast_lines(entry_views(entries@))),
{
    let ghost all = cast_lines(entry_views(entries@));
    let mut out: String = header.to_owned().concat("\n");
    let mut i: usize = 0;
    assert(all.take(0) =~= seq![]);
    assert(out@ =~= header@ + "\n"@ + ended_lines(all.take(0)));
    while i < entries.len()
        invariant
            i <= entries@.len(),
            all == cast_lines(entry_views(entries@)),
            out@ == header@ + "\n"@ + ended_lines(all.take(i as int)),
        decreases entries@.len() - i,
    {
        let ghost before = ended_lines(all.take(i as int));
        let line = asciicast_line(&entries[i]);
        out.append(line.as_str());
        out.append("\n");
        proof {
            assert(all.take(i + 1).drop_last() =~= all.take(i as int));
            assert(all.take(i + 1).last() == line@);
            assert(out@ =~= header@ + "\n"@ + (before + (line@ + "\n"@)));
        }
        i += 1;
    }
    assert(all.take(i as int) =~= all);
    out
}

/// An entry of an asciicast is one line, and its text is the JSON string
/// before the closing bracket.
pub proof fn law_cast_entry_is_one_line(e: EntryView)
    ensures
        !cast_line(e).contains('\n'),
        text::ends_with(cast_line(e), json::json_string(e.content) + "]"@),
{
    let line = cast_line(e);
    let time = seconds_text(e.offset_millis);
    let string = json::json_string(e.content);
    let n = if e.offset_millis < 0 {
        -e.offset_millis
    } else {
        e.offset_millis
    };
    json::law_json_string_is_one_line(e.content);
    text::lemma_decimal_digits((n / 1000) as nat);
    reveal_strlit("[");
    reveal_strlit("]");
    reveal_strlit(",\"i\",");
    reveal_strlit(",\"o\",");
    let d = text::decimal((n / 1000) as nat);
    let k: int = if e.offset_millis < 0 {
        1
    } else {
        0
    };
    assert forall|i: int| 0 <= i < time.len() implies time[i] != '\n' by {
        if k <= i < k + d.len() {
            assert(time[i] == d[i - k]);
        }
    }
    assert forall|i: int| 0 <= i < line.len() implies line[i] != '\n' by {
        let a = 1 + time.len();
        if 1 <= i < a {
            assert(line[i] == time[i - 1]);
        } else if a + 5 <= i < a + 5 + string.len() {
            assert(line[i] == string[i - a - 5]);
            assert(string.contains(line[i]));
        }
    }
    let end = string + "]"@;
    assert(line.subrange(line.len() - end.len(), line.len() as int) =~= end);
}

// Base64.

/// The digit for a number below 64.
pub open spec fn base64_digit(n: int) -> char {
    if n < 26 {
        ((65 + n) as u8) as char
    } else if n < 52 {
        ((71 + n) as u8) as char
    } else if n < 62 {
        ((n - 4) as u8) as char
    } else if n == 62 {
        '+'
    } else {
        '/'
    }
}

/// Bytes in base64: each three are four digits; one or two that are left over
/// are filled up with `=`.
pub open spec fn base64_text(b: Seq<u8>) -> Seq<char>
    decreases b.len(),
{
    if b.len() == 0 {
        seq![]
    } else if b.len() == 1 {
        seq![base64_digit(b[0] as int / 4), base64_digit(b[0] as int % 4 * 16), '=', '=']
    } else if b.len() == 2 {
        seq![
            base64_digit(b[0] as int / 4),
            base64_digit(b[0] as int % 4 * 16 + b[1] as int / 16),
            base64_digit(b[1] as int % 16 * 4),
            '=',
        ]
    } else {
        seq![
            base64_digit(b[0] as int / 4),
            base64_digit(b[0] as int % 4 * 16 + b[1] as int / 16),
            base64_digit(b[1] as int % 16 * 4 + b[2] as int / 64),
            base64_digit(b[2] as int % 64),
        ] + base64_text(b.skip(3))
    }
}

/// `base64::encode` on the UTF-8 form of a text: the standard alphabet, with
/// padding.
#[verifier::external_body]
#[allow(deprecated)]
fn to_base64(content: &str) -> (r: String)
    ensures
        r@ == base64_text(encode_utf8(content@)),
{
    base64::encode(content)
}

/// What is handed over in place of the content when it is to be encrypted.
pub open spec fn sealed(content: Seq<char>) -> Seq<char> {
    "ENCRYPTED:"@ + base64_text(encode_utf8(content))
}

/// How a session becomes a document.
#[derive(Debug)]
pub enum Rendering {
    /// It is the document.
    Document(String),
    /// The session is to be written as JSON.
    Json,
    /// The header and the entries are to be written as JSON, a line each.
    Asciicast(AsciicastHeader, Vec<AsciicastEntry>),
}

/// Whether `h` is the header of the asciicast of a session.
pub open spec fn is_cast_header(h: AsciicastHeader, d: session::DataView) -> bool {
    &&& h.version == 2
    &&& h.width == 80
    &&& h.height == 24
    &&& h.timestamp == d.info.created_at.0
    &&& h.duration == d.info.duration
    &&& h.title@ == d.info.name
    &&& h.env@.len() == 0
}

/// Whether `r` renders a session in a format.
pub open spec fn is_rendering(r: Rendering, d: session::DataView, format: ExportFormat) -> bool {
    match (r, format) {
        (Rendering::Json, ExportFormat::Json) => true,
        (Rendering::Document(t), ExportFormat::Text) => t@ == text_document(d),
        (Rendering::Document(t), ExportFormat::Markdown) => t@ == markdown_document(d),
        (Rendering::Document(t), ExportFormat::Html) => t@ == html_document(d),
        (Rendering::Asciicast(h, entries), ExportFormat::Asciicast) => is_cast_header(h, d)
            && entry_views(entries@) == cast_entries(d.events),
        _ => false,
    }
}

/// Whether an event is shared.
pub open spec fn is_shared(e: session::EventView, options: SharingOptions) -> bool {
    match e.event_type {
        SessionEventType::Output => options.include_output,
        SessionEventType::Input => options.include_input,
        SessionEventType::System => options.include_system_events,
        _ => true,
    }
}

/// What is shared of a session.
pub open spec fn shared_data(
    d: session::DataView,
    options: SharingOptions,
) -> session::DataView {
    session::DataView {
        events: d.events.filter(|e: session::EventView| is_shared(e, options)),
        ..d
    }
}

impl SessionManager {
    /// Exports a session as plain text.
    pub fn export_as_text(&self, session: &SessionData) -> (r: String)
        ensures
            r@ == text_document(session@),
    {
        "Terminal Session: ".to_owned().concat(session.info.name.as_str()).concat(
            "\nRecorded: ",
        ).concat(session.info.created_at.text().as_str()).concat("\nDuration: ").concat(
            text::decimal_of(session.info.duration).as_str(),
        ).concat(" seconds\n----------------------------------------\n\n").concat(
            transcript_of(&session.events).as_str(),
        )
    }

    /// Exports a session as Markdown.
    pub fn export_as_markdown(&self, session: &SessionData) -> (r: String)
        ensures
            r@ == markdown_document(session@),
    {
        "# Terminal Session: ".to_owned().concat(session.info.name.as_str()).concat(
            "\n\n- **Recorded**: ",
        ).concat(session.info.created_at.text().as_str()).concat("\n- **Duration**: ").concat(
            text::decimal_of(session.info.duration).as_str(),
        ).concat(" seconds\n- **Shell**: ").concat(session.info.shell.as_str()).concat(
            "\n- **Working Directory**: ",
        ).concat(session.info.working_directory.as_str()).concat(
            "\n\n## Terminal Transcript\n\n```\n",
        ).concat(transcript_of(&session.events).as_str()).concat("```\n")
    }

    /// Exports a session as HTML.
    pub fn export_as_html(&self, session: &SessionData) -> (r: String)
        ensures
            r@ == html_document(session@),
    {
        HTML_START.to_owned().concat(session.info.name.as_str()).concat(HTML_STYLE).concat(
            session.info.name.as_str(),
        ).concat("</h1>\n  <div class=\"info\">\n    <p><strong>Recorded:</strong> ").concat(
            session.info.created_at.text().as_str(),
        ).concat("</p>\n    <p><strong>Duration:</strong> ").concat(
            text::decimal_of(session.info.duration).as_str(),
        ).concat(" seconds</p>\n    <p><strong>Shell:</strong> ").concat(
            session.info.shell.as_str(),
        ).concat("</p>\n    <p><strong>Working Directory:</strong> ").concat(
            session.info.working_directory.as_str(),
        ).concat(
            "</p>\n  </div>\n  <h2>Terminal Transcript</h2>\n  <div class=\"terminal\">\n",
        ).concat(html_transcript_of(&session.events).as_str()).concat(
            "  </div>\n</body>\n</html>\n",
        )
    }

    /// The header and the entries of a session's asciicast.
    pub fn export_as_asciicast(&self, session: &SessionData) -> (r: (
        AsciicastHeader,
        Vec<AsciicastEntry>,
    ))
        ensures
            is_cast_header(r.0, session@),
            entry_views(r.1@) == cast_entries(session@.events),
    {
        let header = AsciicastHeader {
            version: 2,
            width: 80,
            height: 24,
            timestamp: session.info.created_at.secs(),
            duration: session.info.duration,
            title: session.info.name.clone(),
            env: Vec::new(),
        };
        let ghost all = session::event_views(session.events@);
        let mut entries: Vec<AsciicastEntry> = Vec::new();
        let mut prev: Option<usize> = None;
        let mut i: usize = 0;
        proof {
            reveal(Seq::filter);
            assert(all.take(0) =~= seq![]);
            assert(entry_views(entries@) =~= cast_entries(all.take(0)));
        }
        while i < session.events.len()
            invariant
                i <= session.events@.len(),
                all == session::event_views(session.events@),
                entry_views(entries@) == cast_entries(all.take(i as int)),
                match prev {
                    Some(k) => k < i && cast_events(all.take(i as int)).len() > 0 && cast_events(
                        all.take(i as int),
                    ).last() == all[k as int],
                    None => cast_events(all.take(i as int)).len() == 0,
                },
            decreases session.events@.len() - i,
        {
            let e = &session.events[i];
            let ghost kept = cast_events(all.take(i as int));
            let ghost before = entry_views(entries@);
            proof {
                assert(all.take(i + 1).drop_last() =~= all.take(i as int));
                assert(all.take(i + 1).last() == e@);
                lemma_cast_step(all.take(i + 1));
            }
            if e.event_type == SessionEventType::Output || e.event_type
                == SessionEventType::Command {
                let offset_millis: i64 = match prev {
                    Some(k) => e.timestamp.millis_since(&session.events[k].timestamp),
                    None => 0,
                };
                let entry = AsciicastEntry {
                    offset_millis,
                    is_command: e.event_type == SessionEventType::Command,
                    content: e.content.clone(),
                };
                proof {
                    let now = kept.push(e@);
                    assert(entry@ == cast_entry(now, kept.len() as int));
                    assert forall|j: int| 0 <= j < kept.len() implies cast_entry(now, j)
                        == cast_entry(kept, j) by {}
                    assert(cast_entries(all.take(i + 1)) =~= before.push(entry@));
                }
                entries.push(entry);
                assert(entry_views(entries@) =~= before.push(entry@));
                prev = Some(i);
            }
            i += 1;
        }
        assert(all.take(i as int) =~= all);
        (header, entries)
    }

    /// How a session is exported in a format.
    pub fn export_session(&self, session: &SessionData, format: ExportFormat) -> (r: Rendering)
        ensures
            is_rendering(r, session@, format),
    {
        match format {
            ExportFormat::Json => Rendering::Json,
            ExportFormat::Text => Rendering::Document(self.export_as_text(session)),
            ExportFormat::Asciicast => {
                let (header, entries) = self.export_as_asciicast(session);
                Rendering::Asciicast(header, entries)
            },
            ExportFormat::Markdown => Rendering::Document(self.export_as_markdown(session)),
            ExportFormat::Html => Rendering::Document(self.export_as_html(session)),
        }
    }

    /// What is shared of a session, and how it becomes a document.
    pub fn share_session(&self, session: &SessionData, options: &SharingOptions) -> (r: (
        SessionData,
        Rendering,
    ))
        ensures
            r.0@ == shared_data(session@, *options),
            is_rendering(r.1, r.0@, format_named(options.format@)),
    {
        let ghost all = session::event_views(session.events@);
        let ghost shared = |e: session::EventView| is_shared(e, *options);
        let mut events: Vec<SessionEvent> = Vec::new();
        let mut i: usize = 0;
        proof {
            reveal(Seq::filter);
            assert(all.take(0) =~= seq![]);
            assert(session::event_views(events@) =~= all.take(0).filter(shared));
        }
        while i < session.events.len()
            invariant
                i <= session.events@.len(),
                all == session::event_views(session.events@),
                shared == (|e: session::EventView| is_shared(e, *options)),
                session::event_views(events@) == all.take(i as int).filter(shared),
            decreases session.events@.len() - i,
        {
            let e = &session.events[i];
            let ghost before = session::event_views(events@);
            proof {
                reveal(Seq::filter);
                assert(all.take(i + 1).drop_last() =~= all.take(i as int));
                assert(all.take(i + 1).last() == e@);
            }
            let keep = match e.event_type {
                SessionEventType::Output => options.include_output,
                SessionEventType::Input => options.include_input,
                SessionEventType::System => options.include_system_events,
                _ => true,
            };
            if keep {
                events.push(e.clone());
                assert(session::event_views(events@) =~= before.push(e@));
            }
            i += 1;
        }
        assert(all.take(i as int) =~= all);
        let filtered = SessionData { info: session.info.clone(), events };
        let format = ExportFormat::from(options.format.as_str());
        let rendering = self.export_session(&filtered, format);
        (filtered, rendering)
    }

    /// What is handed over for the shared document `content`.
    pub fn seal(content: String, options: &SharingOptions) -> (r: Result<String, SessionError>)
        ensures
            match r {
                Ok(t) => if options.encrypt {
                    options.password is Some && t@ == sealed(content@)
                } else {
                    t@ == content@
                },
                Err(e) => options.encrypt && options.password is None && e is PasswordRequired,
            },
    {
        if !options.encrypt {
            return Ok(content);
        }
        match &options.password {
            Some(_) => Ok("ENCRYPTED:".to_owned().concat(to_base64(content.as_str()).as_str())),
            None => Err(SessionError::PasswordRequired),
        }
    }
}

/// Adding an event to a session adds it to its asciicast, or not.
proof fn lemma_cast_step(events: Seq<session::EventView>)
    requires
        events.len() > 0,
    ensures
        cast_events(events) == if is_cast(events.last()) {
            cast_events(events.drop_last()).push(events.last())
        } else {
            cast_events(events.drop_last())
        },
{
    reveal(Seq::filter);
}

// Statistics.

/// The number of events of a kind.
pub open spec fn count_of(events: Seq<session::EventView>, kind: SessionEventType) -> nat
    decreases events.len(),
{
    if events.len() == 0 {
        0
    } else {
        count_of(events.drop_last(), kind) + (if events.last().event_type == kind {
            1nat
        } else {
            0
        })
    }
}

/// The number of bytes put out.
pub open spec fn output_bytes(events: Seq<session::EventView>) -> nat
    decreases events.len(),
{
    if events.len() == 0 {
        0
    } else {
        output_bytes(events.drop_last()) + (if events.last().event_type
            == SessionEventType::Output {
            text::byte_len(events.last().content)
        } else {
            0
        })
    }
}

/// The statistics of a session.
pub open spec fn stats(d: session::DataView) -> Seq<(Seq<char>, Seq<char>)> {
    seq![
        ("name"@, d.info.name),
        ("created_at"@, time::utc_text(d.info.created_at.0, d.info.created_at.1)),
        ("duration"@, text::decimal(d.info.duration as nat)),
        ("shell"@, d.info.shell),
        ("total_events"@, text::decimal(d.events.len())),
        ("command_count"@, text::decimal(count_of(d.events, SessionEventType::Command))),
        ("output_count"@, text::decimal(count_of(d.events, SessionEventType::Output))),
        ("output_size_bytes"@, text::decimal(output_bytes(d.events))),
    ]
}

/// The number of events of a kind.
fn count_events(events: &Vec<SessionEvent>, kind: SessionEventType) -> (r: usize)
    ensures
        r == count_of(session::event_views(events@), kind),
{
    let ghost all = session::event_views(events@);
    let mut n: usize = 0;
    let mut i: usize = 0;
    assert(all.take(0) =~= seq![]);
    while i < events.len()
        invariant
            i <= events@.len(),
            n <= i,
            all == session::event_views(events@),
            n == count_of(all.take(i as int), kind),
        decreases events@.len() - i,
    {
        proof {
            assert(all.take(i + 1).drop_last() =~= all.take(i as int));
            assert(all.take(i + 1).last() == events@[i as int]@);
        }
        if events[i].event_type == kind {
            n += 1;
        }
        i += 1;
    }
    assert(all.take(i as int) =~= all);
    n
}

/// The number of bytes put out, where it can be held.
pub fn output_size(events: &Vec<SessionEvent>) -> (r: Option<usize>)
    ensures
        match r {
            Some(n) => n == output_bytes(session::event_views(events@)),
            None => output_bytes(session::event_views(events@)) > usize::MAX,
        },
{
    let ghost all = session::event_views(events@);
    let mut n: usize = 0;
    let mut i: usize = 0;
    assert(all.take(0) =~= seq![]);
    while i < events.len()
        invariant
            i <= events@.len(),
            all == session::event_views(events@),
            n == output_bytes(all.take(i as int)),
        decreases events@.len() - i,
    {
        proof {
            assert(all.take(i + 1).drop_last() =~= all.take(i as int));
            assert(all.take(i + 1).last() == events@[i as int]@);
            lemma_output_bytes_grow(all, i + 1);
        }
        if events[i].event_type == SessionEventType::Output {
            let size: u128 = text::bytes_of_chars(&text::chars_of(events[i].content.as_str()));
            if size > usize::MAX as u128 || n as u128 + size > usize::MAX as u128 {
                return None;
            }
            n += size as usize;
        }
        i += 1;
    }
    assert(all.take(i as int) =~= all);
    Some(n)
}

/// More events put out no fewer bytes.
proof fn lemma_output_bytes_grow(events: Seq<session::EventView>, n: int)
    requires
        0 <= n <= events.len(),
    ensures
        output_bytes(events.take(n)) <= output_bytes(events),
    decreases events.len() - n,
{
    if n < events.len() {
        lemma_output_bytes_grow(events, n + 1);
        assert(events.take(n + 1).drop_last() =~= events.take(n));
    } else {
        assert(events.take(n) =~= events);
    }
}

impl SessionManager {
    /// The statistics of a session, as names and values.
    pub fn get_session_stats(&self, session: &SessionData) -> (r: Vec<(String, String)>)
        requires
            output_bytes(session@.events) <= usize::MAX,
        ensures
            table::entries(r@) == stats(session@),
    {
        let commands: usize = count_events(&session.events, SessionEventType::Command);
        let outputs: usize = count_events(&session.events, SessionEventType::Output);
        let size: usize = match output_size(&session.events) {
            Some(n) => n,
            None => 0,
        };
        let mut t: Vec<(String, String)> = Vec::new();
        t.push(("name".to_owned(), session.info.name.clone()));
        t.push(("created_at".to_owned(), session.info.created_at.text()));
        t.push(("duration".to_owned(), text::decimal_of(session.info.duration)));
        t.push(("shell".to_owned(), session.info.shell.clone()));
        t.push(("total_events".to_owned(), text::decimal_of(session.events.len() as u64)));
        t.push(("command_count".to_owned(), text::decimal_of(commands as u64)));
        t.push(("output_count".to_owned(), text::decimal_of(outputs as u64)));
        t.push(("output_size_bytes".to_owned(), text::decimal_of(size as u64)));
        assert(table::entries(t@) =~= stats(session@));
        t
    }
}

// Laws.

/// An escaped text holds none of the characters that open or close a tag or
/// the value of an attribute.
pub proof fn law_escaped_text_holds_no_markup(s: Seq<char>)
    ensures
        forall|i: int|
            #![trigger html_escaped(s)[i]]
            0 <= i < html_escaped(s).len() ==> html_escaped(s)[i] != '<' && html_escaped(s)[i]
                != '>' && html_escaped(s)[i] != '"' && html_escaped(s)[i] != '\'',
    decreases s.len(),
{
    let f = |c: char| html_char(c);
    if s.len() > 0 {
        law_escaped_text_holds_no_markup(s.drop_last());
        assert(s.map_values(f).drop_last() =~= s.drop_last().map_values(f));
        assert(html_escaped(s) == html_escaped(s.drop_last()) + html_char(s.last()));
        reveal_strlit("&quot;");
        reveal_strlit("&amp;");
        reveal_strlit("&#x27;");
        reveal_strlit("&lt;");
        reveal_strlit("&gt;");
    }
}

/// Different numbers below 64 have different digits, none of which is `=`.
proof fn lemma_base64_digit(m: int, n: int)
    requires
        0 <= m < 64,
        0 <= n < 64,
    ensures
        base64_digit(m) != '=',
        base64_digit(m) == base64_digit(n) ==> m == n,
{
}

/// What three bytes are written as tells them.
proof fn lemma_base64_group(a: u8, b: u8, c: u8, x: u8, y: u8, z: u8)
    requires
        base64_digit(a as int / 4) == base64_digit(x as int / 4),
        base64_digit(a as int % 4 * 16 + b as int / 16) == base64_digit(
            x as int % 4 * 16 + y as int / 16,
        ),
        base64_digit(b as int % 16 * 4 + c as int / 64) == base64_digit(
            y as int % 16 * 4 + z as int / 64,
        ),
        base64_digit(c as int % 64) == base64_digit(z as int % 64),
    ensures
        a == x && b == y && c == z,
{
    lemma_base64_digit(a as int / 4, x as int / 4);
    lemma_base64_digit(a as int % 4 * 16 + b as int / 16, x as int % 4 * 16 + y as int / 16);
    lemma_base64_digit(b as int % 16 * 4 + c as int / 64, y as int % 16 * 4 + z as int / 64);
    lemma_base64_digit(c as int % 64, z as int % 64);
}

/// Different bytes are written differently.
pub proof fn law_base64_is_injective(a: Seq<u8>, b: Seq<u8>)
    requires
        base64_text(a) == base64_text(b),
    ensures
        a == b,
    decreases a.len(),
{
    let s = base64_text(a);
    let t = base64_text(b);
    if a.len() == 0 {
        assert(b.len() == 0) by {
            assert(t.len() == 0);
        }
        assert(a =~= b);
    } else if b.len() == 0 {
        assert(s.len() > 0);
    } else {
        let a1 = if a.len() > 1 {
            a[1]
        } else {
            0u8
        };
        let a2 = if a.len() > 2 {
            a[2]
        } else {
            0u8
        };
        let b1 = if b.len() > 1 {
            b[1]
        } else {
            0u8
        };
        let b2 = if b.len() > 2 {
            b[2]
        } else {
            0u8
        };
        assert(s[0] == t[0] && s[1] == t[1] && s[2] == t[2] && s[3] == t[3]);
        lemma_base64_digit(a1 as int % 16 * 4 + a2 as int / 64, 0);
        lemma_base64_digit(b1 as int % 16 * 4 + b2 as int / 64, 0);
        lemma_base64_digit(a2 as int % 64, 0);
        lemma_base64_digit(b2 as int % 64, 0);
        if a.len() == 1 {
            assert(s[2] == '=');
            assert(b.len() == 1);
            lemma_base64_group(a[0], 0, 0, b[0], 0, 0);
            assert(a =~= b);
        } else if a.len() == 2 {
            assert(s[2] != '=' && s[3] == '=');
            assert(b.len() == 2);
            lemma_base64_group(a[0], a[1], 0, b[0], b[1], 0);
            assert(a =~= b);
        } else {
            assert(s[3] != '=');
            assert(b.len() > 2);
            lemma_base64_group(a[0], a[1], a[2], b[0], b[1], b[2]);
            assert(s.skip(4) =~= base64_text(a.skip(3)));
            assert(t.skip(4) =~= base64_text(b.skip(3)));
            law_base64_is_injective(a.skip(3), b.skip(3));
            assert(a =~= seq![a[0], a[1], a[2]] + a.skip(3));
            assert(b =~= seq![b[0], b[1], b[2]] + b.skip(3));
        }
    }
}

/// What is handed over for a shared document tells the document.
pub proof fn law_sealed_content_is_not_lost(c: Seq<char>, d: Seq<char>)
    requires
        sealed(c) == sealed(d),
    ensures
        c == d,
{
    let head = "ENCRYPTED:"@;
    let x = base64_text(encode_utf8(c));
    let y = base64_text(encode_utf8(d));
    assert(sealed(c).skip(head.len() as int) =~= x);
    assert(sealed(d).skip(head.len() as int) =~= y);
    law_base64_is_injective(encode_utf8(c), encode_utf8(d));
    encode_utf8_decode_utf8(c);
    encode_utf8_decode_utf8(d);
}

/// Sharing leaves out events and changes none: what is shared has the same
/// information, holds no event of a kind that is left out, and is all of the
/// session where every kind is included.
pub proof fn law_sharing_only_leaves_out(d: session::DataView, options: SharingOptions)
    ensures
        shared_data(d, options).info == d.info,
        forall|i: int|
            0 <= i < shared_data(d, options).events.len() ==> is_shared(
                #[trigger] shared_data(d, options).events[i],
                options,
            ) && d.events.contains(shared_data(d, options).events[i]),
        options.include_output && options.include_input && options.include_system_events
            ==> shared_data(d, options) == d,
{
    let f = |e: session::EventView| is_shared(e, options);
    let kept = shared_data(d, options).events;
    assert forall|i: int| 0 <= i < kept.len() implies is_shared(#[trigger] kept[i], options)
        && d.events.contains(kept[i]) by {
        lemma_filter_member(d.events, f, i);
    }
    if options.include_output && options.include_input && options.include_system_events {
        lemma_filter_all(d.events, f);
    }
}

/// What a filter leaves passes it, and was there.
proof fn lemma_filter_member(
    s: Seq<session::EventView>,
    f: spec_fn(session::EventView) -> bool,
    i: int,
)
    requires
        0 <= i < s.filter(f).len(),
    ensures
        f(s.filter(f)[i]),
        s.contains(s.filter(f)[i]),
    decreases s.len(),
{
    reveal(Seq::filter);
    let rest = s.drop_last().filter(f);
    if i < rest.len() {
        lemma_filter_member(s.drop_last(), f, i);
        let k = choose|k: int| 0 <= k < s.drop_last().len() && s.drop_last()[k] == rest[i];
        assert(s[k] == rest[i]);
    } else {
        assert(s[s.len() - 1] == s.last());
    }
}

/// A filter keeps a single item or leaves it out.
proof fn lemma_filter_one(e: session::EventView, f: spec_fn(session::EventView) -> bool)
    ensures
        seq![e].filter(f) == if f(e) {
            seq![e]
        } else {
            seq![]
        },
{
    reveal_with_fuel(Seq::filter, 2);
    let none = Seq::<session::EventView>::empty();
    assert(seq![e].drop_last() =~= none);
    assert(none.filter(f) =~= none);
    assert(none.push(e) =~= seq![e]);
}

/// A filter that leaves everything keeps everything.
proof fn lemma_filter_all(s: Seq<session::EventView>, f: spec_fn(session::EventView) -> bool)
    requires
        forall|e: session::EventView| #[trigger] f(e),
    ensures
        s.filter(f) == s,
    decreases s.len(),
{
    reveal(Seq::filter);
    if s.len() > 0 {
        lemma_filter_all(s.drop_last(), f);
        assert(f(s.last()));
        assert(s.drop_last().push(s.last()) =~= s);
    }
}

/// The commands counted in the statistics are the commands of the session.
pub proof fn law_counts_agree(events: Seq<session::EventView>)
    ensures
        count_of(events, SessionEventType::Command) == session::commands(events),
        count_of(events, SessionEventType::Command) + count_of(events, SessionEventType::Output)
            == cast_events(events).len(),
        cast_entries(events).len() == cast_events(events).len(),
    decreases events.len(),
{
    reveal(Seq::filter);
    if events.len() > 0 {
        law_counts_agree(events.drop_last());
        lemma_cast_step(events);
    }
}

/// Whether an event is told in a transcript.
pub open spec fn is_told(e: session::EventView) -> bool {
    e.event_type == SessionEventType::Command || e.event_type == SessionEventType::Output
}

/// The transcript of two lists of events one after the other is the two
/// transcripts one after the other, as text and as HTML.
pub proof fn law_transcripts_follow_each_other(
    a: Seq<session::EventView>,
    b: Seq<session::EventView>,
)
    ensures
        transcript(a + b) == transcript(a) + transcript(b),
        html_transcript(a + b) == html_transcript(a) + html_transcript(b),
        transcript(seq![]).len() == 0,
        html_transcript(seq![]).len() == 0,
    decreases b.len(),
{
    if b.len() == 0 {
        assert(a + b =~= a);
        assert(transcript(a) + transcript(b) =~= transcript(a));
        assert(html_transcript(a) + html_transcript(b) =~= html_transcript(a));
    } else {
        law_transcripts_follow_each_other(a, b.drop_last());
        assert((a + b).drop_last() =~= a + b.drop_last());
        assert(transcript(a + b) =~= transcript(a) + transcript(b));
        assert(html_transcript(a + b) =~= html_transcript(a) + html_transcript(b));
    }
}

/// A transcript tells a piece of output as a line of its own, and a command
/// behind the time of day that it was given at and a prompt. An HTML transcript
/// tells the same, with the text escaped. No other event is told.
pub proof fn law_transcript_of_one_event(e: session::EventView)
    ensures
        e.event_type == SessionEventType::Output ==> transcript(seq![e]) == e.content.push('\n'),
        e.event_type == SessionEventType::Command ==> transcript(seq![e]) == (seq!['[']
            + session::command_clock(e) + seq![']', ' ', '$', ' '] + e.content).push('\n'),
        e.event_type == SessionEventType::Output ==> html_transcript(seq![e]) == html_escaped(
            e.content,
        ).push('\n'),
        e.event_type == SessionEventType::Command ==> html_transcript(seq![e])
            == "<span class=\"timestamp\">["@ + session::command_clock(e)
            + "]</span> <span class=\"command\">$ "@ + html_escaped(e.content) + "</span>\n"@,
        !is_told(e) ==> transcript(seq![e]).len() == 0 && html_transcript(seq![e]).len() == 0,
{
    reveal_with_fuel(transcript, 2);
    reveal_with_fuel(html_transcript, 2);
    reveal_strlit("\n");
    reveal_strlit("[");
    reveal_strlit("] $ ");
    let none = Seq::<session::EventView>::empty();
    assert(seq![e].drop_last() =~= none);
    let t = transcript_line(e);
    assert(transcript(seq![e]) =~= t);
    assert(html_transcript(seq![e]) =~= html_line(e));
    assert("] $ "@ =~= seq![']', ' ', '$', ' ']);
    assert("["@ =~= seq!['[']);
    if e.event_type == SessionEventType::Output {
        assert(t =~= e.content.push('\n'));
        assert(html_line(e) =~= html_escaped(e.content).push('\n'));
    }
    if e.event_type == SessionEventType::Command {
        assert(t =~= (seq!['['] + session::command_clock(e) + seq![']', ' ', '$', ' ']
            + e.content).push('\n'));
    }
}

/// A transcript keeps every command and every piece of output, in order: it is
/// that of the session with all other events left out.
pub proof fn law_transcript_leaves_out_the_rest(events: Seq<session::EventView>)
    ensures
        transcript(events) == transcript(events.filter(|e: session::EventView| is_told(e))),
        html_transcript(events) == html_transcript(
            events.filter(|e: session::EventView| is_told(e)),
        ),
    decreases events.len(),
{
    reveal(Seq::filter);
    let f = |e: session::EventView| is_told(e);
    if events.len() > 0 {
        let rest = events.drop_last();
        law_transcript_leaves_out_the_rest(rest);
        if is_told(events.last()) {
            let kept = rest.filter(f);
            assert(events.filter(f) == kept.push(events.last()));
            assert(kept.push(events.last()).drop_last() =~= kept);
        } else {
            assert(transcript(events) =~= transcript(rest));
            assert(html_transcript(events) =~= html_transcript(rest));
        }
    }
}

/// A document tells of the session in this order: its name, the moment of its
/// start, its duration in seconds, and its transcript at the end. Markdown and
/// HTML tell of the shell and of the directory too.
pub proof fn law_documents_tell_of_the_session(d: session::DataView)
    ensures
        ({
            let moment = time::utc_text(d.info.created_at.0, d.info.created_at.1);
            let seconds = text::decimal(d.info.duration as nat);
            &&& diff::stand_in_order(
                text_document(d),
                seq![d.info.name, moment, seconds, transcript(d.events)],
            )
            &&& text::ends_with(text_document(d), transcript(d.events))
            &&& diff::stand_in_order(
                markdown_document(d),
                seq![
                    d.info.name,
                    moment,
                    seconds,
                    d.info.shell,
                    d.info.working_directory,
                    transcript(d.events),
                ],
            )
            &&& diff::stand_in_order(
                html_document(d),
                seq![
                    d.info.name,
                    d.info.name,
                    moment,
                    seconds,
                    d.info.shell,
                    d.info.working_directory,
                    html_transcript(d.events),
                ],
            )
        }),
{
    let name = d.info.name;
    let moment = time::utc_text(d.info.created_at.0, d.info.created_at.1);
    let seconds = text::decimal(d.info.duration as nat);
    let shell = d.info.shell;
    let dir = d.info.working_directory;
    let lines = transcript(d.events);
    let html = html_transcript(d.events);
    let none = Seq::<Seq<char>>::empty();
    let empty = Seq::<char>::empty();
    diff::lemma_nothing_stands(empty);
    // Text.
    let a = "Terminal Session: "@;
    diff::lemma_stand_next(empty, none, a, name);
    let s = empty + a + name;
    diff::lemma_stand_next(s, none.push(name), "\nRecorded: "@, moment);
    let s = s + "\nRecorded: "@ + moment;
    diff::lemma_stand_next(s, none.push(name).push(moment), "\nDuration: "@, seconds);
    let s = s + "\nDuration: "@ + seconds;
    let p = none.push(name).push(moment).push(seconds);
    let rule = " seconds\n----------------------------------------\n\n"@;
    diff::lemma_stand_next(s, p, rule, lines);
    let s = s + rule + lines;
    assert(s =~= text_document(d));
    assert(p.push(lines) =~= seq![name, moment, seconds, lines]);
    assert(s.subrange(s.len() - lines.len(), s.len() as int) =~= lines);
    // Markdown.
    let a = "# Terminal Session: "@;
    diff::lemma_stand_next(empty, none, a, name);
    let s = empty + a + name;
    diff::lemma_stand_next(s, none.push(name), "\n\n- **Recorded**: "@, moment);
    let s = s + "\n\n- **Recorded**: "@ + moment;
    diff::lemma_stand_next(s, none.push(name).push(moment), "\n- **Duration**: "@, seconds);
    let s = s + "\n- **Duration**: "@ + seconds;
    diff::lemma_stand_next(s, p, " seconds\n- **Shell**: "@, shell);
    let s = s + " seconds\n- **Shell**: "@ + shell;
    diff::lemma_stand_next(s, p.push(shell), "\n- **Working Directory**: "@, dir);
    let s = s + "\n- **Working Directory**: "@ + dir;
    let fence = "\n\n## Terminal Transcript\n\n```\n"@;
    diff::lemma_stand_next(s, p.push(shell).push(dir), fence, lines);
    let s = s + fence + lines;
    let q = p.push(shell).push(dir).push(lines);
    diff::lemma_stand_longer(s, "```\n"@, q);
    assert(s + "```\n"@ =~= markdown_document(d));
    assert(q =~= seq![name, moment, seconds, shell, dir, lines]);
    // HTML.
    diff::lemma_stand_next(empty, none, HTML_START@, name);
    let s = empty + HTML_START@ + name;
    diff::lemma_stand_next(s, none.push(name), HTML_STYLE@, name);
    let s = s + HTML_STYLE@ + name;
    let p = none.push(name).push(name);
    let b = "</h1>\n  <div class=\"info\">\n    <p><strong>Recorded:</strong> "@;
    diff::lemma_stand_next(s, p, b, moment);
    let s = s + b + moment;
    let b = "</p>\n    <p><strong>Duration:</strong> "@;
    diff::lemma_stand_next(s, p.push(moment), b, seconds);
    let s = s + b + seconds;
    let p = p.push(moment).push(seconds);
    let b = " seconds</p>\n    <p><strong>Shell:</strong> "@;
    diff::lemma_stand_next(s, p, b, shell);
    let s = s + b + shell;
    let b = "</p>\n    <p><strong>Working Directory:</strong> "@;
    diff::lemma_stand_next(s, p.push(shell), b, dir);
    let s = s + b + dir;
    let b = "</p>\n  </div>\n  <h2>Terminal Transcript</h2>\n  <div class=\"terminal\">\n"@;
    diff::lemma_stand_next(s, p.push(shell).push(dir), b, html);
    let s = s + b + html;
    let q = p.push(shell).push(dir).push(html);
    let end = "  </div>\n</body>\n</html>\n"@;
    diff::lemma_stand_longer(s, end, q);
    assert(s + end =~= html_document(d));
    assert(q =~= seq![name, name, moment, seconds, shell, dir, html]);
}

/// Escaping goes character by character: the five characters with a meaning of
/// their own become entities, and every other one stays.
pub proof fn law_escaping_goes_by_character(a: Seq<char>, b: Seq<char>, c: char)
    ensures
        html_escaped(a + b) == html_escaped(a) + html_escaped(b),
        html_escaped(seq![]).len() == 0,
        c != '"' && c != '&' && c != '\'' && c != '<' && c != '>' ==> html_escaped(seq![c])
            == seq![c],
        html_escaped(seq!['"']) == "&quot;"@,
        html_escaped(seq!['&']) == "&amp;"@,
        html_escaped(seq!['\'']) == "&#x27;"@,
        html_escaped(seq!['<']) == "&lt;"@,
        html_escaped(seq!['>']) == "&gt;"@,
    decreases b.len(),
{
    let f = |c: char| html_char(c);
    assert forall|x: char| html_escaped(#[trigger] seq![x]) == html_char(x) by {
        reveal_with_fuel(text::concat, 2);
        assert(seq![x].map_values(f).drop_last() =~= seq![]);
        assert(html_escaped(seq![x]) =~= html_char(x));
    }
    if b.len() == 0 {
        assert(a + b =~= a);
        assert(html_escaped(a) + html_escaped(b) =~= html_escaped(a));
    } else {
        law_escaping_goes_by_character(a, b.drop_last(), c);
        assert((a + b).map_values(f).drop_last() =~= (a + b.drop_last()).map_values(f));
        assert(b.map_values(f).drop_last() =~= b.drop_last().map_values(f));
        assert(html_escaped(a + b) =~= html_escaped(a) + html_escaped(b));
    }
}

/// Exactly the events of the wanted kinds are shared, as they are and in their
/// order: output, input and system events where their own option says so, and
/// commands and changes of size in any case.
pub proof fn law_wanted_kinds_are_shared(
    d: session::DataView,
    more: Seq<session::EventView>,
    options: SharingOptions,
    e: session::EventView,
)
    ensures
        shared_data(
            session::DataView { events: d.events + more, ..d },
            options,
        ).events == shared_data(d, options).events + shared_data(
            session::DataView { events: more, ..d },
            options,
        ).events,
        ({
            let kept = shared_data(session::DataView { events: seq![e], ..d }, options).events;
            let wanted = match e.event_type {
                SessionEventType::Output => options.include_output,
                SessionEventType::Input => options.include_input,
                SessionEventType::System => options.include_system_events,
                SessionEventType::Command => true,
                SessionEventType::Resize => true,
            };
            kept == if wanted {
                seq![e]
            } else {
                seq![]
            }
        }),
        forall|i: int|
            0 <= i < shared_data(d, options).events.len() ==> {
                let kind = (#[trigger] shared_data(d, options).events[i]).event_type;
                &&& !options.include_input ==> kind != SessionEventType::Input
                &&& !options.include_system_events ==> kind != SessionEventType::System
                &&& !options.include_output ==> kind != SessionEventType::Output
            },
        shared_data(d, options).info == d.info,
{
    let f = |e: session::EventView| is_shared(e, options);
    Seq::filter_distributes_over_add(d.events, more, f);
    reveal(Seq::filter);
    assert(seq![e].drop_last() =~= seq![]);
    let kept = shared_data(d, options).events;
    assert forall|i: int| 0 <= i < kept.len() implies {
        let kind = (#[trigger] kept[i]).event_type;
        &&& !options.include_input ==> kind != SessionEventType::Input
        &&& !options.include_system_events ==> kind != SessionEventType::System
        &&& !options.include_output ==> kind != SessionEventType::Output
    } by {
        lemma_filter_member(d.events, f, i);
    }
    lemma_filter_one(e, f);
}

/// An asciicast has an entry for every command and every piece of output, in
/// their order, with its text. The first comes at once, and each other after the
/// time since the one before it.
pub proof fn law_cast_holds_commands_and_output(
    a: Seq<session::EventView>,
    b: Seq<session::EventView>,
    e: session::EventView,
    i: int,
)
    ensures
        cast_events(a + b) == cast_events(a) + cast_events(b),
        cast_events(seq![e]) == if is_told(e) {
            seq![e]
        } else {
            seq![]
        },
        cast_entries(a).len() == cast_events(a).len(),
        0 <= i < cast_entries(a).len() ==> {
            let entry = cast_entries(a)[i];
            let event = cast_events(a)[i];
            &&& entry.content == event.content
            &&& entry.is_command <==> event.event_type == SessionEventType::Command
            &&& i == 0 ==> entry.offset_millis == 0
            &&& i > 0 ==> entry.offset_millis == time::millis_between(
                event.at,
                cast_events(a)[i - 1].at,
            )
        },
{
    let f = |e: session::EventView| is_cast(e);
    Seq::filter_distributes_over_add(a, b, f);
    reveal(Seq::filter);
    assert(seq![e].drop_last() =~= seq![]);
    lemma_filter_one(e, f);
}

/// Three digits are read as a number.
proof fn lemma_three_digits(x: int, y: int, z: int)
    requires
        0 <= x < 10,
        0 <= y < 10,
        0 <= z < 10,
    ensures
        text::number_of(seq![text::digit(x), text::digit(y), text::digit(z)]) == 100 * x + 10 * y
            + z,
{
    let tail = seq![text::digit(x), text::digit(y), text::digit(z)];
    let two = seq![text::digit(x), text::digit(y)];
    let one = seq![text::digit(x)];
    let none = Seq::<char>::empty();
    assert(text::digit(x) as u32 == 48 + x);
    assert(text::digit(y) as u32 == 48 + y);
    assert(text::digit(z) as u32 == 48 + z);
    assert(tail.drop_last() =~= two);
    assert(two.drop_last() =~= one);
    assert(one.drop_last() =~= none);
    assert(text::number_of(none) == 0);
    assert(text::number_of(one) == x);
    assert(text::number_of(two) == 10 * x + y);
}

/// A number is made up of its thousands and its last three digits.
proof fn lemma_thousandths(n: int)
    requires
        n >= 0,
    ensures
        n == 1000 * (n / 1000) + 100 * (n / 100 % 10) + 10 * (n / 10 % 10) + n % 10,
        0 <= n / 100 % 10 < 10,
        0 <= n / 10 % 10 < 10,
        0 <= n % 10 < 10,
{
    let a = n / 10;
    let b = a / 10;
    assert(n / 100 == b);
    assert(n / 1000 == b / 10);
}

/// A time in an asciicast is read back: in front of the point are the whole
/// seconds, behind it three digits of thousandths, and a minus goes before a
/// time that goes back.
pub proof fn law_seconds_read_back(millis: int)
    ensures
        ({
            let s = seconds_text(millis);
            let n = if millis < 0 {
                -millis
            } else {
                millis
            };
            let sign: int = if millis < 0 {
                1
            } else {
                0
            };
            let k = s.len() as int;
            &&& k >= sign + 5
            &&& millis < 0 ==> s[0] == '-'
            &&& s[k - 4] == '.'
            &&& text::number_of(s.subrange(sign, k - 4)) * 1000 + text::number_of(
                s.subrange(k - 3, k),
            ) == n
        }),
{
    let s = seconds_text(millis);
    let n = if millis < 0 {
        -millis
    } else {
        millis
    };
    let sign: int = if millis < 0 {
        1
    } else {
        0
    };
    let whole = text::decimal((n / 1000) as nat);
    let k = s.len() as int;
    text::law_decimal_reads_back((n / 1000) as nat);
    text::lemma_decimal_digits((n / 1000) as nat);
    assert(s.subrange(sign, k - 4) =~= whole);
    lemma_thousandths(n);
    let x = n / 100 % 10;
    let y = n / 10 % 10;
    let z = n % 10;
    let tail = seq![text::digit(x), text::digit(y), text::digit(z)];
    assert(s.subrange(k - 3, k) =~= tail);
    lemma_three_digits(x, y, z);
}

/// A line of an asciicast is a list of three: the time, `o` for output or `i`
/// for input, and the text.
pub proof fn law_cast_line_is_a_list(e: EntryView)
    ensures
        e.is_command ==> cast_line(e) == seq!['['] + seconds_text(e.offset_millis) + seq![
            ',',
            '"',
            'i',
            '"',
            ',',
        ] + json::json_string(e.content) + seq![']'],
        !e.is_command ==> cast_line(e) == seq!['['] + seconds_text(e.offset_millis) + seq![
            ',',
            '"',
            'o',
            '"',
            ',',
        ] + json::json_string(e.content) + seq![']'],
{
    reveal_strlit("[");
    reveal_strlit("]");
    reveal_strlit(",\"i\",");
    reveal_strlit(",\"o\",");
    assert("["@ =~= seq!['[']);
    assert("]"@ =~= seq![']']);
    assert(",\"i\","@ =~= seq![',', '"', 'i', '"', ',']);
    assert(",\"o\","@ =~= seq![',', '"', 'o', '"', ',']);
}

/// The lines of an asciicast stand one after the other, each with its end.
pub proof fn law_ended_lines_follow_each_other(
    a: Seq<Seq<char>>,
    b: Seq<Seq<char>>,
    line: Seq<char>,
)
    ensures
        ended_lines(a + b) == ended_lines(a) + ended_lines(b),
        ended_lines(seq![line]) == line.push('\n'),
        ended_lines(seq![]).len() == 0,
    decreases b.len(),
{
    reveal_with_fuel(ended_lines, 2);
    reveal_strlit("\n");
    assert(seq![line].drop_last() =~= seq![]);
    assert(ended_lines(seq![line]) =~= line.push('\n'));
    if b.len() == 0 {
        assert(a + b =~= a);
        assert(ended_lines(a) + ended_lines(b) =~= ended_lines(a));
    } else {
        law_ended_lines_follow_each_other(a, b.drop_last(), line);
        assert((a + b).drop_last() =~= a + b.drop_last());
        assert(ended_lines(a + b) =~= ended_lines(a) + ended_lines(b));
    }
}

/// The statistics count each event once: the counts and the bytes of two lists
/// of events add up, and a single event counts for its own kind only.
pub proof fn law_statistics_add_up(
    a: Seq<session::EventView>,
    b: Seq<session::EventView>,
    e: session::EventView,
    kind: SessionEventType,
)
    ensures
        count_of(a + b, kind) == count_of(a, kind) + count_of(b, kind),
        output_bytes(a + b) == output_bytes(a) + output_bytes(b),
        count_of(seq![e], kind) == if e.event_type == kind {
            1int
        } else {
            0
        },
        output_bytes(seq![e]) == if e.event_type == SessionEventType::Output {
            text::byte_len(e.content) as int
        } else {
            0
        },
    decreases b.len(),
{
    reveal_with_fuel(count_of, 2);
    reveal_with_fuel(output_bytes, 2);
    assert(seq![e].drop_last() =~= seq![]);
    if b.len() == 0 {
        assert(a + b =~= a);
    } else {
        law_statistics_add_up(a, b.drop_last(), e, kind);
        assert((a + b).drop_last() =~= a + b.drop_last());
    }
}

/// The statistics tell what the session holds, each figure under its name.
pub proof fn law_statistics_tell_of_the_session(d: session::DataView)
    ensures
        stats(d).len() == 8,
        stats(d)[0] == ("name"@, d.info.name),
        stats(d)[1] == ("created_at"@, time::utc_text(d.info.created_at.0, d.info.created_at.1)),
        stats(d)[2].0 == "duration"@ && text::number_of(stats(d)[2].1) == d.info.duration,
        stats(d)[3] == ("shell"@, d.info.shell),
        stats(d)[4].0 == "total_events"@ && text::number_of(stats(d)[4].1) == d.events.len(),
        stats(d)[5].0 == "command_count"@ && text::number_of(stats(d)[5].1) == session::commands(
            d.events,
        ),
        stats(d)[6].0 == "output_count"@ && text::number_of(stats(d)[6].1) == d.events.filter(
            |e: session::EventView| e.event_type == SessionEventType::Output,
        ).len(),
        stats(d)[7].0 == "output_size_bytes"@ && text::number_of(stats(d)[7].1) == output_bytes(
            d.events,
        ),
{
    text::law_decimal_reads_back(d.info.duration as nat);
    text::law_decimal_reads_back(d.events.len());
    text::law_decimal_reads_back(count_of(d.events, SessionEventType::Command));
    text::law_decimal_reads_back(count_of(d.events, SessionEventType::Output));
    text::law_decimal_reads_back(output_bytes(d.events));
    law_counts_agree(d.events);
    lemma_count_is_filter(d.events);
}

/// The pieces of output that are counted are those there are.
proof fn lemma_count_is_filter(events: Seq<session::EventView>)
    ensures
        count_of(events, SessionEventType::Output) == events.filter(
            |e: session::EventView| e.event_type == SessionEventType::Output,
        ).len(),
    decreases events.len(),
{
    reveal(Seq::filter);
    if events.len() > 0 {
        lemma_count_is_filter(events.drop_last());
    }
}

/// A format goes by its name, whatever the case of its letters; any other name
/// stands for plain text.
pub proof fn law_formats_go_by_name(s: Seq<char>)
    ensures
        ({
            let name = text::ascii_lowered(s);
            &&& name == "json"@ ==> format_named(s) == ExportFormat::Json
            &&& name == "asciicast"@ ==> format_named(s) == ExportFormat::Asciicast
            &&& name == "markdown"@ || name == "md"@ ==> format_named(s) == ExportFormat::Markdown
            &&& name == "html"@ ==> format_named(s) == ExportFormat::Html
            &&& name != "json"@ && name != "asciicast"@ && name != "markdown"@ && name != "md"@
                && name != "html"@ ==> format_named(s) == ExportFormat::Text
        }),
{
    reveal_strlit("json");
    reveal_strlit("asciicast");
    reveal_strlit("markdown");
    reveal_strlit("md");
    reveal_strlit("html");
    assert("json"@[0] != "html"@[0]);
    assert("json"@.len() == 4 && "html"@.len() == 4 && "asciicast"@.len() == 9);
    assert("markdown"@.len() == 8 && "md"@.len() == 2);
}

/// Each format renders a session in its own way: text, Markdown and HTML as the
/// document itself, JSON as the session, and an asciicast as a header and the
/// entries of the session.
pub proof fn law_each_format_renders(r: Rendering, d: session::DataView, format: ExportFormat)
    requires
        is_rendering(r, d, format),
    ensures
        format == ExportFormat::Json <==> r is Json,
        format == ExportFormat::Asciicast <==> r is Asciicast,
        r matches Rendering::Document(t) ==> {
            &&& format == ExportFormat::Text ==> t@ == text_document(d)
            &&& format == ExportFormat::Markdown ==> t@ == markdown_document(d)
            &&& format == ExportFormat::Html ==> t@ == html_document(d)
        },
        r matches Rendering::Asciicast(h, entries) ==> {
            &&& h.version == 2 && h.width == 80 && h.height == 24
            &&& h.timestamp == d.info.created_at.0 && h.duration == d.info.duration
            &&& h.title@ == d.info.name && h.env@.len() == 0
            &&& entries@.len() == cast_events(d.events).len()
            &&& forall|i: int|
                0 <= i < entries@.len() ==> (#[trigger] entries@[i]).content@ == cast_events(
                    d.events,
                )[i].content
        },
{
    if let Rendering::Asciicast(h, entries) = r {
        assert(entry_views(entries@).len() == entries@.len());
        assert forall|i: int| 0 <= i < entries@.len() implies (#[trigger] entries@[i]).content@
            == cast_events(d.events)[i].content by {
            assert(entry_views(entries@)[i] == entries@[i]@);
        }
    }
}

/// The digits of base64 are the capital letters, the small letters, the numerals and
/// two signs, in this order.
pub proof fn law_base64_alphabet(n: int)
    ensures
        0 <= n < 26 ==> base64_digit(n) as int == 'A' as int + n,
        26 <= n < 52 ==> base64_digit(n) as int == 'a' as int + n - 26,
        52 <= n < 62 ==> base64_digit(n) as int == '0' as int + n - 52,
        base64_digit(62) == '+',
        base64_digit(63) == '/',
{
}

/// Three bytes are four digits of the same number, and what follows them is encoded on
/// its own; one byte or two that are left over are filled up to four places.
pub proof fn law_base64_keeps_the_number(a: u8, b: u8, c: u8, rest: Seq<u8>) -> (v: (
    int,
    int,
    int,
    int,
))
    ensures
        0 <= v.0 < 64 && 0 <= v.1 < 64 && 0 <= v.2 < 64 && 0 <= v.3 < 64,
        v.0 * 262144 + v.1 * 4096 + v.2 * 64 + v.3 == a * 65536 + b * 256 + c,
        base64_text(seq![a, b, c] + rest) == seq![
            base64_digit(v.0),
            base64_digit(v.1),
            base64_digit(v.2),
            base64_digit(v.3),
        ] + base64_text(rest),
        c == 0 ==> base64_text(seq![a, b]) == seq![
            base64_digit(v.0),
            base64_digit(v.1),
            base64_digit(v.2),
            '=',
        ],
        b == 0 && c == 0 ==> base64_text(seq![a]) == seq![
            base64_digit(v.0),
            base64_digit(v.1),
            '=',
            '=',
        ],
        base64_text(seq![]).len() == 0,
{
    let s = seq![a, b, c] + rest;
    assert(s.skip(3) =~= rest);
    let v = (
        a as int / 4,
        a as int % 4 * 16 + b as int / 16,
        b as int % 16 * 4 + c as int / 64,
        c as int % 64,
    );
    assert(s[0] == a && s[1] == b && s[2] == c);
    v
}

/// What is sealed begins with a word that says so, and what follows is the content in
/// base64 and nothing else.
pub proof fn law_sealed_content_is_marked(content: Seq<char>)
    ensures
        text::starts_with(sealed(content), "ENCRYPTED:"@),
        sealed(content) == "ENCRYPTED:"@ + base64_text(encode_utf8(content)),
{
    let i = text::law_texts_hold_their_parts(
        seq![],
        "ENCRYPTED:"@,
        base64_text(encode_utf8(content)),
        sealed(content),
    );
}

/// The header of an asciicast is of the second version and for a screen of 80 columns
/// and 24 lines, and tells when the session began, how long it took and its name.
pub proof fn law_cast_header_tells_of_the_session(h: AsciicastHeader, d: session::DataView)
    requires
        is_cast_header(h, d),
    ensures
        h.version == 2,
        h.width == 80,
        h.height == 24,
        h.timestamp == d.info.created_at.0,
        h.duration == d.info.duration,
        h.title@ == d.info.name,
        h.env@.len() == 0,
{
}

} // verus!
