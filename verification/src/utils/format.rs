//! Styles of text, and Markdown made plain.

use vstd::prelude::*;
use crate::text;

verus! {

/// The colors that a terminal shows.
#[derive(Debug, Clone, Copy, PartialEq, Eq, Structural)]
pub enum Color {
    Reset,
    Black,
    DarkGrey,
    Red,
    DarkRed,
    Green,
    DarkGreen,
    Yellow,
    DarkYellow,
    Blue,
    DarkBlue,
    Magenta,
    DarkMagenta,
    Cyan,
    DarkCyan,
    White,
    Grey,
    Rgb { r: u8, g: u8, b: u8 },
    AnsiValue(u8),
}

/// Text style for TUI rendering.
#[derive(Debug, Clone, Copy)]
pub struct Style {
    pub fg: Option<Color>,
    pub bg: Option<Color>,
    pub bold: bool,
    pub underline: bool,
}

impl Style {
    /// The style of plain text.
    pub fn default() -> (r: Self)
        ensures
            r == (Style { fg: None, bg: None, bold: false, underline: false }),
    {
        Style { fg: None, bg: None, bold: false, underline: false }
    }

    /// The style with another color.
    pub fn fg(self, color: Color) -> (r: Self)
        ensures
            r == (Style { fg: Some(color), ..self }),
    {
        let mut style = self;
        style.fg = Some(color);
        style
    }
}

/// Text formatting style.
#[derive(Debug, Clone, Copy, PartialEq, Eq, Structural)]
pub enum FormatStyle {
    /// Regular text.
    Regular,
    /// Heading text.
    Heading,
    /// Error text.
    Error,
    /// Success text.
    Success,
    /// Warning text.
    Warning,
    /// Info text.
    Info,
    /// Command text.
    Command,
    /// Output text.
    Output,
}

impl FormatStyle {
    /// The color of a style; none for regular text.
    pub open spec fn color(self) -> Option<Color> {
        match self {
            FormatStyle::Regular => None,
            FormatStyle::Heading => Some(Color::Yellow),
            FormatStyle::Error => Some(Color::Red),
            FormatStyle::Success => Some(Color::Green),
            FormatStyle::Warning => Some(Color::Yellow),
            FormatStyle::Info => Some(Color::Blue),
            FormatStyle::Command => Some(Color::Cyan),
            FormatStyle::Output => Some(Color::White),
        }
    }

    /// Gets the appropriate style for TUI rendering.
    pub fn to_style(self) -> (r: Style)
        ensures
            r == (Style { fg: self.color(), bg: None, bold: false, underline: false }),
    {
        match self {
            FormatStyle::Regular => Style::default(),
            FormatStyle::Heading => Style::default().fg(Color::Yellow),
            FormatStyle::Error => Style::default().fg(Color::Red),
            FormatStyle::Success => Style::default().fg(Color::Green),
            FormatStyle::Warning => Style::default().fg(Color::Yellow),
            FormatStyle::Info => Style::default().fg(Color::Blue),
            FormatStyle::Command => Style::default().fg(Color::Cyan),
            FormatStyle::Output => Style::default().fg(Color::White),
        }
    }
}

/// A line of Markdown as plain text: headings stand between empty lines, list
/// items have a bullet, and fences are empty lines.
pub open spec fn plain_line(line: Seq<char>) -> Seq<char> {
    if text::starts_with(line, "# "@) {
        "\n"@ + line.skip(2) + "\n"@
    } else if text::starts_with(line, "## "@) {
        "\n"@ + line.skip(3) + "\n"@
    } else if text::starts_with(line, "- "@) {
        "• "@ + line.skip(2) + "\n"@
    } else if text::starts_with(line, "```"@) {
        "\n"@
    } else {
        line + "\n"@
    }
}

/// Lines of Markdown as plain text.
pub open spec fn plain_lines(lines: Seq<Seq<char>>) -> Seq<char>
    decreases lines.len(),
{
    if lines.len() == 0 {
        seq![]
    } else {
        plain_lines(lines.drop_last()) + plain_line(lines.last())
    }
}

/// The text of a line behind its first `n` characters.
fn behind(line: &str, n: usize) -> (r: String)
    requires
        n <= line@.len(),
    ensures
        r@ == line@.skip(n as int),
{
    let v = text::chars_of(line);
    let r = text::string_of(&v, n, v.len());
    assert(r@ =~= line@.skip(n as int));
    r
}

/// A line of Markdown as plain text.
fn format_line(line: &str) -> (r: String)
    ensures
        r@ == plain_line(line@),
{
    proof {
        reveal_strlit("# ");
        reveal_strlit("## ");
        reveal_strlit("- ");
    }
    if text::str_starts_with(line, "# ") {
        "\n".to_owned().concat(behind(line, 2).as_str()).concat("\n")
    } else if text::str_starts_with(line, "## ") {
        "\n".to_owned().concat(behind(line, 3).as_str()).concat("\n")
    } else if text::str_starts_with(line, "- ") {
        "• ".to_owned().concat(behind(line, 2).as_str()).concat("\n")
    } else if text::str_starts_with(line, "```") {
        "\n".to_owned()
    } else {
        line.to_owned().concat("\n")
    }
}

/// Formats markdown-style text.
pub fn format_markdown(s: &str) -> (r: String)
    ensures
        r@ == plain_lines(text::lines(s@)),
{
    let lines = text::str_lines(s);
    let ghost all = text::views(lines@);
    let mut out: String = String::new();
    let mut i: usize = 0;
    assert(all.take(0) =~= seq![]);
    assert(out@ =~= plain_lines(all.take(0)));
    while i < lines.len()
        invariant
            i <= lines@.len(),
            all == text::views(lines@),
            out@ == plain_lines(all.take(i as int)),
        decreases lines@.len() - i,
    {
        proof {
            assert(all.take(i + 1).drop_last() =~= all.take(i as int));
            assert(all.take(i + 1).last() == lines@[i as int]@);
        }
        out.append(format_line(lines[i].as_str()).as_str());
        i += 1;
    }
    assert(all.take(i as int) =~= all);
    out
}

/// Lines are made plain one by one, each in its place.
pub proof fn law_lines_are_made_plain_in_turn(
    a: Seq<Seq<char>>,
    b: Seq<Seq<char>>,
    line: Seq<char>,
)
    ensures
        plain_lines(a + b) == plain_lines(a) + plain_lines(b),
        plain_lines(seq![line]) == plain_line(line),
        plain_lines(seq![]).len() == 0,
    decreases b.len(),
{
    reveal_with_fuel(plain_lines, 2);
    assert(seq![line].drop_last() =~= seq![]);
    assert(plain_lines(seq![line]) =~= plain_line(line));
    if b.len() == 0 {
        assert(a + b =~= a);
        assert(plain_lines(a) + plain_lines(b) =~= plain_lines(a));
    } else {
        law_lines_are_made_plain_in_turn(a, b.drop_last(), line);
        assert((a + b).drop_last() =~= a + b.drop_last());
        assert((a + b).last() == b.last());
        assert(plain_lines(a + b) =~= plain_lines(a) + plain_lines(b));
    }
}

/// A heading of either rank loses its mark and stands between line ends, an item has a
/// bullet in place of its dash, a fence is an empty line, and every other line stays
/// as it is.
pub proof fn law_marks_are_made_plain(rest: Seq<char>, line: Seq<char>)
    ensures
        plain_line(seq!['#', ' '] + rest) == seq!['\n'] + rest + seq!['\n'],
        plain_line(seq!['#', '#', ' '] + rest) == seq!['\n'] + rest + seq!['\n'],
        plain_line(seq!['-', ' '] + rest) == seq!['•', ' '] + rest + seq!['\n'],
        plain_line(seq!['`', '`', '`'] + rest) == seq!['\n'],
        line.len() == 0 || (line[0] != '#' && line[0] != '-' && line[0] != '`') ==> plain_line(line)
            == line.push('\n'),
        plain_line(seq!['#', '#', '#'] + rest) == (seq!['#', '#', '#'] + rest).push('\n'),
{
    reveal_strlit("# ");
    reveal_strlit("## ");
    reveal_strlit("- ");
    reveal_strlit("```");
    reveal_strlit("\n");
    reveal_strlit("• ");
    assert("# "@ =~= seq!['#', ' '] && "## "@ =~= seq!['#', '#', ' '] && "- "@ =~= seq!['-', ' ']);
    assert("```"@ =~= seq!['`', '`', '`'] && "\n"@ =~= seq!['\n'] && "• "@ =~= seq!['•', ' ']);
    lemma_begins_by_first(line);
    let one = seq!['#', ' '] + rest;
    assert(one.subrange(0, 2) =~= seq!['#', ' ']);
    assert(one.skip(2) =~= rest);
    let two = seq!['#', '#', ' '] + rest;
    assert(two[1] == '#');
    assert(two.subrange(0, 2)[1] == '#');
    assert(two.subrange(0, 3) =~= seq!['#', '#', ' ']);
    assert(two.skip(3) =~= rest);
    let item = seq!['-', ' '] + rest;
    lemma_begins_by_first(item);
    assert(item.subrange(0, 2) =~= seq!['-', ' ']);
    assert(item.skip(2) =~= rest);
    let fence = seq!['`', '`', '`'] + rest;
    lemma_begins_by_first(fence);
    assert(fence.subrange(0, 3) =~= seq!['`', '`', '`']);
    let three = seq!['#', '#', '#'] + rest;
    lemma_begins_by_first(three);
    assert(three[1] == '#' && three[2] == '#');
    assert(three.subrange(0, 2)[1] == '#');
    assert(three.subrange(0, 3)[2] == '#');
    assert(plain_line(three) =~= three.push('\n'));
    if plain_line(line) == line + "\n"@ {
        assert(line + "\n"@ =~= line.push('\n'));
    }
}

/// A line that begins with a mark begins with the first character of the mark.
proof fn lemma_begins_by_first(line: Seq<char>)
    ensures
        text::starts_with(line, "# "@) ==> line.len() > 0 && line[0] == '#',
        text::starts_with(line, "## "@) ==> line.len() > 0 && line[0] == '#',
        text::starts_with(line, "- "@) ==> line.len() > 0 && line[0] == '-',
        text::starts_with(line, "```"@) ==> line.len() > 0 && line[0] == '`',
{
    reveal_strlit("# ");
    reveal_strlit("## ");
    reveal_strlit("- ");
    reveal_strlit("```");
    if text::starts_with(line, "# "@) {
        assert(line.subrange(0, 2)[0] == '#');
    }
    if text::starts_with(line, "## "@) {
        assert(line.subrange(0, 3)[0] == '#');
    }
    if text::starts_with(line, "- "@) {
        assert(line.subrange(0, 2)[0] == '-');
    }
    if text::starts_with(line, "```"@) {
        assert(line.subrange(0, 3)[0] == '`');
    }
}

/// Each style has its color: errors are red, success is green, and regular text has
/// none.
pub proof fn law_styles_have_their_colors()
    ensures
        FormatStyle::Regular.color() is None,
        FormatStyle::Heading.color() == Some(Color::Yellow),
        FormatStyle::Error.color() == Some(Color::Red),
        FormatStyle::Success.color() == Some(Color::Green),
        FormatStyle::Warning.color() == Some(Color::Yellow),
        FormatStyle::Info.color() == Some(Color::Blue),
        FormatStyle::Command.color() == Some(Color::Cyan),
        FormatStyle::Output.color() == Some(Color::White),
{
}

} // verus!
