//! Errors as text.

use vstd::prelude::*;
use crate::text;

verus! {

/// Error kind enumeration.
#[derive(Debug, Clone, Copy, PartialEq, Eq, Structural)]
pub enum ErrorKind {
    /// Configuration error.
    Config,
    /// I/O error.
    Io,
    /// Terminal error.
    Terminal,
    /// API error.
    Api,
    /// Authentication error.
    Auth,
    /// File system error.
    FileSystem,
    /// Unknown error.
    Unknown,
}

impl ErrorKind {
    /// The name of a kind of error.
    pub open spec fn text(self) -> Seq<char> {
        match self {
            ErrorKind::Config => "Configuration error"@,
            ErrorKind::Io => "I/O error"@,
            ErrorKind::Terminal => "Terminal error"@,
            ErrorKind::Api => "API error"@,
            ErrorKind::Auth => "Authentication error"@,
            ErrorKind::FileSystem => "File system error"@,
            ErrorKind::Unknown => "Unknown error"@,
        }
    }

    /// The name of a kind of error.
    pub fn to_text(&self) -> (r: String)
        ensures
            r@ == self.text(),
    {
        match self {
            ErrorKind::Config => "Configuration error".to_owned(),
            ErrorKind::Io => "I/O error".to_owned(),
            ErrorKind::Terminal => "Terminal error".to_owned(),
            ErrorKind::Api => "API error".to_owned(),
            ErrorKind::Auth => "Authentication error".to_owned(),
            ErrorKind::FileSystem => "File system error".to_owned(),
            ErrorKind::Unknown => "Unknown error".to_owned(),
        }
    }
}

/// `n` spaces.
pub open spec fn spaces(n: nat) -> Seq<char> {
    Seq::new(n, |i: int| ' ')
}

/// The first `n` causes of an error, each on a line of its own and two spaces
/// further in than the one before.
pub open spec fn cause_lines(causes: Seq<Seq<char>>, n: nat) -> Seq<char>
    decreases n,
{
    if n == 0 {
        seq![]
    } else {
        cause_lines(causes, (n - 1) as nat) + ("\n"@ + spaces(2 * n) + "Caused by: "@ + causes[n
            - 1])
    }
}

/// Formats an error for display in the UI: its message, and its causes from
/// the nearest one on.
pub fn format_error(message: &str, causes: &Vec<String>) -> (r: String)
    ensures
        r@ == "Error: "@ + message@ + cause_lines(text::views(causes@), causes@.len()),
{
    let ghost all = text::views(causes@);
    let mut out: String = "Error: ".to_owned().concat(message);
    let ghost head = out@;
    let mut indent: String = String::new();
    let mut i: usize = 0;
    assert(out@ =~= head + cause_lines(all, 0));
    assert(indent@ =~= spaces(0));
    while i < causes.len()
        invariant
            i <= causes@.len(),
            all == text::views(causes@),
            indent@ == spaces((2 * i) as nat),
            out@ == head + cause_lines(all, i as nat),
        decreases causes@.len() - i,
    {
        let ghost before = cause_lines(all, i as nat);
        indent.push(' ');
        indent.push(' ');
        assert(indent@ =~= spaces((2 * (i + 1)) as nat));
        let line = "\n".to_owned().concat(indent.as_str()).concat("Caused by: ").concat(
            causes[i].as_str(),
        );
        out.append(line.as_str());
        proof {
            assert(all[i as int] == causes@[i as int]@);
            assert(cause_lines(all, (i + 1) as nat) == before + line@);
            assert(out@ =~= head + (before + line@));
        }
        i += 1;
    }
    out
}

/// Each cause stands on a line of its own behind those before it, two spaces further
/// in than the last one; an error without causes is told without them.
pub proof fn law_causes_follow_each_other(causes: Seq<Seq<char>>, next: Seq<char>)
    ensures
        cause_lines(seq![], 0).len() == 0,
        cause_lines(causes.push(next), causes.len() + 1) == cause_lines(causes, causes.len())
            + seq!['\n'] + spaces(2 * causes.len() + 2) + "Caused by: "@ + next,
        text::ends_with(cause_lines(causes.push(next), causes.len() + 1), next),
        spaces(causes.len()).len() == causes.len(),
        forall|i: int| 0 <= i < causes.len() ==> #[trigger] spaces(causes.len())[i] == ' ',
{
    reveal_strlit("\n");
    assert("\n"@ =~= seq!['\n']);
    let n = causes.len();
    let all = causes.push(next);
    lemma_first_causes(causes, all, n);
    assert(all[n as int] == next);
    let head = cause_lines(causes, n) + seq!['\n'] + spaces(2 * n + 2) + "Caused by: "@;
    assert(2 * (n + 1) == 2 * n + 2);
    assert(cause_lines(all, n + 1) =~= head + next);
    let i = text::law_texts_hold_their_parts(head, next, seq![], head);
}

/// The first causes are told alike, whatever follows them.
proof fn lemma_first_causes(a: Seq<Seq<char>>, b: Seq<Seq<char>>, n: nat)
    requires
        n <= a.len(),
        n <= b.len(),
        forall|i: int| 0 <= i < n ==> a[i] == b[i],
    ensures
        cause_lines(a, n) == cause_lines(b, n),
    decreases n,
{
    if n > 0 {
        lemma_first_causes(a, b, (n - 1) as nat);
        assert(a[n - 1] == b[n - 1]);
    }
}

/// Each kind of error has its name.
pub proof fn law_kinds_have_their_names()
    ensures
        ErrorKind::Config.text() == "Configuration error"@,
        ErrorKind::Io.text() == "I/O error"@,
        ErrorKind::Terminal.text() == "Terminal error"@,
        ErrorKind::Api.text() == "API error"@,
        ErrorKind::Auth.text() == "Authentication error"@,
        ErrorKind::FileSystem.text() == "File system error"@,
        ErrorKind::Unknown.text() == "Unknown error"@,
{
}

} // verus!
