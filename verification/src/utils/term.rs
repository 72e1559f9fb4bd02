//! The terminal and the environment that the program runs in.

use vstd::prelude::*;
use crate::text;

verus! {

/// The shell where the environment names none.
pub const FALLBACK_SHELL: &'static str = "/bin/bash";

/// The default shell: the one that the environment names, or bash.
pub fn get_default_shell(shell: Option<&str>) -> (r: String)
    ensures
        r@ == match shell {
            Some(s) => s@,
            None => FALLBACK_SHELL@,
        },
{
    match shell {
        Some(s) => s.to_owned(),
        None => FALLBACK_SHELL.to_owned(),
    }
}

/// Whether the terminal supports ANSI colors: the output goes to a terminal,
/// and the environment names it and does not call it dumb.
pub fn supports_ansi(is_terminal: bool, term: Option<&str>) -> (r: bool)
    ensures
        r == (is_terminal && match term {
            Some(t) => t@ != "dumb"@,
            None => false,
        }),
{
    is_terminal && match term {
        Some(t) => !text::same_text(t, "dumb"),
        None => false,
    }
}

/// Whether a shell is one that the program was made for.
pub open spec fn is_supported_shell(shell: Seq<char>) -> bool {
    text::contains(shell, "fish"@) || text::contains(shell, "bash"@) || text::contains(
        shell,
        "zsh"@,
    )
}

/// The warnings about an environment.
pub open spec fn environment_warnings(
    has_api_key: bool,
    ansi: bool,
    shell: Option<&str>,
) -> Seq<Seq<char>> {
    (if has_api_key {
        seq![]
    } else {
        seq!["OPENAI_API_KEY environment variable not set. AI features will be disabled."@]
    }) + (if ansi {
        seq![]
    } else {
        seq![
            "Terminal does not appear to support ANSI escape sequences. Display may be corrupted."@,
        ]
    }) + (match shell {
        Some(s) => if is_supported_shell(s@) {
            seq![]
        } else {
            seq![
                "Running in potentially unsupported shell: "@ + s@
                    + ". Best results with fish, bash, or zsh."@,
            ]
        },
        None => seq![],
    })
}

/// Validates the environment and returns any warnings.
pub fn validate_environment(has_api_key: bool, ansi: bool, shell: Option<&str>) -> (r: Vec<String>)
    ensures
        text::views(r@) == environment_warnings(has_api_key, ansi, shell),
{
    let mut warnings: Vec<String> = Vec::new();
    if !has_api_key {
        warnings.push(
            "OPENAI_API_KEY environment variable not set. AI features will be disabled.".to_owned(),
        );
    }
    if !ansi {
        warnings.push(
            "Terminal does not appear to support ANSI escape sequences. Display may be corrupted.".to_owned(),
        );
    }
    if let Some(s) = shell {
        if !text::str_contains(s, "fish") && !text::str_contains(s, "bash") && !text::str_contains(
            s,
            "zsh",
        ) {
            warnings.push(
                "Running in potentially unsupported shell: ".to_owned().concat(s).concat(
                    ". Best results with fish, bash, or zsh.",
                ),
            );
        }
    }
    assert(text::views(warnings@) =~= environment_warnings(has_api_key, ansi, shell));
    warnings
}

/// How much is logged.
#[derive(Debug, Clone, Copy, PartialEq, Eq, Structural)]
pub enum LogLevel {
    Trace,
    Debug,
    Info,
    Warn,
    Error,
}

/// The level with a name, in capital or small letters; `Info` for names that
/// are not known.
pub open spec fn level_named(s: Seq<char>) -> LogLevel {
    let name = text::ascii_lowered(s);
    if name == "trace"@ {
        LogLevel::Trace
    } else if name == "debug"@ {
        LogLevel::Debug
    } else if name == "warn"@ {
        LogLevel::Warn
    } else if name == "error"@ {
        LogLevel::Error
    } else {
        LogLevel::Info
    }
}

/// The level with a name.
pub fn log_level(name: &str) -> (r: LogLevel)
    ensures
        r == level_named(name@),
{
    if text::lowers_to(name, "trace") {
        LogLevel::Trace
    } else if text::lowers_to(name, "debug") {
        LogLevel::Debug
    } else if text::lowers_to(name, "warn") {
        LogLevel::Warn
    } else if text::lowers_to(name, "error") {
        LogLevel::Error
    } else {
        LogLevel::Info
    }
}

/// An environment with a key, colors and a known shell, or none, gives no warning. Each
/// thing that is missing gives one of its own, in this order: the key, the colors, the
/// shell.
pub proof fn law_each_lack_is_warned_of(key: bool, ansi: bool, shell: &str)
    ensures
        environment_warnings(true, true, None).len() == 0,
        is_supported_shell(shell@) ==> environment_warnings(key, ansi, Some(shell))
            == environment_warnings(key, ansi, None),
        environment_warnings(false, true, None) == seq![
            "OPENAI_API_KEY environment variable not set. AI features will be disabled."@,
        ],
        environment_warnings(true, false, None) == seq![
            "Terminal does not appear to support ANSI escape sequences. Display may be corrupted."@,
        ],
        environment_warnings(false, false, None) == environment_warnings(false, true, None)
            + environment_warnings(true, false, None),
        !is_supported_shell(shell@) ==> environment_warnings(key, ansi, Some(shell))
            == environment_warnings(key, ansi, None).push(
            "Running in potentially unsupported shell: "@ + shell@
                + ". Best results with fish, bash, or zsh."@,
        ),
{
    let none = environment_warnings(key, ansi, None);
    let some = environment_warnings(key, ansi, Some(shell));
    if is_supported_shell(shell@) {
        assert(some =~= none);
    } else {
        assert(some =~= none.push(
            "Running in potentially unsupported shell: "@ + shell@
                + ". Best results with fish, bash, or zsh."@,
        ));
    }
    let missing = "OPENAI_API_KEY environment variable not set. AI features will be disabled."@;
    let plain =
        "Terminal does not appear to support ANSI escape sequences. Display may be corrupted."@;
    assert(environment_warnings(false, true, None) =~= seq![missing]);
    assert(environment_warnings(true, false, None) =~= seq![plain]);
    assert(environment_warnings(false, false, None) =~= seq![missing] + seq![plain]);
}

/// Fish, bash and zsh are known wherever they lie and under whatever longer name; a
/// shell without an `h` in its name is not.
pub proof fn law_known_shells(dir: Seq<char>, more: Seq<char>, shell: Seq<char>)
    ensures
        is_supported_shell(dir + "fish"@ + more),
        is_supported_shell(dir + "bash"@ + more),
        is_supported_shell(dir + "zsh"@ + more),
        !shell.contains('h') ==> !is_supported_shell(shell),
{
    reveal_strlit("fish");
    reveal_strlit("bash");
    reveal_strlit("zsh");
    let a = text::law_texts_hold_their_parts(dir, "fish"@, more, shell);
    let b = text::law_texts_hold_their_parts(dir, "bash"@, more, shell);
    let c = text::law_texts_hold_their_parts(dir, "zsh"@, more, shell);
    if text::contains(shell, "fish"@) {
        assert(shell[a + 3] == "fish"@[3]);
    }
    if text::contains(shell, "bash"@) {
        assert(shell[b + 3] == "bash"@[3]);
    }
    if text::contains(shell, "zsh"@) {
        assert(shell[c + 2] == "zsh"@[2]);
    }
}

/// A level goes by its name, in capital or small letters; what is none of the names
/// stands for `Info`.
pub proof fn law_levels_go_by_name(s: Seq<char>)
    ensures
        level_named("trace"@) == LogLevel::Trace,
        level_named("debug"@) == LogLevel::Debug,
        level_named("info"@) == LogLevel::Info,
        level_named("warn"@) == LogLevel::Warn,
        level_named("error"@) == LogLevel::Error,
        level_named(text::ascii_lowered(s)) == level_named(s),
        level_named(s) == LogLevel::Trace ==> text::ascii_lowered(s) == "trace"@,
        level_named(s) == LogLevel::Debug ==> text::ascii_lowered(s) == "debug"@,
        level_named(s) == LogLevel::Warn ==> text::ascii_lowered(s) == "warn"@,
        level_named(s) == LogLevel::Error ==> text::ascii_lowered(s) == "error"@,
{
    reveal_strlit("trace");
    reveal_strlit("debug");
    reveal_strlit("info");
    reveal_strlit("warn");
    reveal_strlit("error");
    text::law_lower_case(s, 'a');
    lemma_small_letters("trace"@);
    lemma_small_letters("debug"@);
    lemma_small_letters("info"@);
    lemma_small_letters("warn"@);
    lemma_small_letters("error"@);
    assert("trace"@[0] == 't' && "debug"@[0] == 'd' && "info"@[0] == 'i');
    assert("warn"@[0] == 'w' && "error"@[0] == 'e');
}

/// Small letters stay as they are.
proof fn lemma_small_letters(s: Seq<char>)
    requires
        forall|i: int| 0 <= i < s.len() ==> 'a' <= #[trigger] s[i] <= 'z',
    ensures
        text::ascii_lowered(s) == s,
{
    assert(text::ascii_lowered(s) =~= s);
}

} // verus!
