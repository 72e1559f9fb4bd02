//! The assistant: the requests put to it, and what is read out of its replies.

use vstd::prelude::*;
use crate::export;
use crate::json;
use crate::json::Json;
use crate::json::JsonView;
use crate::session;
use crate::table;
use crate::text;

verus! {

/// Maximum number of retries for API calls.
pub const MAX_RETRIES: usize = 3;

/// Initial backoff time in milliseconds.
pub const INITIAL_BACKOFF_MS: u64 = 500;

/// Message history context window size.
pub const MAX_CONTEXT_MESSAGES: usize = 10;

/// Default model to use.
pub const DEFAULT_MODEL: &'static str = "gpt-4";

/// How many commands of the history are told.
pub const MAX_TOLD_COMMANDS: usize = 10;

/// What the assistant is told to be when it makes a scaffold.
pub const SCAFFOLD_PROMPT: &'static str = "You are an assistant specialized in creating project scaffolds. Generate a complete directory structure and file contents based on the user's description. For each file, include the full path and content. Format your response as JSON with the following structure: { \"files\": [ { \"path\": \"file/path.ext\", \"content\": \"file content\" } ] }";

/// What the assistant is told to be when it analyzes output.
pub const ANALYSIS_PROMPT: &'static str = "You are an assistant specialized in analyzing build and test output. Identify errors, explain their cause, and suggest fixes. Format your response in sections: ERROR SUMMARY, ROOT CAUSES, and SUGGESTED FIXES. If there are code changes, format them as diffs with clear file paths.";

/// What the assistant is told to be when it suggests commands.
pub const SUGGESTION_PROMPT: &'static str = "You are a terminal command suggestion assistant. Based on the user's partial command and command history, suggest relevant commands. For each suggestion, provide the command and a brief description of what it does. Format your response as JSON: { \"suggestions\": [ { \"command\": \"...\", \"description\": \"...\", \"is_safe\": true|false } ] }";

/// What the assistant is told to be when it completes an input.
pub const COMPLETION_PROMPT: &'static str = "You are an autocompletion assistant. Complete the user's partial input with the most likely completion. Respond with only the completion, no explanations.";

/// What the assistant is told to be when it analyzes a shell error.
pub const SHELL_ERROR_PROMPT: &'static str = "You are an assistant specialized in analyzing shell errors and providing solutions. Respond with a JSON object containing: explanation, suggestions array, and optional code_context.";

/// What the assistant is told to be when it makes a diff.
pub const DIFF_PROMPT: &'static str = "You are an assistant specialized in modifying code. Generate a unified diff that applies the requested changes to the provided code. Format your response as a proper diff with --- and +++ headers, @@ line numbers, and - or + line prefixes.";

/// Type of AI response.
#[derive(Debug, Clone, Copy, PartialEq, Eq, Structural)]
pub enum ResponseType {
    /// General text response.
    General,
    /// Code or command suggestion.
    Code,
    /// Project scaffold suggestion.
    Scaffold,
    /// Error analysis.
    ErrorAnalysis,
    /// Diff suggestion.
    Diff,
    /// Command suggestion.
    CommandSuggestion,
    /// Autocompletion.
    Autocompletion,
}

/// Response from the AI assistant.
#[derive(Debug, Clone)]
pub struct AiResponse {
    /// The actual text response.
    pub content: String,
    /// Whether this is a streaming chunk or complete response.
    pub is_chunk: bool,
    /// Type of response (general, code, error analysis, etc.).
    pub response_type: ResponseType,
    /// Token count for this response (if available).
    pub tokens: Option<usize>,
}

/// What an `AiResponse` holds.
pub struct ResponseView {
    pub content: Seq<char>,
    pub is_chunk: bool,
    pub response_type: ResponseType,
    pub tokens: Option<usize>,
}

impl View for AiResponse {
    type V = ResponseView;

    open spec fn view(&self) -> ResponseView {
        ResponseView {
            content: self.content@,
            is_chunk: self.is_chunk,
            response_type: self.response_type,
            tokens: self.tokens,
        }
    }
}

/// A complete response, of tokens that were not counted.
pub open spec fn complete(content: Seq<char>, response_type: ResponseType) -> ResponseView {
    ResponseView { content, is_chunk: false, response_type, tokens: None }
}

/// Configuration for the AI client.
#[derive(Debug, Clone)]
pub struct Config {
    /// OpenAI API key.
    pub api_key: String,
    /// Model to use.
    pub model: String,
    /// Organization ID (optional).
    pub organization_id: Option<String>,
    /// Maximum tokens to generate.
    pub max_tokens: Option<u32>,
}

impl Config {
    /// The default configuration, with the values of `OPENAI_API_KEY` and
    /// `OPENAI_ORG_ID` where they are set.
    pub fn from_env(api_key: Option<String>, organization_id: Option<String>) -> (r: Config)
        ensures
            r.api_key@ == match api_key {
                Some(k) => k@,
                None => seq![],
            },
            r.model@ == DEFAULT_MODEL@,
            r.organization_id == organization_id,
            r.max_tokens == Some(2048u32),
    {
        let api_key = match api_key {
            Some(k) => k,
            None => String::new(),
        };
        Config {
            api_key,
            model: DEFAULT_MODEL.to_owned(),
            organization_id,
            max_tokens: Some(2048),
        }
    }
}

/// Error analysis result.
#[derive(Debug, Clone)]
pub struct ErrorAnalysis {
    /// Original error message.
    pub error_message: String,
    /// Explanation of the error.
    pub explanation: String,
    /// Suggested solutions.
    pub suggestions: Vec<String>,
    /// Relevant code snippet if available.
    pub code_context: Option<String>,
}

/// What an `ErrorAnalysis` holds.
pub struct AnalysisView {
    pub error_message: Seq<char>,
    pub explanation: Seq<char>,
    pub suggestions: Seq<Seq<char>>,
    pub code_context: Option<Seq<char>>,
}

impl View for ErrorAnalysis {
    type V = AnalysisView;

    open spec fn view(&self) -> AnalysisView {
        AnalysisView {
            error_message: self.error_message@,
            explanation: self.explanation@,
            suggestions: text::views(self.suggestions@),
            code_context: session::opt_view(self.code_context),
        }
    }
}

/// Message in a conversation.
#[derive(Debug, Clone)]
pub struct ConversationMessage {
    /// Role of the sender.
    pub role: String,
    /// Content of the message.
    pub content: String,
}

impl View for ConversationMessage {
    type V = (Seq<char>, Seq<char>);

    open spec fn view(&self) -> (Seq<char>, Seq<char>) {
        (self.role@, self.content@)
    }
}

/// Who says a message of a request.
#[derive(Debug, Clone, Copy, PartialEq, Eq, Structural)]
pub enum Role {
    User,
    Assistant,
    System,
}

/// The role with a name; the user for names that are not known.
pub open spec fn role_named(name: Seq<char>) -> Role {
    if name == "assistant"@ {
        Role::Assistant
    } else if name == "system"@ {
        Role::System
    } else {
        Role::User
    }
}

/// A message of a request.
#[derive(Debug)]
pub struct PromptMessage {
    pub role: Role,
    pub content: String,
}

impl View for PromptMessage {
    type V = (Role, Seq<char>);

    open spec fn view(&self) -> (Role, Seq<char>) {
        (self.role, self.content@)
    }
}

/// What a list of messages holds.
pub open spec fn prompt_views(v: Seq<PromptMessage>) -> Seq<(Role, Seq<char>)> {
    v.map_values(|m: PromptMessage| m@)
}

/// How much a reply may be left to chance.
#[derive(Debug, Clone, Copy, PartialEq, Eq, Structural)]
pub enum Temperature {
    /// As it is configured.
    Configured,
    /// Some tenths.
    Tenths(u8),
}

/// A request to the assistant.
#[derive(Debug)]
pub struct Request {
    pub model: String,
    pub messages: Vec<PromptMessage>,
    pub temperature: Temperature,
    pub max_tokens: Option<i64>,
    pub stream: bool,
}

/// What a `Request` holds.
pub struct RequestView {
    pub model: Seq<char>,
    pub messages: Seq<(Role, Seq<char>)>,
    pub temperature: Temperature,
    pub max_tokens: Option<i64>,
    pub stream: bool,
}

impl View for Request {
    type V = RequestView;

    open spec fn view(&self) -> RequestView {
        RequestView {
            model: self.model@,
            messages: prompt_views(self.messages@),
            temperature: self.temperature,
            max_tokens: self.max_tokens,
            stream: self.stream,
        }
    }
}

/// A request of two messages: what the assistant is to be, and what the user
/// wants of it.
pub open spec fn told(
    model: Seq<char>,
    system: Seq<char>,
    user: Seq<char>,
    tenths: u8,
    max_tokens: Option<i64>,
    stream: bool,
) -> RequestView {
    RequestView {
        model,
        messages: seq![(Role::System, system), (Role::User, user)],
        temperature: Temperature::Tenths(tenths),
        max_tokens,
        stream,
    }
}

/// The token limit of a configuration, in a request.
pub open spec fn token_limit(max_tokens: Option<u32>) -> Option<i64> {
    match max_tokens {
        Some(m) => Some(m as i64),
        None => None,
    }
}

/// A message of the conversation as text.
pub open spec fn message_text(m: (Seq<char>, Seq<char>)) -> Seq<char> {
    "Role: "@ + m.0 + ", Content: "@ + m.1
}

/// A message of the conversation in a request.
pub open spec fn as_prompt(m: (Seq<char>, Seq<char>)) -> (Role, Seq<char>) {
    (role_named(m.0), message_text(m))
}

/// The last messages of a conversation, as many as are told.
pub open spec fn recent(history: Seq<ConversationMessage>) -> Seq<ConversationMessage> {
    if history.len() > MAX_CONTEXT_MESSAGES {
        history.skip(history.len() - MAX_CONTEXT_MESSAGES)
    } else {
        history
    }
}

impl ConversationMessage {
    /// The message as text.
    pub fn to_text(&self) -> (r: String)
        ensures
            r@ == message_text(self@),
    {
        "Role: ".to_owned().concat(self.role.as_str()).concat(", Content: ").concat(
            self.content.as_str(),
        )
    }

    /// The message in a request.
    pub fn to_prompt(&self) -> (r: PromptMessage)
        ensures
            r@ == as_prompt(self@),
    {
        let role = if text::same_text(self.role.as_str(), "assistant") {
            Role::Assistant
        } else if text::same_text(self.role.as_str(), "system") {
            Role::System
        } else {
            Role::User
        };
        PromptMessage { role, content: self.to_text() }
    }
}

/// A request of two messages.
fn tell(
    model: &str,
    system: &str,
    user: String,
    tenths: u8,
    max_tokens: Option<i64>,
    stream: bool,
) -> (r: Request)
    ensures
        r@ == told(model@, system@, user@, tenths, max_tokens, stream),
{
    let mut messages: Vec<PromptMessage> = Vec::new();
    messages.push(PromptMessage { role: Role::System, content: system.to_owned() });
    messages.push(PromptMessage { role: Role::User, content: user });
    assert(prompt_views(messages@) =~= seq![(Role::System, system@), (Role::User, user@)]);
    Request {
        model: model.to_owned(),
        messages,
        temperature: Temperature::Tenths(tenths),
        max_tokens,
        stream,
    }
}

/// The token limit of a configuration, in a request.
fn limit_of(max_tokens: Option<u32>) -> (r: Option<i64>)
    ensures
        r == token_limit(max_tokens),
{
    match max_tokens {
        Some(m) => Some(m as i64),
        None => None,
    }
}

/// The last `n` commands, the last one first, numbered from 1.
pub open spec fn numbered(history: Seq<Seq<char>>, n: nat) -> Seq<char>
    decreases n,
{
    if n == 0 {
        seq![]
    } else {
        numbered(history, (n - 1) as nat) + (text::decimal(n) + ". "@ + history[history.len() - n]
            + "\n"@)
    }
}

/// How many commands of a history are told.
pub open spec fn told_commands(history: Seq<Seq<char>>) -> nat {
    if history.len() > MAX_TOLD_COMMANDS {
        MAX_TOLD_COMMANDS as nat
    } else {
        history.len()
    }
}

/// What is told of the command history and the working directory.
pub open spec fn command_context(history: Seq<Seq<char>>, current_dir: Option<&str>) -> Seq<char> {
    (if history.len() == 0 {
        seq![]
    } else {
        "Recent command history:\n"@ + numbered(history, told_commands(history)) + "\n"@
    }) + (match current_dir {
        Some(dir) => "Current directory: "@ + dir@ + "\n\n"@,
        None => seq![],
    })
}

/// AI client for interacting with the OpenAI API.
#[derive(Debug, Clone)]
pub struct AiClient {
    /// Configuration.
    pub config: Config,
}

impl AiClient {
    /// Creates a new AI client.
    pub fn new(config: Config) -> (r: AiClient)
        ensures
            r.config == config,
    {
        AiClient { config }
    }

    /// Creates a new AI client with the default configuration, from the values
    /// of `OPENAI_API_KEY` and `OPENAI_ORG_ID` where they are set.
    pub fn new_with_defaults(api_key: Option<String>, organization_id: Option<String>) -> (r:
        AiClient)
        ensures
            r.config.api_key@ == match api_key {
                Some(k) => k@,
                None => seq![],
            },
            r.config.model@ == DEFAULT_MODEL@,
            r.config.organization_id == organization_id,
            r.config.max_tokens == Some(2048u32),
    {
        AiClient::new(Config::from_env(api_key, organization_id))
    }

    /// The request for a user query: the last messages of the conversation,
    /// and the query; with it the query itself.
    pub fn process_query(&self, query: &str, conversation_history: &Vec<ConversationMessage>) -> (r:
        (String, Request))
        ensures
            r.0@ == query@,
            r.1@ == (RequestView {
                model: self.config.model@,
                messages: recent(conversation_history@).map_values(
                    |m: ConversationMessage| as_prompt(m@),
                ).push((Role::User, query@)),
                temperature: Temperature::Configured,
                max_tokens: token_limit(self.config.max_tokens),
                stream: true,
            }),
    {
        let ghost told = recent(conversation_history@);
        let ghost f = |m: ConversationMessage| as_prompt(m@);
        let n: usize = conversation_history.len();
        let first: usize = if n > MAX_CONTEXT_MESSAGES {
            n - MAX_CONTEXT_MESSAGES
        } else {
            0
        };
        let mut messages: Vec<PromptMessage> = Vec::new();
        let mut i: usize = first;
        assert(prompt_views(messages@) =~= told.take(0).map_values(f));
        while i < n
            invariant
                n == conversation_history@.len(),
                first <= i <= n,
                first == n - told.len(),
                told == recent(conversation_history@),
                f == (|m: ConversationMessage| as_prompt(m@)),
                prompt_views(messages@) == told.take(i - first).map_values(f),
            decreases n - i,
        {
            let ghost before = prompt_views(messages@);
            messages.push(conversation_history[i].to_prompt());
            proof {
                assert(told[i - first] == conversation_history@[i as int]);
                assert(prompt_views(messages@) =~= before.push(f(told[i - first])));
                assert(told.take(i - first + 1).map_values(f) =~= before.push(f(told[i - first])));
            }
            i += 1;
        }
        assert(told.take(i - first) =~= told);
        let ghost before = prompt_views(messages@);
        messages.push(PromptMessage { role: Role::User, content: query.to_owned() });
        assert(prompt_views(messages@) =~= before.push((Role::User, query@)));
        let request = Request {
            model: self.config.model.clone(),
            messages,
            temperature: Temperature::Configured,
            max_tokens: limit_of(self.config.max_tokens),
            stream: true,
        };
        (query.to_owned(), request)
    }

    /// The request for a project scaffold from a description, with the
    /// description itself.
    pub fn generate_scaffold(&self, description: &str) -> (r: (String, Request))
        ensures
            r.0@ == description@,
            r.1@ == told(
                self.config.model@,
                SCAFFOLD_PROMPT@,
                description@,
                3,
                Some(4000i64),
                true,
            ),
    {
        let request = tell(
            self.config.model.as_str(),
            SCAFFOLD_PROMPT,
            description.to_owned(),
            3,
            Some(4000),
            true,
        );
        (description.to_owned(), request)
    }

    /// The request for an analysis of build or test output, with its title.
    pub fn analyze_output(&self, output: &str, context: &str) -> (r: (String, Request))
        ensures
            r.0@ == "Analysis"@,
            r.1@ == told(
                self.config.model@,
                ANALYSIS_PROMPT@,
                "Here is the output to analyze:\n\n```\n"@ + output@
                    + "\n```\n\nAdditional context:\n"@ + context@,
                5,
                token_limit(self.config.max_tokens),
                true,
            ),
    {
        let prompt = "Here is the output to analyze:\n\n```\n".to_owned().concat(output).concat(
            "\n```\n\nAdditional context:\n",
        ).concat(context);
        let request = tell(
            self.config.model.as_str(),
            ANALYSIS_PROMPT,
            prompt,
            5,
            limit_of(self.config.max_tokens),
            true,
        );
        ("Analysis".to_owned(), request)
    }

    /// The request for command suggestions from a partial command, the
    /// history and the working directory, with its title.
    pub fn suggest_commands(
        &self,
        partial_command: &str,
        command_history: &Vec<String>,
        current_dir: Option<&str>,
    ) -> (r: (String, Request))
        ensures
            r.0@ == "Command Suggestions"@,
            r.1@ == told(
                self.config.model@,
                SUGGESTION_PROMPT@,
                command_context(text::views(command_history@), current_dir)
                    + "Partial command: '"@ + partial_command@
                    + "'\n\nSuggest commands to complete or replace this input with more appropriate commands."@,
                4,
                Some(1000i64),
                true,
            ),
    {
        let ghost all = text::views(command_history@);
        let mut context: String = String::new();
        let n: usize = command_history.len();
        if n > 0 {
            context.append("Recent command history:\n");
            let count: usize = if n > MAX_TOLD_COMMANDS {
                MAX_TOLD_COMMANDS
            } else {
                n
            };
            let mut i: usize = 0;
            assert(context@ =~= "Recent command history:\n"@ + numbered(all, 0));
            while i < count
                invariant
                    n == command_history@.len(),
                    all == text::views(command_history@),
                    i <= count <= n,
                    context@ == "Recent command history:\n"@ + numbered(all, i as nat),
                decreases count - i,
            {
                let ghost before = numbered(all, i as nat);
                let line = text::decimal_of((i + 1) as u64).concat(". ").concat(
                    command_history[n - 1 - i].as_str(),
                ).concat("\n");
                context.append(line.as_str());
                proof {
                    assert(all[all.len() - (i + 1)] == command_history@[n - 1 - i]@);
                    assert(numbered(all, (i + 1) as nat) == before + line@);
                    assert(context@ =~= "Recent command history:\n"@ + numbered(
                        all,
                        (i + 1) as nat,
                    ));
                }
                i += 1;
            }
            context.append("\n");
        }
        let ghost head = context@;
        if let Some(dir) = current_dir {
            let line = "Current directory: ".to_owned().concat(dir).concat("\n\n");
            context.append(line.as_str());
            assert(context@ == head + ("Current directory: "@ + dir@ + "\n\n"@));
        }
        assert(context@ =~= command_context(all, current_dir));
        let prompt = context.concat("Partial command: '").concat(partial_command).concat(
            "'\n\nSuggest commands to complete or replace this input with more appropriate commands.",
        );
        let request = tell(
            self.config.model.as_str(),
            SUGGESTION_PROMPT,
            prompt,
            4,
            Some(1000),
            true,
        );
        ("Command Suggestions".to_owned(), request)
    }

    /// The request for the completion of a partial input.
    pub fn autocomplete(&self, partial_input: &str, context: &str) -> (r: Request)
        ensures
            r@ == told(
                self.config.model@,
                COMPLETION_PROMPT@,
                "Context: "@ + context@ + "\n\nPartial input: "@ + partial_input@
                    + "\n\nComplete this input:"@,
                2,
                Some(100i64),
                false,
            ),
    {
        let prompt = "Context: ".to_owned().concat(context).concat("\n\nPartial input: ").concat(
            partial_input,
        ).concat("\n\nComplete this input:");
        tell(self.config.model.as_str(), COMPLETION_PROMPT, prompt, 2, Some(100), false)
    }

    /// The request for an analysis of a shell error.
    pub fn analyze_shell_error(
        &self,
        error_message: &str,
        command: &str,
        directory: Option<&str>,
    ) -> (r: Request)
        ensures
            r@ == told(
                self.config.model@,
                SHELL_ERROR_PROMPT@,
                "Command: "@ + command@ + "\nError: "@ + error_message@ + "\n"@ + (
                match directory {
                    Some(d) => "Directory: "@ + d@,
                    None => seq![],
                }),
                3,
                Some(1000i64),
                false,
            ),
    {
        let place = match directory {
            Some(d) => "Directory: ".to_owned().concat(d),
            None => String::new(),
        };
        let prompt = "Command: ".to_owned().concat(command).concat("\nError: ").concat(
            error_message,
        ).concat("\n").concat(place.as_str());
        tell(self.config.model.as_str(), SHELL_ERROR_PROMPT, prompt, 3, Some(1000), false)
    }

    /// The request for a diff from code and the changes to make, with its
    /// title.
    pub fn generate_diff(&self, original: &str, description: &str) -> (r: (String, Request))
        ensures
            r.0@ == "Diff"@,
            r.1@ == told(
                self.config.model@,
                DIFF_PROMPT@,
                "Original code:\n\n```\n"@ + original@ + "\n```\n\nChanges to make:\n"@
                    + description@,
                3,
                token_limit(self.config.max_tokens),
                true,
            ),
    {
        let prompt = "Original code:\n\n```\n".to_owned().concat(original).concat(
            "\n```\n\nChanges to make:\n",
        ).concat(description);
        let request = tell(
            self.config.model.as_str(),
            DIFF_PROMPT,
            prompt,
            3,
            limit_of(self.config.max_tokens),
            true,
        );
        ("Diff".to_owned(), request)
    }
}

// What is read out of replies.

/// The kind of reply that a text is.
pub open spec fn response_type_of(s: Seq<char>) -> ResponseType {
    if text::contains(s, "`"@) {
        ResponseType::Code
    } else if (text::contains(s, "---"@) && text::contains(s, "+++"@)) || text::contains(s, "@@ "@)
        || (text::contains(s, "-"@) && text::contains(s, "+"@) && text::contains(s, "diff"@)) {
        ResponseType::Diff
    } else if text::contains(s, "\"files\""@) && (text::contains(s, "\"path\""@) || text::contains(
        s,
        "\"content\""@,
    )) {
        ResponseType::Scaffold
    } else if (text::contains(s, "ERROR"@) || text::contains(s, "Error"@) || text::contains(
        s,
        "error"@,
    )) && (text::contains(s, "CAUSES"@) || text::contains(s, "FIXES"@) || text::contains(
        s,
        "SOLUTION"@,
    )) {
        ResponseType::ErrorAnalysis
    } else {
        ResponseType::General
    }
}

/// Whether a line opens or closes a block of code.
pub open spec fn is_fence(line: Seq<char>) -> bool {
    text::starts_with(text::trim(line), "```"@)
}

/// The blocks of code in some lines, where `open` is the block that the lines
/// go on with, if any. A block that is not closed counts if it holds anything.
pub open spec fn blocks(lines: Seq<Seq<char>>, open: Option<Seq<char>>) -> Seq<Seq<char>>
    decreases lines.len(),
{
    if lines.len() == 0 {
        match open {
            Some(b) => if b.len() > 0 {
                seq![b]
            } else {
                seq![]
            },
            None => seq![],
        }
    } else if is_fence(lines.first()) {
        match open {
            Some(b) => seq![b] + blocks(lines.drop_first(), None),
            None => blocks(lines.drop_first(), Some(seq![])),
        }
    } else {
        match open {
            Some(b) => blocks(lines.drop_first(), Some(b + lines.first() + "\n"@)),
            None => blocks(lines.drop_first(), None),
        }
    }
}

/// The blocks of code in a text.
pub open spec fn code_blocks(s: Seq<char>) -> Seq<Seq<char>> {
    blocks(text::lines(s), None)
}

/// The command on a line, if there is one: behind a prompt, or behind `Run:`
/// or `Execute:`, whole.
pub open spec fn line_command(line: Seq<char>) -> Option<Seq<char>> {
    let t = text::trim(line);
    if (text::starts_with(t, "$"@) || text::starts_with(t, ">"@)) && text::byte_len(t) > 2 {
        Some(text::trim(t.skip(1)))
    } else if text::starts_with(t, "Run:"@) || text::starts_with(t, "Execute:"@) {
        Some(text::trim(t.skip(text::find_char(t, ':') + 1)))
    } else {
        None
    }
}

/// The commands on some lines.
pub open spec fn line_commands(lines: Seq<Seq<char>>) -> Seq<Seq<char>>
    decreases lines.len(),
{
    if lines.len() == 0 {
        seq![]
    } else {
        match line_command(lines.last()) {
            Some(c) => line_commands(lines.drop_last()).push(c),
            None => line_commands(lines.drop_last()),
        }
    }
}

/// A block of code without the end of its last line.
pub open spec fn block_body(b: Seq<char>) -> Seq<char> {
    if b.len() > 0 && b.last() == '\n' {
        b.drop_last()
    } else {
        b
    }
}

/// Whether a block of code is taken for a command: it is one line that neither
/// assigns nor opens a brace.
pub open spec fn is_command_block(b: Seq<char>) -> bool {
    let line = block_body(b);
    line.len() > 0 && !text::contains(line, "\n"@) && !text::contains(line, "="@)
        && !text::contains(line, "{"@)
}

/// The blocks of code that are taken for commands.
pub open spec fn block_commands(found: Seq<Seq<char>>) -> Seq<Seq<char>>
    decreases found.len(),
{
    if found.len() == 0 {
        seq![]
    } else if is_command_block(found.last()) {
        block_commands(found.drop_last()).push(text::trim(block_body(found.last())))
    } else {
        block_commands(found.drop_last())
    }
}

/// Where the JSON object in a reply begins: at the first brace, or at the
/// start.
pub open spec fn json_start(s: Seq<char>) -> int {
    if s.contains('{') {
        text::find_char(s, '{')
    } else {
        0
    }
}

/// Where the JSON object in a reply ends: behind the last brace, or at the
/// end.
pub open spec fn json_end(s: Seq<char>) -> int {
    if s.contains('}') {
        text::find_last_char(s, '}') + 1
    } else {
        s.len() as int
    }
}

/// Whether a reply ends its JSON object no earlier than it begins it.
pub open spec fn has_json_span(s: Seq<char>) -> bool {
    json_start(s) <= json_end(s)
}

/// The JSON object in a reply.
pub open spec fn json_span(s: Seq<char>) -> Seq<char> {
    s.subrange(json_start(s), json_end(s))
}

/// The file that an item of a scaffold stands for.
pub open spec fn scaffold_file(item: JsonView) -> Option<(Seq<char>, Seq<char>)> {
    match (json::text_of(json::member(item, "path"@)), json::text_of(
        json::member(item, "content"@),
    )) {
        (Some(path), Some(content)) => Some((path, content)),
        _ => None,
    }
}

/// The files that the items of a scaffold stand for.
pub open spec fn item_files(items: Seq<JsonView>) -> Seq<(Seq<char>, Seq<char>)>
    decreases items.len(),
{
    if items.len() == 0 {
        seq![]
    } else {
        match scaffold_file(items.last()) {
            Some(f) => item_files(items.drop_last()).push(f),
            None => item_files(items.drop_last()),
        }
    }
}

/// The files of a scaffold.
pub open spec fn scaffold_files(doc: JsonView) -> Seq<(Seq<char>, Seq<char>)> {
    match json::items_of(json::member(doc, "files"@)) {
        Some(items) => item_files(items),
        None => seq![],
    }
}

/// The texts among some values.
pub open spec fn texts_among(items: Seq<JsonView>) -> Seq<Seq<char>>
    decreases items.len(),
{
    if items.len() == 0 {
        seq![]
    } else {
        match json::text_of(Some(items.last())) {
            Some(t) => texts_among(items.drop_last()).push(t),
            None => texts_among(items.drop_last()),
        }
    }
}

/// The analysis that a JSON reply gives.
pub open spec fn analysis_in(error_message: Seq<char>, doc: JsonView) -> AnalysisView {
    AnalysisView {
        error_message,
        explanation: match json::text_of(json::member(doc, "explanation"@)) {
            Some(t) => t,
            None => "No explanation provided"@,
        },
        suggestions: match json::items_of(json::member(doc, "suggestions"@)) {
            Some(items) => texts_among(items),
            None => seq![],
        },
        code_context: json::text_of(json::member(doc, "code_context"@)),
    }
}

/// The analysis that a reply gives, where `doc` is the JSON object in it.
pub open spec fn analysis_of(
    error_message: Seq<char>,
    content: Seq<char>,
    doc: Option<JsonView>,
) -> AnalysisView {
    match doc {
        Some(d) => analysis_in(error_message, d),
        None => AnalysisView {
            error_message,
            explanation: content,
            suggestions: seq![],
            code_context: None,
        },
    }
}

/// The analysis where there is no reply.
pub open spec fn no_analysis(error_message: Seq<char>) -> AnalysisView {
    AnalysisView {
        error_message,
        explanation: "Could not parse AI response."@,
        suggestions: seq!["Try a different command."@],
        code_context: None,
    }
}

/// The completion in a reply: without the input that it may repeat.
pub open spec fn completion_of(partial_input: Seq<char>, content: Seq<char>) -> Seq<char> {
    let completion = text::trim(content);
    if text::starts_with(completion, partial_input) {
        text::trim(completion.skip(partial_input.len() as int))
    } else {
        completion
    }
}

/// A text that is not a scaffold.
#[derive(Debug, Clone, Copy, PartialEq, Eq, Structural)]
pub struct InvalidScaffold;

impl InvalidScaffold {
    /// The message for the error.
    pub fn message(&self) -> (r: String)
        ensures
            r@ == "Failed to parse scaffold JSON"@,
    {
        "Failed to parse scaffold JSON".to_owned()
    }
}

/// Finds where the JSON object in a reply begins and ends.
fn find_json_span(v: &Vec<char>) -> (r: (usize, usize))
    ensures
        r.0 == json_start(v@),
        r.1 == json_end(v@),
        r.0 <= v@.len(),
        r.1 <= v@.len(),
{
    proof {
        text::lemma_find_char(v@, '{');
        text::lemma_find_last_char(v@, '}');
        assert(v@.skip(0) =~= v@);
    }
    let open: usize = text::find_char_from(v, 0, '{');
    let start: usize = if open < v.len() {
        open
    } else {
        0
    };
    let end: usize = match text::rfind_char(v, '}') {
        Some(k) => {
            assert(v@.contains(v@[k as int]));
            k + 1
        },
        None => v.len(),
    };
    (start, end)
}

impl AiClient {
    /// Determines the type of response based on content.
    pub fn determine_response_type(content: &str) -> (r: ResponseType)
        ensures
            r == response_type_of(content@),
    {
        if text::str_contains(content, "`") {
            return ResponseType::Code;
        }
        if (text::str_contains(content, "---") && text::str_contains(content, "+++"))
            || text::str_contains(content, "@@ ") || (text::str_contains(content, "-")
            && text::str_contains(content, "+") && text::str_contains(content, "diff")) {
            return ResponseType::Diff;
        }
        if text::str_contains(content, "\"files\"") && (text::str_contains(content, "\"path\"")
            || text::str_contains(content, "\"content\"")) {
            return ResponseType::Scaffold;
        }
        if (text::str_contains(content, "ERROR") || text::str_contains(content, "Error")
            || text::str_contains(content, "error")) && (text::str_contains(content, "CAUSES")
            || text::str_contains(content, "FIXES") || text::str_contains(content, "SOLUTION")) {
            return ResponseType::ErrorAnalysis;
        }
        ResponseType::General
    }

    /// Extracts code blocks from a response.
    pub fn extract_code_blocks(content: &str) -> (r: Vec<String>)
        ensures
            text::views(r@) == code_blocks(content@),
    {
        let lines = text::str_lines(content);
        let ghost all = text::views(lines@);
        let mut found: Vec<String> = Vec::new();
        let mut in_block: bool = false;
        let mut current: String = String::new();
        let mut i: usize = 0;
        proof {
            assert(all.skip(0) =~= all);
            assert(text::views(found@) + blocks(all.skip(0), None) =~= code_blocks(content@));
        }
        while i < lines.len()
            invariant
                i <= lines@.len(),
                all == text::views(lines@),
                !in_block ==> current@.len() == 0,
                text::views(found@) + blocks(
                    all.skip(i as int),
                    if in_block {
                        Some(current@)
                    } else {
                        None
                    },
                ) == code_blocks(content@),
            decreases lines@.len() - i,
        {
            let line = lines[i].as_str();
            let ghost before = text::views(found@);
            proof {
                assert(all.skip(i as int).first() == line@);
                assert(all.skip(i as int).drop_first() =~= all.skip(i + 1));
            }
            let trimmed = text::str_trim(line);
            if text::str_starts_with(trimmed.as_str(), "```") {
                if in_block {
                    let ghost b = current@;
                    found.push(current);
                    current = String::new();
                    in_block = false;
                    proof {
                        assert(text::views(found@) =~= before.push(b));
                        assert(before + (seq![b] + blocks(all.skip(i + 1), None)) =~= before.push(b)
                            + blocks(all.skip(i + 1), None));
                    }
                } else {
                    in_block = true;
                    assert(current@ =~= seq![]);
                }
            } else if in_block {
                current.append(line);
                current.append("\n");
            }
            i += 1;
        }
        assert(all.skip(i as int).len() == 0);
        let ghost before = text::views(found@);
        if in_block && !current.as_str().is_empty() {
            let ghost b = current@;
            found.push(current);
            assert(text::views(found@) =~= before.push(b));
            assert(before + seq![b] =~= before.push(b));
        } else {
            assert(before + seq![] =~= before);
        }
        found
    }

    /// Whether the JSON object in a reply ends no earlier than it begins.
    pub fn holds_json_span(content: &str) -> (r: bool)
        ensures
            r == has_json_span(content@),
    {
        let (start, end) = find_json_span(&text::chars_of(content));
        start <= end
    }

    /// The files of a scaffold.
    pub fn files_in(doc: &Json) -> (r: Vec<(String, String)>)
        ensures
            table::entries(r@) == scaffold_files(doc@),
    {
        let mut files: Vec<(String, String)> = Vec::new();
        assert(table::entries(files@) =~= seq![]);
        if let Some(member) = doc.get("files") {
            if let Some(items) = member.as_array() {
                let ghost all = json::json_views(items@);
                let mut i: usize = 0;
                assert(all.take(0) =~= seq![]);
                while i < items.len()
                    invariant
                        i <= items@.len(),
                        all == json::json_views(items@),
                        table::entries(files@) == item_files(all.take(i as int)),
                    decreases items@.len() - i,
                {
                    let ghost before = table::entries(files@);
                    proof {
                        assert(all.take(i + 1).drop_last() =~= all.take(i as int));
                        assert(all.take(i + 1).last() == items@[i as int]@);
                    }
                    if let Some(path) = items[i].text_under("path") {
                        if let Some(content) = items[i].text_under("content") {
                            let ghost f = (path@, content@);
                            files.push((path, content));
                            assert(table::entries(files@) =~= before.push(f));
                        }
                    }
                    i += 1;
                }
                assert(all.take(i as int) =~= all);
            }
        }
        files
    }

    /// Parses scaffold data from a JSON response: paths and contents.
    pub fn parse_scaffold_data(json_str: &str) -> (r: Result<
        Vec<(String, String)>,
        InvalidScaffold,
    >)
        requires
            has_json_span(json_str@),
        ensures
            match r {
                Ok(files) => match json::json_document(json_span(json_str@)) {
                    Some(doc) => table::entries(files@) == scaffold_files(doc),
                    None => false,
                },
                Err(_) => json::json_document(json_span(json_str@)) is None,
            },
    {
        let v = text::chars_of(json_str);
        let (start, end) = find_json_span(&v);
        let span = text::string_of(&v, start, end);
        match json::parse_json(span.as_str()) {
            Some(doc) => Ok(Self::files_in(&doc)),
            None => Err(InvalidScaffold),
        }
    }

    /// Extracts commands from an AI response.
    pub fn extract_commands(content: &str) -> (r: Vec<String>)
        ensures
            text::views(r@) == line_commands(text::lines(content@)) + block_commands(
                code_blocks(content@),
            ),
    {
        let lines = text::str_lines(content);
        let ghost all = text::views(lines@);
        let mut commands: Vec<String> = Vec::new();
        let mut i: usize = 0;
        assert(all.take(0) =~= seq![]);
        assert(text::views(commands@) =~= line_commands(all.take(0)));
        while i < lines.len()
            invariant
                i <= lines@.len(),
                all == text::views(lines@),
                text::views(commands@) == line_commands(all.take(i as int)),
            decreases lines@.len() - i,
        {
            let ghost before = text::views(commands@);
            proof {
                assert(all.take(i + 1).drop_last() =~= all.take(i as int));
                assert(all.take(i + 1).last() == lines@[i as int]@);
            }
            if let Some(c) = Self::command_on(lines[i].as_str()) {
                let ghost t = c@;
                commands.push(c);
                assert(text::views(commands@) =~= before.push(t));
            }
            i += 1;
        }
        assert(all.take(i as int) =~= all);
        let found = Self::extract_code_blocks(content);
        let ghost head = text::views(commands@);
        let ghost every = text::views(found@);
        let mut k: usize = 0;
        assert(every.take(0) =~= seq![]);
        assert(head + block_commands(every.take(0)) =~= head);
        while k < found.len()
            invariant
                k <= found@.len(),
                every == text::views(found@),
                text::views(commands@) == head + block_commands(every.take(k as int)),
            decreases found@.len() - k,
        {
            let ghost before = text::views(commands@);
            proof {
                assert(every.take(k + 1).drop_last() =~= every.take(k as int));
                assert(every.take(k + 1).last() == found@[k as int]@);
            }
            let body = Self::body_of(found[k].as_str());
            let line = body.as_str();
            if !line.is_empty() && !text::str_contains(line, "\n") && !text::str_contains(line, "=")
                && !text::str_contains(line, "{") {
                let c = text::str_trim(line);
                let ghost t = c@;
                commands.push(c);
                assert(text::views(commands@) =~= before.push(t));
                assert(before.push(t) =~= head + block_commands(every.take(k as int)).push(t));
            }
            k += 1;
        }
        assert(every.take(k as int) =~= every);
        commands
    }

    /// A block of code without the end of its last line.
    fn body_of(block: &str) -> (r: String)
        ensures
            r@ == block_body(block@),
    {
        let v = text::chars_of(block);
        if v.len() > 0 && v[v.len() - 1] == '\n' {
            let r = text::string_of(&v, 0, v.len() - 1);
            assert(r@ =~= block@.drop_last());
            r
        } else {
            block.to_owned()
        }
    }

    /// The command on a line, if there is one.
    fn command_on(line: &str) -> (r: Option<String>)
        ensures
            match r {
                Some(c) => line_command(line@) == Some(c@),
                None => line_command(line@) is None,
            },
    {
        let trimmed = text::str_trim(line);
        let v = text::chars_of(trimmed.as_str());
        proof {
            reveal_strlit("$");
            reveal_strlit(">");
        }
        if (text::str_starts_with(trimmed.as_str(), "$") || text::str_starts_with(
            trimmed.as_str(),
            ">",
        )) && text::bytes_of_chars(&v) > 2 {
            let rest = text::string_of(&v, 1, v.len());
            assert(rest@ =~= trimmed@.skip(1));
            return Some(text::str_trim(rest.as_str()));
        }
        let run = text::str_starts_with(trimmed.as_str(), "Run:");
        if run || text::str_starts_with(trimmed.as_str(), "Execute:") {
            proof {
                reveal_strlit("Run:");
                reveal_strlit("Execute:");
                let pat = if run {
                    "Run:"@
                } else {
                    "Execute:"@
                };
                let k = pat.len() - 1;
                assert(pat[k] == ':');
                assert(trimmed@.subrange(0, pat.len() as int)[k] == trimmed@[k]);
                assert(v@.skip(0) =~= v@);
            }
            let colon = text::find_char_from(&v, 0, ':');
            assert(colon < v@.len());
            let rest = text::string_of(&v, colon + 1, v.len());
            assert(rest@ =~= trimmed@.skip(colon + 1));
            return Some(text::str_trim(rest.as_str()));
        }
        None
    }

    /// The completion in a reply to `autocomplete`: without the input that it
    /// may repeat, and empty where there is no reply.
    pub fn completion(partial_input: &str, content: Option<&str>) -> (r: String)
        ensures
            r@ == match content {
                Some(c) => completion_of(partial_input@, c@),
                None => seq![],
            },
    {
        match content {
            Some(c) => {
                let completion = text::str_trim(c);
                if text::str_starts_with(completion.as_str(), partial_input) {
                    let v = text::chars_of(completion.as_str());
                    let p = text::chars_of(partial_input);
                    let rest = text::string_of(&v, p.len(), v.len());
                    assert(rest@ =~= completion@.skip(partial_input@.len() as int));
                    text::str_trim(rest.as_str())
                } else {
                    completion
                }
            },
            None => String::new(),
        }
    }

    /// The analysis that a JSON reply gives.
    pub fn analysis_from(error_message: &str, doc: &Json) -> (r: ErrorAnalysis)
        ensures
            r@ == analysis_in(error_message@, doc@),
    {
        let explanation = match doc.text_under("explanation") {
            Some(t) => t,
            None => "No explanation provided".to_owned(),
        };
        let mut suggestions: Vec<String> = Vec::new();
        assert(text::views(suggestions@) =~= seq![]);
        if let Some(member) = doc.get("suggestions") {
            if let Some(items) = member.as_array() {
                let ghost all = json::json_views(items@);
                let mut i: usize = 0;
                assert(all.take(0) =~= seq![]);
                while i < items.len()
                    invariant
                        i <= items@.len(),
                        all == json::json_views(items@),
                        text::views(suggestions@) == texts_among(all.take(i as int)),
                    decreases items@.len() - i,
                {
                    let ghost before = text::views(suggestions@);
                    proof {
                        assert(all.take(i + 1).drop_last() =~= all.take(i as int));
                        assert(all.take(i + 1).last() == items@[i as int]@);
                    }
                    if let Some(t) = items[i].as_text() {
                        suggestions.push(t.clone());
                        assert(text::views(suggestions@) =~= before.push(t@));
                    }
                    i += 1;
                }
                assert(all.take(i as int) =~= all);
            }
        }
        let code_context = doc.text_under("code_context");
        ErrorAnalysis {
            error_message: error_message.to_owned(),
            explanation,
            suggestions,
            code_context,
        }
    }

    /// The analysis that a reply to `analyze_shell_error` gives: the JSON
    /// object in it, or its text where there is none, or a fallback where
    /// there is no reply.
    pub fn read_analysis(error_message: &str, content: Option<&str>) -> (r: ErrorAnalysis)
        requires
            match content {
                Some(c) => has_json_span(c@),
                None => true,
            },
        ensures
            r@ == match content {
                Some(c) => analysis_of(
                    error_message@,
                    c@,
                    json::json_document(json_span(c@)),
                ),
                None => no_analysis(error_message@),
            },
    {
        match content {
            Some(c) => {
                let v = text::chars_of(c);
                let (start, end) = find_json_span(&v);
                let span = text::string_of(&v, start, end);
                match json::parse_json(span.as_str()) {
                    Some(doc) => Self::analysis_from(error_message, &doc),
                    None => {
                        let r = ErrorAnalysis {
                            error_message: error_message.to_owned(),
                            explanation: c.to_owned(),
                            suggestions: Vec::new(),
                            code_context: None,
                        };
                        assert(r@.suggestions =~= seq![]);
                        r
                    },
                }
            },
            None => {
                let mut suggestions: Vec<String> = Vec::new();
                suggestions.push("Try a different command.".to_owned());
                assert(text::views(suggestions@) =~= seq!["Try a different command."@]);
                ErrorAnalysis {
                    error_message: error_message.to_owned(),
                    explanation: "Could not parse AI response.".to_owned(),
                    suggestions,
                    code_context: None,
                }
            },
        }
    }

    /// Formats an error message for display.
    pub fn format_error(error: &str) -> (r: String)
        ensures
            r@ == "⚠️ AI Error: "@ + error@,
    {
        "⚠️ AI Error: ".to_owned().concat(error)
    }

    /// Checks if the OpenAI API key, as the environment has it, is configured.
    pub fn is_api_key_configured(key: Option<&str>) -> (r: bool)
        ensures
            r == match key {
                Some(k) => k@.len() > 0,
                None => false,
            },
    {
        match key {
            Some(k) => !k.is_empty(),
            None => false,
        }
    }
}

// Asking again.

/// The milliseconds to wait after `n` earlier waits.
pub open spec fn backoff_after(n: nat) -> nat
    decreases n,
{
    if n == 0 {
        INITIAL_BACKOFF_MS as nat
    } else {
        2 * backoff_after((n - 1) as nat)
    }
}

/// What to do after a reply.
#[derive(Debug)]
pub enum RetryStep {
    /// Stop, and pass the response on if there is one.
    Done(Option<AiResponse>),
    /// Wait some milliseconds and ask again.
    Wait(u64),
    /// Stop: there were too many empty replies.
    GiveUp,
}

/// How often a request was answered with nothing.
#[derive(Debug)]
pub struct Retry {
    retries: usize,
    backoff: u64,
}

impl View for Retry {
    type V = nat;

    closed spec fn view(&self) -> nat {
        self.retries as nat
    }
}

impl Retry {
    #[verifier::type_invariant]
    spec fn in_step(self) -> bool {
        self.retries <= MAX_RETRIES && self.backoff == backoff_after(self.retries as nat)
    }

    /// Before the first reply.
    pub fn new() -> (r: Retry)
        ensures
            r@ == 0,
    {
        Retry { retries: 0, backoff: INITIAL_BACKOFF_MS }
    }

    /// What to do after a reply: `reply` is its first choice, if it has one,
    /// and the text of that, if there is one.
    pub fn next(&mut self, reply: Option<Option<String>>) -> (r: RetryStep)
        ensures
            old(self)@ <= MAX_RETRIES,
            match (reply, r) {
                (Some(Some(c)), RetryStep::Done(Some(response))) => final(self)@ == old(self)@
                    && response@ == complete(c@, response_type_of(c@)),
                (Some(None), RetryStep::Done(None)) => final(self)@ == old(self)@,
                (None, RetryStep::Wait(ms)) => {
                    &&& old(self)@ < MAX_RETRIES
                    &&& ms == backoff_after(old(self)@)
                    &&& final(self)@ == old(self)@ + 1
                },
                (None, RetryStep::GiveUp) => old(self)@ == MAX_RETRIES && final(self)@
                    == old(self)@,
                _ => false,
            },
    {
        proof {
            use_type_invariant(&*self);
        }
        match reply {
            Some(Some(content)) => {
                let response_type = AiClient::determine_response_type(content.as_str());
                RetryStep::Done(
                    Some(AiResponse { content, is_chunk: false, response_type, tokens: None }),
                )
            },
            Some(None) => RetryStep::Done(None),
            None => {
                if self.retries >= MAX_RETRIES {
                    return RetryStep::GiveUp;
                }
                let wait: u64 = self.backoff;
                let n: usize = self.retries;
                assert(backoff_after(n as nat) <= 2000) by {
                    reveal_with_fuel(backoff_after, 4);
                }
                *self = Retry { retries: n + 1, backoff: wait * 2 };
                RetryStep::Wait(wait)
            },
        }
    }
}

/// The message when too many replies were empty.
pub const GIVE_UP_MESSAGE: &'static str = "Max retries exceeded: No choices returned";

/// What a request was for.
#[derive(Debug, Clone, Copy, PartialEq, Eq, Structural)]
pub enum Task {
    Query,
    Scaffold,
    Analysis,
    Suggestion,
    Diff,
}

impl Task {
    /// What stands before the error when a request fails.
    pub open spec fn failure_text(self) -> Seq<char> {
        match self {
            Task::Query => "Error: "@,
            Task::Scaffold => "Error generating scaffold: "@,
            Task::Analysis => "Error analyzing output: "@,
            Task::Suggestion => "Error suggesting commands: "@,
            Task::Diff => "Error generating diff: "@,
        }
    }

    /// The kind of response that tells of a failure.
    pub open spec fn failure_type(self) -> ResponseType {
        match self {
            Task::Query => ResponseType::General,
            Task::Scaffold => ResponseType::Scaffold,
            Task::Analysis => ResponseType::ErrorAnalysis,
            Task::Suggestion => ResponseType::CommandSuggestion,
            Task::Diff => ResponseType::Diff,
        }
    }

    /// The response that tells of a failure.
    pub fn failure(&self, error: &str) -> (r: AiResponse)
        ensures
            r@ == complete(self.failure_text() + error@, self.failure_type()),
    {
        let (start, response_type) = match self {
            Task::Query => ("Error: ", ResponseType::General),
            Task::Scaffold => ("Error generating scaffold: ", ResponseType::Scaffold),
            Task::Analysis => ("Error analyzing output: ", ResponseType::ErrorAnalysis),
            Task::Suggestion => ("Error suggesting commands: ", ResponseType::CommandSuggestion),
            Task::Diff => ("Error generating diff: ", ResponseType::Diff),
        };
        AiResponse {
            content: start.to_owned().concat(error),
            is_chunk: false,
            response_type,
            tokens: None,
        }
    }
}

// Laws.

/// The waits double: half a second, one second, two seconds.
pub proof fn law_backoff_doubles(n: nat)
    ensures
        backoff_after(0) == INITIAL_BACKOFF_MS,
        backoff_after(n + 1) == 2 * backoff_after(n),
        backoff_after(0) + backoff_after(1) + backoff_after(2) == 3500,
{
    reveal_with_fuel(backoff_after, 4);
}

/// A request tells no more messages than the context window holds, and the
/// last ones of the conversation.
pub proof fn law_context_is_recent(history: Seq<ConversationMessage>)
    ensures
        recent(history).len() <= MAX_CONTEXT_MESSAGES,
        recent(history).len() == history.len() || recent(history).len() == MAX_CONTEXT_MESSAGES,
        forall|i: int|
            0 <= i < recent(history).len() ==> #[trigger] recent(history)[i] == history[history.len()
                - recent(history).len() + i],
{
}

/// Lines between two fences come out as one block, each with its end.
pub proof fn law_fenced_lines_come_out(
    opening: Seq<char>,
    body: Seq<Seq<char>>,
    closing: Seq<char>,
)
    requires
        is_fence(opening),
        is_fence(closing),
        forall|i: int| 0 <= i < body.len() ==> !is_fence(#[trigger] body[i]),
    ensures
        blocks(seq![opening] + body + seq![closing], None) == seq![export::ended_lines(body)],
{
    let all = seq![opening] + body + seq![closing];
    assert(all.first() == opening);
    assert(all.drop_first() =~= body + seq![closing]);
    lemma_block_goes_on(body, closing, seq![]);
    assert(seq![] + export::ended_lines(body) =~= export::ended_lines(body));
}

/// An open block takes in lines up to the next fence.
proof fn lemma_block_goes_on(body: Seq<Seq<char>>, closing: Seq<char>, open: Seq<char>)
    requires
        is_fence(closing),
        forall|i: int| 0 <= i < body.len() ==> !is_fence(#[trigger] body[i]),
    ensures
        blocks(body + seq![closing], Some(open)) == seq![open + export::ended_lines(body)],
    decreases body.len(),
{
    let all = body + seq![closing];
    if body.len() == 0 {
        assert(all.drop_first() =~= seq![]);
        assert(all.first() == closing);
        assert(blocks(all.drop_first(), None) =~= seq![]);
        assert(seq![open] + seq![] =~= seq![open]);
        assert(open + export::ended_lines(body) =~= open);
    } else {
        let rest = body.drop_first();
        let next = open + body.first() + "\n"@;
        assert(all.first() == body.first());
        assert(!is_fence(body[0]));
        assert(all.drop_first() =~= rest + seq![closing]);
        assert forall|i: int| 0 <= i < rest.len() implies !is_fence(#[trigger] rest[i]) by {
            assert(rest[i] == body[i + 1]);
        }
        lemma_block_goes_on(rest, closing, next);
        lemma_ended_lines_first(body);
        assert(next + export::ended_lines(rest) =~= open + export::ended_lines(body));
    }
}

/// The first of some lines comes first.
proof fn lemma_ended_lines_first(lines: Seq<Seq<char>>)
    requires
        lines.len() > 0,
    ensures
        export::ended_lines(lines) == lines.first() + "\n"@ + export::ended_lines(
            lines.drop_first(),
        ),
    decreases lines.len(),
{
    let rest = lines.drop_first();
    if lines.len() == 1 {
        assert(lines.drop_last() =~= seq![]);
        assert(rest =~= seq![]);
        assert(export::ended_lines(lines.drop_last()) =~= seq![]);
        assert(lines.last() == lines.first());
        assert(export::ended_lines(lines) =~= lines.first() + "\n"@ + export::ended_lines(rest));
    } else {
        lemma_ended_lines_first(lines.drop_last());
        assert(lines.drop_last().drop_first() =~= rest.drop_last());
        assert(lines.drop_last().first() == lines.first());
        assert(export::ended_lines(lines) =~= lines.first() + "\n"@ + export::ended_lines(rest));
    }
}

/// A text without a fence has no block of code.
pub proof fn law_no_fence_no_block(lines: Seq<Seq<char>>)
    requires
        forall|i: int| 0 <= i < lines.len() ==> !is_fence(#[trigger] lines[i]),
    ensures
        blocks(lines, None) == Seq::<Seq<char>>::empty(),
    decreases lines.len(),
{
    if lines.len() > 0 {
        assert(!is_fence(lines[0]));
        let rest = lines.drop_first();
        assert forall|i: int| 0 <= i < rest.len() implies !is_fence(#[trigger] rest[i]) by {
            assert(rest[i] == lines[i + 1]);
        }
        law_no_fence_no_block(rest);
    }
}

/// Every file of a scaffold stems from an item of it; where each item has a
/// path and a content, each is a file, in the same order.
pub proof fn law_scaffold_items_are_files(items: Seq<JsonView>)
    ensures
        item_files(items).len() <= items.len(),
        (forall|i: int| 0 <= i < items.len() ==> scaffold_file(#[trigger] items[i]) is Some)
            ==> item_files(items).len() == items.len() && forall|i: int|
            0 <= i < items.len() ==> scaffold_file(items[i]) == Some(
                #[trigger] item_files(items)[i],
            ),
    decreases items.len(),
{
    if items.len() > 0 {
        let rest = items.drop_last();
        law_scaffold_items_are_files(rest);
        if forall|i: int| 0 <= i < items.len() ==> scaffold_file(#[trigger] items[i]) is Some {
            assert forall|i: int| 0 <= i < rest.len() implies scaffold_file(
                #[trigger] rest[i],
            ) is Some by {
                assert(rest[i] == items[i]);
            }
            assert(scaffold_file(items[items.len() - 1]) is Some);
            assert forall|i: int| 0 <= i < items.len() implies scaffold_file(items[i]) == Some(
                #[trigger] item_files(items)[i],
            ) by {
                if i < rest.len() {
                    assert(rest[i] == items[i]);
                    assert(item_files(items)[i] == item_files(rest)[i]);
                }
            }
        }
    }
}

/// A completion that repeats the input is handed on without it.
pub proof fn law_completion_drops_the_input(partial_input: Seq<char>, more: Seq<char>)
    requires
        text::trim(partial_input + more) == partial_input + more,
    ensures
        completion_of(partial_input, partial_input + more) == text::trim(more),
{
    let all = partial_input + more;
    assert(all.subrange(0, partial_input.len() as int) =~= partial_input);
    assert(all.skip(partial_input.len() as int) =~= more);
}

/// One line between two fences, without an assignment and without a brace, is
/// taken for a command.
pub proof fn law_one_line_block_is_a_command(open: Seq<char>, line: Seq<char>, close: Seq<char>)
    requires
        is_fence(open),
        is_fence(close),
        !is_fence(line),
        line.len() > 0,
        !line.contains('\n'),
        !line.contains('='),
        !line.contains('{'),
    ensures
        block_commands(blocks(seq![open, line, close], None)) == seq![text::trim(line)],
{
    let lines = seq![open, line, close];
    reveal_with_fuel(blocks, 4);
    reveal_with_fuel(block_commands, 2);
    reveal_strlit("\n");
    reveal_strlit("=");
    reveal_strlit("{");
    assert(lines.drop_first() =~= seq![line, close]);
    assert(seq![line, close].drop_first() =~= seq![close]);
    assert(seq![close].drop_first() =~= seq![]);
    let b = Seq::<char>::empty() + line + "\n"@;
    let none = Seq::<Seq<char>>::empty();
    assert(blocks(lines, None) =~= seq![b]);
    assert(seq![b].drop_last() =~= none);
    assert(block_body(b) =~= line);
    assert forall|c: char, i: int| text::occurs_at(line, seq![c], i) implies line.contains(c) by {
        assert(line.subrange(i, i + 1)[0] == line[i]);
    }
    assert("\n"@ =~= seq!['\n'] && "="@ =~= seq!['='] && "{"@ =~= seq!['{']);
    assert(block_commands(seq![b]) =~= seq![text::trim(line)]);
}

/// A block of code that holds anything ends with the end of a line.
pub proof fn law_block_is_empty_or_ends_a_line(lines: Seq<Seq<char>>, open: Option<Seq<char>>)
    requires
        match open {
            Some(b) => b.len() == 0 || b.last() == '\n',
            None => true,
        },
    ensures
        forall|i: int|
            0 <= i < blocks(lines, open).len() ==> (#[trigger] blocks(lines, open)[i]).len() == 0
                || blocks(lines, open)[i].last() == '\n',
    decreases lines.len(),
{
    if lines.len() > 0 {
        let rest = lines.drop_first();
        if is_fence(lines.first()) {
            match open {
                Some(b) => {
                    law_block_is_empty_or_ends_a_line(rest, None);
                    let all = seq![b] + blocks(rest, None);
                    assert(blocks(lines, open) == all);
                    assert forall|i: int| 0 <= i < all.len() implies (#[trigger] all[i]).len() == 0
                        || all[i].last() == '\n' by {
                        if i > 0 {
                            assert(all[i] == blocks(rest, None)[i - 1]);
                        }
                    }
                },
                None => {
                    law_block_is_empty_or_ends_a_line(rest, Some(seq![]));
                    assert(blocks(lines, open) == blocks(rest, Some(seq![])));
                },
            }
        } else {
            match open {
                Some(b) => {
                    reveal_strlit("\n");
                    let next = b + lines.first() + "\n"@;
                    assert(next.last() == '\n');
                    law_block_is_empty_or_ends_a_line(rest, Some(next));
                    assert(blocks(lines, open) == blocks(rest, Some(next)));
                },
                None => {
                    law_block_is_empty_or_ends_a_line(rest, None);
                    assert(blocks(lines, open) == blocks(rest, None));
                },
            }
        }
    } else {
        match open {
            Some(b) => {
                if b.len() > 0 {
                    assert(blocks(lines, open) == seq![b]);
                }
            },
            None => {},
        }
    }
}

/// The blocks of a text follow each other: a block goes from a fence to the next
/// one, what follows is read on its own, and lines outside of a block are passed
/// over. The last block may lack its closing fence; it counts if it has a line.
pub proof fn law_blocks_follow_each_other(
    opening: Seq<char>,
    body: Seq<Seq<char>>,
    closing: Seq<char>,
    more: Seq<Seq<char>>,
    line: Seq<char>,
)
    requires
        is_fence(opening),
        is_fence(closing),
        !is_fence(line),
        forall|i: int| 0 <= i < body.len() ==> !is_fence(#[trigger] body[i]),
    ensures
        blocks(seq![opening] + body + seq![closing] + more, None) == seq![
            export::ended_lines(body),
        ] + blocks(more, None),
        blocks(seq![line] + more, None) == blocks(more, None),
        body.len() > 0 ==> blocks(seq![opening] + body, None) == seq![export::ended_lines(body)],
        blocks(seq![opening], None).len() == 0,
        blocks(seq![], None).len() == 0,
{
    let all = seq![opening] + body + seq![closing] + more;
    let none = Seq::<char>::empty();
    assert(all.drop_first() =~= body + (seq![closing] + more));
    lemma_block_reaches(body, closing, more, none);
    assert(none + export::ended_lines(body) =~= export::ended_lines(body));
    assert((seq![line] + more).drop_first() =~= more);
    assert((seq![opening] + body).drop_first() =~= body);
    lemma_block_stays_open(body, none);
    assert(seq![opening].drop_first() =~= seq![]);
    assert(blocks(seq![], Some(none)).len() == 0);
    if body.len() > 0 {
        lemma_ended_lines_first(body);
        reveal_strlit("\n");
    }
}

/// An open block takes in lines up to the next fence, and no more.
proof fn lemma_block_reaches(
    body: Seq<Seq<char>>,
    closing: Seq<char>,
    more: Seq<Seq<char>>,
    open: Seq<char>,
)
    requires
        is_fence(closing),
        forall|i: int| 0 <= i < body.len() ==> !is_fence(#[trigger] body[i]),
    ensures
        blocks(body + (seq![closing] + more), Some(open)) == seq![open + export::ended_lines(body)]
            + blocks(more, None),
    decreases body.len(),
{
    let all = body + (seq![closing] + more);
    if body.len() == 0 {
        assert(all.first() == closing);
        assert(all.drop_first() =~= more);
        assert(open + export::ended_lines(body) =~= open);
    } else {
        let rest = body.drop_first();
        let next = open + body.first() + "\n"@;
        assert(all.first() == body.first());
        assert(!is_fence(body[0]));
        assert(all.drop_first() =~= rest + (seq![closing] + more));
        assert forall|i: int| 0 <= i < rest.len() implies !is_fence(#[trigger] rest[i]) by {
            assert(rest[i] == body[i + 1]);
        }
        lemma_block_reaches(rest, closing, more, next);
        lemma_ended_lines_first(body);
        assert(next + export::ended_lines(rest) =~= open + export::ended_lines(body));
    }
}

/// A block that no fence closes takes in all lines.
proof fn lemma_block_stays_open(body: Seq<Seq<char>>, open: Seq<char>)
    requires
        forall|i: int| 0 <= i < body.len() ==> !is_fence(#[trigger] body[i]),
    ensures
        (open + export::ended_lines(body)).len() > 0 ==> blocks(body, Some(open)) == seq![
            open + export::ended_lines(body),
        ],
    decreases body.len(),
{
    if body.len() == 0 {
        assert(open + export::ended_lines(body) =~= open);
    } else {
        let rest = body.drop_first();
        let next = open + body.first() + "\n"@;
        assert(!is_fence(body[0]));
        assert forall|i: int| 0 <= i < rest.len() implies !is_fence(#[trigger] rest[i]) by {
            assert(rest[i] == body[i + 1]);
        }
        lemma_block_stays_open(rest, next);
        lemma_ended_lines_first(body);
        assert(next + export::ended_lines(rest) =~= open + export::ended_lines(body));
    }
}

/// A line that begins with three backticks is a fence, whatever follows them and
/// however far it is indented; a line without backticks is none. The blocks of a
/// text are those of its lines.
pub proof fn law_fences_are_backticks(indent: nat, rest: Seq<char>, line: Seq<char>)
    ensures
        is_fence(Seq::new(indent, |i: int| ' ') + (seq!['`', '`', '`'] + rest)),
        !line.contains('`') ==> !is_fence(line),
        code_blocks(rest) == blocks(text::lines(rest), None),
{
    reveal_strlit("```");
    let fence = seq!['`', '`', '`'];
    assert("```"@ =~= fence);
    let n = indent as int;
    let s = fence + rest;
    let shift = Seq::new(indent, |i: int| ' ');
    let t = shift + s;
    let (i, j) = text::law_trim_takes_the_white_ends(t);
    assert(t[n] == '`' && t[n + 1] == '`' && t[n + 2] == '`');
    assert(i <= n) by {
        if i > n {
            assert(text::is_white(t[n]));
        }
    }
    assert(j > n + 2) by {
        if j <= n + 2 {
            assert(text::is_white(t[n + 2]));
        }
    }
    assert(i >= n) by {
        if i < n {
            assert(t[i] == ' ');
            assert(text::trim(t)[0] == t[i]);
        }
    }
    assert(text::trim(t).subrange(0, 3) =~= fence);
    let (a, b) = text::law_trim_takes_the_white_ends(line);
    if is_fence(line) {
        assert(text::trim(line).subrange(0, 3)[0] == '`');
        assert(line[a] == '`');
    }
}

/// A command stands behind a prompt, and behind `Run:` and `Execute:`; a line that
/// begins otherwise holds none.
pub proof fn law_commands_stand_behind_prompts(command: Seq<char>, line: Seq<char>)
    requires
        command.len() > 0,
        !text::is_white(command.first()),
        !text::is_white(command.last()),
    ensures
        line_command(seq!['$', ' '] + command) == Some(command),
        line_command(seq!['>', ' '] + command) == Some(command),
        line_command("Run: "@ + command) == Some(command),
        line_command("Execute: "@ + command) == Some(command),
        line_command(seq![]) is None,
        line.len() > 0 && !text::is_white(line.first()) && line.first() != '$' && line.first()
            != '>' && line.first() != 'R' && line.first() != 'E' ==> line_command(line) is None,
{
    reveal_strlit("$");
    reveal_strlit(">");
    reveal_strlit("Run:");
    reveal_strlit("Execute:");
    lemma_behind_prompt(command, '$');
    lemma_behind_prompt(command, '>');
    lemma_behind_word(command);
    reveal_with_fuel(text::trim_start, 2);
    reveal_with_fuel(text::trim_end, 2);
    assert(text::trim(seq![]) =~= seq![]);
    if line.len() > 0 && !text::is_white(line.first()) {
        let (i, j) = text::law_trim_takes_the_white_ends(line);
        let t = text::trim(line);
        assert(i == 0);
        if t.len() > 0 {
            assert(t[0] == line[0]);
        }
        if text::starts_with(t, "$"@) {
            assert(t.subrange(0, 1)[0] == '$');
        }
        if text::starts_with(t, ">"@) {
            assert(t.subrange(0, 1)[0] == '>');
        }
        if text::starts_with(t, "Run:"@) {
            assert(t.subrange(0, 4)[0] == 'R');
        }
        if text::starts_with(t, "Execute:"@) {
            assert(t.subrange(0, 8)[0] == 'E');
        }
    }
}

/// What stands behind a prompt and a space is the command.
proof fn lemma_behind_prompt(command: Seq<char>, prompt: char)
    requires
        command.len() > 0,
        !text::is_white(command.first()),
        !text::is_white(command.last()),
        prompt == '$' || prompt == '>',
    ensures
        line_command(seq![prompt, ' '] + command) == Some(command),
{
    reveal_strlit("$");
    reveal_strlit(">");
    let t = seq![prompt, ' '] + command;
    text::lemma_nothing_to_trim(t);
    assert(t.skip(1) =~= seq![' '] + command);
    text::lemma_nothing_to_trim(command);
    assert(t.subrange(0, 1) =~= seq![prompt]);
    assert("$"@ =~= seq!['$'] && ">"@ =~= seq!['>']);
    assert(t =~= seq![prompt] + (seq![' '] + (seq![command.first()] + command.drop_first())));
    let last = seq![command.first()] + command.drop_first();
    text::law_bytes_add_up(seq![prompt], seq![' '] + last, prompt);
    text::law_bytes_add_up(seq![' '], last, ' ');
    text::law_bytes_add_up(seq![command.first()], command.drop_first(), command.first());
}

/// What stands behind `Run:` or `Execute:` and a space is the command.
proof fn lemma_behind_word(command: Seq<char>)
    requires
        command.len() > 0,
        !text::is_white(command.first()),
        !text::is_white(command.last()),
    ensures
        line_command("Run: "@ + command) == Some(command),
        line_command("Execute: "@ + command) == Some(command),
{
    reveal_strlit("$");
    reveal_strlit(">");
    reveal_strlit("Run:");
    reveal_strlit("Execute:");
    reveal_strlit("Run: ");
    reveal_strlit("Execute: ");
    text::lemma_nothing_to_trim(command);
    let t = "Run: "@ + command;
    text::lemma_nothing_to_trim(t);
    assert(t.subrange(0, 4) =~= "Run:"@);
    assert(t.subrange(0, 1)[0] == 'R');
    text::lemma_find_char_is(t, ':', 3);
    assert(t.skip(4) =~= seq![' '] + command);
    let u = "Execute: "@ + command;
    text::lemma_nothing_to_trim(u);
    assert(u.subrange(0, 8) =~= "Execute:"@);
    assert(u.subrange(0, 1)[0] == 'E');
    text::lemma_find_char_is(u, ':', 7);
    assert(u.skip(8) =~= seq![' '] + command);
}

/// The commands on lines, and those in blocks, follow each other as the lines and
/// the blocks do.
pub proof fn law_commands_follow_each_other(a: Seq<Seq<char>>, b: Seq<Seq<char>>, one: Seq<char>)
    ensures
        line_commands(a + b) == line_commands(a) + line_commands(b),
        block_commands(a + b) == block_commands(a) + block_commands(b),
        line_commands(seq![one]) == match line_command(one) {
            Some(c) => seq![c],
            None => seq![],
        },
        line_commands(seq![]).len() == 0,
        block_commands(seq![]).len() == 0,
    decreases b.len(),
{
    reveal_with_fuel(line_commands, 2);
    let none = Seq::<Seq<char>>::empty();
    assert(seq![one].drop_last() =~= none);
    assert(seq![one].last() == one);
    assert(line_commands(none) =~= none);
    match line_command(one) {
        Some(c) => {
            assert(line_commands(seq![one]) =~= seq![c]);
        },
        None => {},
    }
    if b.len() == 0 {
        assert(a + b =~= a);
        assert(line_commands(a) + line_commands(b) =~= line_commands(a));
        assert(block_commands(a) + block_commands(b) =~= block_commands(a));
    } else {
        law_commands_follow_each_other(a, b.drop_last(), one);
        assert((a + b).drop_last() =~= a + b.drop_last());
        assert((a + b).last() == b.last());
        assert(line_commands(a + b) =~= line_commands(a) + line_commands(b));
        assert(block_commands(a + b) =~= block_commands(a) + block_commands(b));
    }
}

/// A block of one line is a command unless it assigns or opens a brace; a block of
/// several lines, and an empty one, is none.
pub proof fn law_one_line_is_a_command(line: Seq<char>, next: Seq<char>)
    requires
        !line.contains('\n'),
    ensures
        line.len() > 0 && !line.contains('=') && !line.contains('{') ==> block_commands(
            seq![line.push('\n')],
        ) == seq![text::trim(line)],
        line.contains('=') || line.contains('{') ==> block_commands(seq![line.push('\n')]).len()
            == 0,
        next.len() > 0 ==> block_commands(seq![line.push('\n') + next]).len() == 0 || next
            == seq!['\n'],
        block_commands(seq![seq![]]).len() == 0,
{
    reveal_with_fuel(block_commands, 2);
    reveal_strlit("\n");
    reveal_strlit("=");
    reveal_strlit("{");
    let none = Seq::<Seq<char>>::empty();
    let b = line.push('\n');
    assert("\n"@ =~= seq!['\n'] && "="@ =~= seq!['='] && "{"@ =~= seq!['{']);
    assert(seq![b].drop_last() =~= none);
    assert(block_body(b) =~= line);
    lemma_holds_character(line, '\n');
    lemma_holds_character(line, '=');
    lemma_holds_character(line, '{');
    if is_command_block(b) {
        assert(block_commands(seq![b]) =~= seq![text::trim(line)]);
    }
    if next.len() > 0 && next != seq!['\n'] {
        let c = b + next;
        assert(seq![c].drop_last() =~= none);
        let body = block_body(c);
        if next.len() == 1 {
            assert(next =~= seq![next[0]]);
            assert(c.last() == next[0]);
        }
        assert(body[line.len() as int] == '\n');
        lemma_holds_character(body, '\n');
    }
    let e = Seq::<char>::empty();
    assert(seq![e].drop_last() =~= none);
}

/// A text holds a text of one character where it holds that character.
proof fn lemma_holds_character(s: Seq<char>, c: char)
    ensures
        text::contains(s, seq![c]) <==> s.contains(c),
{
    if s.contains(c) {
        let i = choose|i: int| 0 <= i < s.len() && s[i] == c;
        assert(s.subrange(i, i + 1) =~= seq![c]);
        assert(text::occurs_at(s, seq![c], i));
    }
    if text::contains(s, seq![c]) {
        let i = choose|i: int| text::occurs_at(s, seq![c], i);
        assert(s.subrange(i, i + 1)[0] == c);
    }
}

/// The JSON object of a reply goes from its first opening brace to its last
/// closing one: what is said before and after it is left out.
pub proof fn law_talk_round_the_object_is_left_out(
    before: Seq<char>,
    inner: Seq<char>,
    after: Seq<char>,
)
    requires
        !before.contains('{'),
        !after.contains('}'),
    ensures
        has_json_span(before + (seq!['{'] + inner + seq!['}']) + after),
        json_span(before + (seq!['{'] + inner + seq!['}']) + after) == seq!['{'] + inner + seq!['}'],
{
    let object = seq!['{'] + inner + seq!['}'];
    let s = before + object + after;
    let i = before.len() as int;
    let j = (before.len() + object.len()) as int;
    assert(s[i] == '{');
    assert(s[j - 1] == '}');
    assert forall|k: int| 0 <= k < i implies s[k] != '{' by {
        assert(s[k] == before[k]);
        assert(before.contains(before[k]));
    }
    text::lemma_find_char_is(s, '{', i);
    text::lemma_find_last_char(s, '}');
    let k = text::find_last_char(s, '}');
    assert(s.contains('{') && s.contains('}'));
    if k >= j {
        assert(s[k] == after[k - j]);
        assert(after.contains(after[k - j]));
    }
    assert(k == j - 1);
    assert(s.subrange(i, j) =~= object);
}

/// An item with a path and a content, both texts, is a file of that path and that
/// content; an item that lacks either is none. The files of a document are those of
/// the items under `files`, in their order.
pub proof fn law_items_are_files(
    path: Seq<char>,
    content: Seq<char>,
    a: Seq<JsonView>,
    b: Seq<JsonView>,
    other: JsonView,
)
    ensures
        item_files(
            seq![
                JsonView::Object(
                    seq![("path"@, JsonView::Text(path)), ("content"@, JsonView::Text(content))],
                ),
            ],
        ) == seq![(path, content)],
        item_files(
            seq![
                JsonView::Object(
                    seq![("content"@, JsonView::Text(content)), ("path"@, JsonView::Text(path))],
                ),
            ],
        ) == seq![(path, content)],
        item_files(seq![JsonView::Object(seq![("path"@, JsonView::Text(path))])]).len() == 0,
        item_files(seq![JsonView::Object(seq![("content"@, JsonView::Text(content))])]).len() == 0,
        item_files(a + b) == item_files(a) + item_files(b),
        scaffold_files(JsonView::Object(seq![("files"@, JsonView::Array(a))])) == item_files(a),
        !(other is Object) ==> scaffold_files(other).len() == 0 && item_files(seq![other]).len()
            == 0,
    decreases b.len(),
{
    reveal_strlit("path");
    reveal_strlit("content");
    reveal_strlit("files");
    reveal_with_fuel(item_files, 2);
    reveal_with_fuel(json::named, 3);
    let p = ("path"@, JsonView::Text(path));
    let c = ("content"@, JsonView::Text(content));
    assert("path"@.len() != "content"@.len());
    assert(seq![p, c].drop_first() =~= seq![c]);
    assert(seq![c, p].drop_first() =~= seq![p]);
    assert(seq![c].drop_first() =~= seq![]);
    assert(seq![p].drop_first() =~= seq![]);
    let none = Seq::<JsonView>::empty();
    let v = JsonView::Object(seq![p, c]);
    let w = JsonView::Object(seq![c, p]);
    let x = JsonView::Object(seq![p]);
    let y = JsonView::Object(seq![c]);
    assert(seq![v].drop_last() =~= none && seq![w].drop_last() =~= none);
    assert(seq![x].drop_last() =~= none && seq![y].drop_last() =~= none);
    assert(seq![other].drop_last() =~= none);
    assert(scaffold_file(v) == Some((path, content)));
    assert(scaffold_file(w) == Some((path, content)));
    assert(item_files(none) =~= seq![]);
    assert(item_files(seq![v]) =~= seq![(path, content)]);
    assert(item_files(seq![w]) =~= seq![(path, content)]);
    if b.len() == 0 {
        assert(a + b =~= a);
        assert(item_files(a) + item_files(b) =~= item_files(a));
    } else {
        law_items_are_files(path, content, a, b.drop_last(), other);
        assert((a + b).drop_last() =~= a + b.drop_last());
        assert((a + b).last() == b.last());
        assert(item_files(a + b) =~= item_files(a) + item_files(b));
    }
}

/// The suggestions of an analysis are the texts of its list, in their order; what is
/// no text is left out.
pub proof fn law_suggestions_are_the_texts(
    a: Seq<JsonView>,
    b: Seq<JsonView>,
    t: Seq<char>,
    other: JsonView,
)
    ensures
        texts_among(a + b) == texts_among(a) + texts_among(b),
        texts_among(seq![JsonView::Text(t)]) == seq![t],
        !(other is Text) ==> texts_among(seq![other]).len() == 0,
        texts_among(seq![]).len() == 0,
    decreases b.len(),
{
    reveal_with_fuel(texts_among, 2);
    let none = Seq::<JsonView>::empty();
    assert(seq![JsonView::Text(t)].drop_last() =~= none);
    assert(seq![other].drop_last() =~= none);
    assert(texts_among(seq![JsonView::Text(t)]) =~= seq![t]);
    if b.len() == 0 {
        assert(a + b =~= a);
        assert(texts_among(a) + texts_among(b) =~= texts_among(a));
    } else {
        law_suggestions_are_the_texts(a, b.drop_last(), t, other);
        assert((a + b).drop_last() =~= a + b.drop_last());
        assert((a + b).last() == b.last());
        assert(texts_among(a + b) =~= texts_among(a) + texts_among(b));
    }
}

/// An analysis keeps the message that it is about, and takes the explanation, the
/// suggestions and the code from the document; where there is no document, the
/// reply itself is the explanation.
pub proof fn law_analysis_tells_the_reply(
    message: Seq<char>,
    content: Seq<char>,
    explanation: Seq<char>,
    items: Seq<JsonView>,
    code: Seq<char>,
)
    ensures
        ({
            let r = analysis_of(
                message,
                content,
                Some(
                    JsonView::Object(
                        seq![
                            ("explanation"@, JsonView::Text(explanation)),
                            ("suggestions"@, JsonView::Array(items)),
                            ("code_context"@, JsonView::Text(code)),
                        ],
                    ),
                ),
            );
            &&& r.error_message == message
            &&& r.explanation == explanation
            &&& r.suggestions == texts_among(items)
            &&& r.code_context == Some(code)
        }),
        ({
            let r = analysis_of(message, content, Some(JsonView::Object(seq![])));
            &&& r.error_message == message
            &&& r.explanation == "No explanation provided"@
            &&& r.suggestions.len() == 0
            &&& r.code_context is None
        }),
        ({
            let r = analysis_of(message, content, None);
            &&& r.error_message == message
            &&& r.explanation == content
            &&& r.suggestions.len() == 0
            &&& r.code_context is None
        }),
        no_analysis(message).error_message == message,
        no_analysis(message).explanation == "Could not parse AI response."@,
        no_analysis(message).suggestions == seq!["Try a different command."@],
        no_analysis(message).code_context is None,
{
    reveal_strlit("explanation");
    reveal_strlit("suggestions");
    reveal_strlit("code_context");
    reveal_with_fuel(json::named, 4);
    let e = ("explanation"@, JsonView::Text(explanation));
    let s = ("suggestions"@, JsonView::Array(items));
    let c = ("code_context"@, JsonView::Text(code));
    assert("explanation"@[0] != "suggestions"@[0]);
    assert("explanation"@[0] != "code_context"@[0]);
    assert("suggestions"@[0] != "code_context"@[0]);
    assert(seq![e, s, c].drop_first() =~= seq![s, c]);
    assert(seq![s, c].drop_first() =~= seq![c]);
}

/// A completion that does not repeat the input is handed on whole, but for the white
/// space at its ends; so is one where there is no input.
pub proof fn law_other_completion_is_kept(partial_input: Seq<char>, content: Seq<char>)
    ensures
        !text::starts_with(text::trim(content), partial_input) ==> completion_of(
            partial_input,
            content,
        ) == text::trim(content),
        completion_of(seq![], content) == text::trim(content),
{
    let t = text::trim(content);
    assert(t.subrange(0, 0) =~= seq![]);
    assert(t.skip(0) =~= t);
    let (i, j) = text::law_trim_takes_the_white_ends(content);
}

/// A reply with a backtick in it holds code, whatever else it says. Of the others,
/// one with the headers of a diff or of a hunk is a diff, also where it speaks of
/// files; one that names files and their paths or contents is a scaffold, also
/// where it speaks of errors; and one that speaks of errors and of their causes is
/// an analysis. What does none of these is general.
pub proof fn law_kind_of_a_reply(s: Seq<char>)
    ensures
        s.contains('`') <==> response_type_of(s) == ResponseType::Code,
        !s.contains('`') && text::contains(s, "---"@) && text::contains(s, "+++"@)
            ==> response_type_of(s) == ResponseType::Diff,
        !s.contains('`') && text::contains(s, "@@ "@) ==> response_type_of(s)
            == ResponseType::Diff,
        !s.contains('`') && s.contains('-') && s.contains('+') && text::contains(s, "diff"@)
            ==> response_type_of(s) == ResponseType::Diff,
        !s.contains('`') && !s.contains('-') && !s.contains('@') && text::contains(s, "\"files\""@)
            && (text::contains(s, "\"path\""@) || text::contains(s, "\"content\""@))
            ==> response_type_of(s) == ResponseType::Scaffold,
        response_type_of(s) == ResponseType::Scaffold ==> text::contains(s, "\"files\""@),
        !s.contains('`') && !s.contains('-') && !s.contains('@') && !s.contains('"') && (
        text::contains(s, "error"@) || text::contains(s, "Error"@) || text::contains(s, "ERROR"@))
            && (text::contains(s, "CAUSES"@) || text::contains(s, "FIXES"@) || text::contains(
            s,
            "SOLUTION"@,
        )) ==> response_type_of(s) == ResponseType::ErrorAnalysis,
        !s.contains('`') && !s.contains('-') && !s.contains('@') && !s.contains('"') && !s.contains(
            'S',
        ) ==> response_type_of(s) == ResponseType::General,
{
    reveal_strlit("`");
    reveal_strlit("-");
    reveal_strlit("+");
    reveal_strlit("---");
    reveal_strlit("+++");
    reveal_strlit("@@ ");
    reveal_strlit("\"files\"");
    reveal_strlit("CAUSES");
    reveal_strlit("FIXES");
    reveal_strlit("SOLUTION");
    assert("`"@ =~= seq!['`'] && "-"@ =~= seq!['-'] && "+"@ =~= seq!['+']);
    lemma_holds_character(s, '`');
    lemma_holds_character(s, '-');
    lemma_holds_character(s, '+');
    lemma_holds_the_characters(s, "---"@);
    lemma_holds_the_characters(s, "@@ "@);
    lemma_holds_the_characters(s, "\"files\""@);
    lemma_holds_the_characters(s, "CAUSES"@);
    lemma_holds_the_characters(s, "FIXES"@);
    lemma_holds_the_characters(s, "SOLUTION"@);
    assert("---"@[0] == '-' && "@@ "@[0] == '@' && "\"files\""@[0] == '"');
    assert("CAUSES"@[5] == 'S' && "FIXES"@[4] == 'S' && "SOLUTION"@[0] == 'S');
}

/// A text that holds another holds its characters.
proof fn lemma_holds_the_characters(s: Seq<char>, p: Seq<char>)
    ensures
        text::contains(s, p) ==> forall|k: int| 0 <= k < p.len() ==> s.contains(#[trigger] p[k]),
{
    if text::contains(s, p) {
        let i = choose|i: int| text::occurs_at(s, p, i);
        assert forall|k: int| 0 <= k < p.len() implies s.contains(#[trigger] p[k]) by {
            assert(s.subrange(i, i + p.len())[k] == p[k]);
            assert(s[i + k] == p[k]);
        }
    }
}

/// The history is told from the last command on, each with its number, and ten
/// commands of it at most.
pub proof fn law_history_is_told_backwards(history: Seq<Seq<char>>, n: nat)
    ensures
        numbered(history, 0).len() == 0,
        n < history.len() ==> numbered(history, n + 1) == numbered(history, n) + text::decimal(
            n + 1,
        ) + seq!['.', ' '] + history[history.len() - 1 - n] + seq!['\n'],
        told_commands(history) <= 10,
        history.len() <= 10 ==> told_commands(history) == history.len(),
        history.len() > 10 ==> told_commands(history) == 10,
{
    reveal_strlit(". ");
    reveal_strlit("\n");
    assert(". "@ =~= seq!['.', ' '] && "\n"@ =~= seq!['\n']);
    if n < history.len() {
        assert(numbered(history, n + 1) =~= numbered(history, n) + text::decimal(n + 1) + seq![
            '.',
            ' ',
        ] + history[history.len() - 1 - n] + seq!['\n']);
    }
}

/// What is told of a history and a place is the history, if there is one, and then
/// the place, if it is known.
pub proof fn law_place_is_told_last(history: Seq<Seq<char>>, dir: &str)
    ensures
        command_context(seq![], None).len() == 0,
        command_context(history, Some(dir)) == command_context(history, None)
            + "Current directory: "@ + dir@ + "\n\n"@,
{
    let place = "Current directory: "@ + dir@ + "\n\n"@;
    let with = command_context(history, Some(dir));
    let without = command_context(history, None);
    assert(with =~= without + place);
    assert(without + place =~= without + "Current directory: "@ + dir@ + "\n\n"@);
    assert(command_context(seq![], None) =~= seq![]);
}

/// Each of the last ten commands stands in what is told.
pub proof fn law_last_commands_are_told(history: Seq<Seq<char>>, n: nat)
    requires
        n < history.len(),
        n < 10,
    ensures
        text::contains(command_context(history, None), history[history.len() - 1 - n]),
{
    let line = history[history.len() - 1 - n];
    let k = told_commands(history);
    let all = numbered(history, k);
    lemma_command_is_numbered(history, n, k);
    let without = command_context(history, None);
    assert(without =~= "Recent command history:\n"@ + all + "\n"@);
    lemma_holds_inside("Recent command history:\n"@, all, "\n"@, line);
}

/// What a part holds, the whole holds.
proof fn lemma_holds_inside(before: Seq<char>, part: Seq<char>, after: Seq<char>, p: Seq<char>)
    requires
        text::contains(part, p),
    ensures
        text::contains(before + part + after, p),
{
    let i = choose|i: int| text::occurs_at(part, p, i);
    let s = before + part + after;
    let k = before.len() + i;
    assert(s.subrange(k, k + p.len()) =~= part.subrange(i, i + p.len()));
    assert(text::occurs_at(s, p, k));
}

/// Each of the commands told stands among the numbered ones.
proof fn lemma_command_is_numbered(history: Seq<Seq<char>>, n: nat, k: nat)
    requires
        n < k <= history.len(),
    ensures
        text::contains(numbered(history, k), history[history.len() - 1 - n]),
    decreases k,
{
    let line = history[history.len() - 1 - n];
    let all = numbered(history, k);
    let before = numbered(history, (k - 1) as nat);
    if n + 1 == k {
        let head = before + (text::decimal(k) + ". "@);
        assert(text::contains(line, line)) by {
            assert(line.subrange(0, line.len() as int) =~= line);
            assert(text::occurs_at(line, line, 0));
        }
        lemma_holds_inside(head, line, "\n"@, line);
        assert(all =~= head + line + "\n"@);
    } else {
        lemma_command_is_numbered(history, n, (k - 1) as nat);
        let more = text::decimal(k) + ". "@ + history[history.len() - k] + "\n"@;
        lemma_holds_inside(seq![], before, more, line);
        assert(all =~= seq![] + before + more);
    }
}

/// A message keeps its role and its words in a request: the assistant's and the
/// system's are theirs, all others the user's.
pub proof fn law_messages_keep_role_and_words(role: Seq<char>, words: Seq<char>)
    ensures
        as_prompt(("assistant"@, words)).0 == Role::Assistant,
        as_prompt(("system"@, words)).0 == Role::System,
        as_prompt(("user"@, words)).0 == Role::User,
        role != "assistant"@ && role != "system"@ ==> as_prompt((role, words)).0 == Role::User,
        as_prompt((role, words)).1 == "Role: "@ + role + ", Content: "@ + words,
        text::ends_with(as_prompt((role, words)).1, words),
        text::contains(as_prompt((role, words)).1, role),
{
    reveal_strlit("assistant");
    reveal_strlit("system");
    reveal_strlit("user");
    assert("assistant"@.len() == 9 && "system"@.len() == 6 && "user"@.len() == 4);
    let r = as_prompt((role, words)).1;
    let a = text::law_texts_hold_their_parts("Role: "@ + role + ", Content: "@, words, seq![], r);
    let b = text::law_texts_hold_their_parts("Role: "@, role, ", Content: "@ + words, r);
    assert(r =~= "Role: "@ + role + (", Content: "@ + words));
}

/// A conversation of ten messages is told whole; of a longer one the last ten are.
pub proof fn law_last_ten_messages_are_told(
    before: Seq<ConversationMessage>,
    last: Seq<ConversationMessage>,
)
    ensures
        last.len() == 10 ==> recent(before + last) == last,
        last.len() < 10 ==> recent(last) == last,
{
    if last.len() == 10 {
        assert((before + last).skip(before.len() as int) =~= last);
    }
}

/// A request of two messages asks for what the system says of the user's words, with
/// the limits that it is given.
pub proof fn law_request_tells_both(
    model: Seq<char>,
    system: Seq<char>,
    user: Seq<char>,
    tenths: u8,
    limit: u32,
    stream: bool,
)
    ensures
        ({
            let r = told(model, system, user, tenths, token_limit(Some(limit)), stream);
            &&& r.model == model
            &&& r.messages.len() == 2
            &&& r.messages[0] == (Role::System, system)
            &&& r.messages[1] == (Role::User, user)
            &&& r.temperature == Temperature::Tenths(tenths)
            &&& r.max_tokens == Some(limit as i64)
            &&& r.stream == stream
        }),
        token_limit(None) is None,
{
}

/// After `n` waits the next takes half a second, doubled `n` times, and no more
/// than three waits are made.
pub proof fn law_waits_are_bounded(n: nat)
    ensures
        MAX_RETRIES == 3,
        backoff_after(0) == 500,
        backoff_after(1) == 1000,
        backoff_after(2) == 2000,
        n > 0 ==> backoff_after(n) == 2 * backoff_after((n - 1) as nat),
{
    reveal_with_fuel(backoff_after, 4);
}

/// A failure is told with what was tried and in the kind of response that was asked
/// for, whole and uncounted.
pub proof fn law_failure_names_the_task(error: Seq<char>, kind: ResponseType)
    ensures
        Task::Query.failure_text() + error == "Error: "@ + error,
        Task::Scaffold.failure_text() + error == "Error generating scaffold: "@ + error,
        Task::Analysis.failure_text() + error == "Error analyzing output: "@ + error,
        Task::Suggestion.failure_text() + error == "Error suggesting commands: "@ + error,
        Task::Diff.failure_text() + error == "Error generating diff: "@ + error,
        Task::Query.failure_type() == ResponseType::General,
        Task::Scaffold.failure_type() == ResponseType::Scaffold,
        Task::Analysis.failure_type() == ResponseType::ErrorAnalysis,
        Task::Suggestion.failure_type() == ResponseType::CommandSuggestion,
        Task::Diff.failure_type() == ResponseType::Diff,
        complete(error, kind).content == error,
        complete(error, kind).response_type == kind,
        !complete(error, kind).is_chunk,
        complete(error, kind).tokens is None,
{
}

/// A reply without braces is read whole; one without an opening brace is read from its
/// start, and one without a closing brace to its end.
pub proof fn law_missing_brace_leaves_the_reply(s: Seq<char>, a: Seq<char>)
    requires
        !s.contains('{'),
        !s.contains('}'),
        !a.contains('{'),
    ensures
        has_json_span(s) && json_span(s) == s,
        has_json_span(a.push('}') + s) && json_span(a.push('}') + s) == a.push('}'),
        has_json_span(s + seq!['{'] + s) && json_span(s + seq!['{'] + s) == seq!['{'] + s,
{
    assert(s.subrange(0, s.len() as int) =~= s);
    let closed = a.push('}') + s;
    let n = a.len() as int;
    assert(closed[n] == '}');
    text::lemma_find_last_char(closed, '}');
    let k = text::find_last_char(closed, '}');
    if k > n {
        assert(closed[k] == s[k - n - 1]);
        assert(s.contains(s[k - n - 1]));
    }
    if closed.contains('{') {
        let i = choose|i: int| 0 <= i < closed.len() && closed[i] == '{';
        if i < n {
            assert(a.contains(a[i]));
        } else {
            assert(s.contains(s[i - n - 1]));
        }
    }
    assert(closed.subrange(0, n + 1) =~= a.push('}'));
    let open = s + seq!['{'] + s;
    let m = s.len() as int;
    assert(open[m] == '{');
    assert forall|j: int| 0 <= j < m implies open[j] != '{' by {
        assert(open[j] == s[j]);
        assert(s.contains(s[j]));
    }
    text::lemma_find_char_is(open, '{', m);
    if open.contains('}') {
        let i = choose|i: int| 0 <= i < open.len() && open[i] == '}';
        if i < m {
            assert(s.contains(s[i]));
        } else {
            assert(s.contains(s[i - m - 1]));
        }
    }
    assert(open.subrange(m, open.len() as int) =~= seq!['{'] + s);
}

} // verus!
