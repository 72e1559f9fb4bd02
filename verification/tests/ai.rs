use supaterm::ai::{
    AiClient, Config, ConversationMessage, ResponseType, Retry, RetryStep, Role, Task, Temperature,
};
use supaterm::json::{parse_json, Json};

fn client() -> AiClient {
    AiClient::new(Config::from_env(Some("key".to_string()), None))
}

#[test]
fn test_determine_response_type() {
    // Test code detection
    assert_eq!(
        AiClient::determine_response_type("Here's some `inline code`"),
        ResponseType::Code
    );
    assert_eq!(
        AiClient::determine_response_type("```rust\nfn main() {}\n```"),
        ResponseType::Code
    );

    // Test diff detection
    assert_eq!(
        AiClient::determine_response_type("--- old\n+++ new\n@@ -1,3 +1,3 @@\n-old\n+new"),
        ResponseType::Diff
    );

    // Test scaffold detection
    assert_eq!(
        AiClient::determine_response_type(r#"{"files":[{"path":"src/main.rs","content":"fn main() {}"}]}"#),
        ResponseType::Scaffold
    );

    // Test error analysis detection
    assert_eq!(
        AiClient::determine_response_type("ERROR SUMMARY\nCompilation failed\nROOT CAUSES\nMissing semicolon"),
        ResponseType::ErrorAnalysis
    );

    // Test general response
    assert_eq!(
        AiClient::determine_response_type("This is a normal text response"),
        ResponseType::General
    );
}

#[test]
fn test_extract_code_blocks() {
    let content = "Here's some code:\n```rust\nfn main() {\n    println!(\"Hello\");\n}\n```\nAnd another:\n```\nlet x = 5;\n```";
    let blocks = AiClient::extract_code_blocks(content);
    assert_eq!(blocks.len(), 2);
    assert_eq!(blocks[0], "fn main() {\n    println!(\"Hello\");\n}\n");
    assert_eq!(blocks[1], "let x = 5;\n");
}

#[test]
fn more_response_types() {
    assert_eq!(AiClient::determine_response_type("@@ x"), ResponseType::Diff);
    assert_eq!(AiClient::determine_response_type("a diff - and +"), ResponseType::Diff);
    assert_eq!(AiClient::determine_response_type("--- only"), ResponseType::General);
    assert_eq!(
        AiClient::determine_response_type("\"files\" \"content\""),
        ResponseType::Scaffold
    );
    assert_eq!(AiClient::determine_response_type("\"files\""), ResponseType::General);
    assert_eq!(AiClient::determine_response_type("an error. FIXES"), ResponseType::ErrorAnalysis);
    assert_eq!(AiClient::determine_response_type("Error SOLUTION"), ResponseType::ErrorAnalysis);
    assert_eq!(AiClient::determine_response_type("CAUSES"), ResponseType::General);
}

#[test]
fn open_and_empty_blocks() {
    assert_eq!(AiClient::extract_code_blocks("```\na\nb"), vec!["a\nb\n"]);
    assert!(AiClient::extract_code_blocks("```").is_empty());
    assert_eq!(AiClient::extract_code_blocks("```\n```"), vec![""]);
    assert!(AiClient::extract_code_blocks("no fence\nat all").is_empty());
    assert_eq!(AiClient::extract_code_blocks("  ```sh\nls\n  ```"), vec!["ls\n"]);
}

#[test]
fn commands_are_found_on_lines_and_in_blocks() {
    let text = "$ ls -la\n> echo hi\nRun: cargo test: now\nExecute:make\n$ \n$x\nplain\n```\n```";
    assert_eq!(
        AiClient::extract_commands(text),
        vec!["ls -la", "echo hi", "cargo test: now", "make"]
    );
    assert_eq!(AiClient::extract_commands("Run: curl http://x"), vec!["curl http://x"]);
    assert_eq!(AiClient::extract_commands("$ä"), vec!["ä"]);
    assert!(AiClient::extract_commands("$x").is_empty());
    assert_eq!(AiClient::extract_commands("$ pwd\n```\nls\n```"), vec!["pwd", "ls"]);
    assert_eq!(AiClient::extract_commands("```\n ls -a \n```"), vec!["ls -a"]);
    assert!(AiClient::extract_commands("```\nls\npwd\n```").is_empty());
    assert!(AiClient::extract_commands("```\nx=1\n```").is_empty());
    assert!(AiClient::extract_commands("```\nfn f() {\n```").is_empty());
    assert!(AiClient::extract_commands("```\n\n```").is_empty());
}

#[test]
fn a_query_tells_the_last_ten_messages() {
    let history: Vec<ConversationMessage> = (0..12)
        .map(|i| ConversationMessage {
            role: ["user", "assistant", "system", "tool"][i % 4].to_string(),
            content: format!("m{}", i),
        })
        .collect();
    let (title, request) = client().process_query("hello", &history);
    assert_eq!(title, "hello");
    assert_eq!(request.model, "gpt-4");
    assert_eq!(request.messages.len(), 11);
    assert_eq!(request.messages[0].content, "Role: system, Content: m2");
    assert_eq!(request.messages[0].role, Role::System);
    assert_eq!(request.messages[1].role, Role::User);
    assert_eq!(request.messages[2].role, Role::User);
    assert_eq!(request.messages[3].role, Role::Assistant);
    assert_eq!(request.messages[10].content, "hello");
    assert_eq!(request.temperature, Temperature::Configured);
    assert_eq!(request.max_tokens, Some(2048));
    assert!(request.stream);
    let (_, request) = client().process_query("hello", &history[..3].to_vec());
    assert_eq!(request.messages.len(), 4);
}

#[test]
fn suggestions_tell_the_history_newest_first() {
    let history: Vec<String> = (1..=11).map(|i| format!("c{}", i)).collect();
    let (title, request) = client().suggest_commands("gi", &history, Some("/tmp"));
    assert_eq!(title, "Command Suggestions");
    let user = &request.messages[1].content;
    assert!(user.starts_with("Recent command history:\n1. c11\n2. c10\n"));
    assert!(user.contains("10. c2\n\nCurrent directory: /tmp\n\nPartial command: 'gi'\n\nSuggest"));
    assert!(!user.contains("c1\n\n"));
    assert_eq!(request.max_tokens, Some(1000));
    assert_eq!(request.temperature, Temperature::Tenths(4));
    let (_, request) = client().suggest_commands("gi", &vec![], None);
    assert!(request.messages[1].content.starts_with("Partial command: 'gi'\n\n"));
}

#[test]
fn requests_say_what_the_assistant_is_to_be() {
    let c = client();
    let (title, r) = c.generate_scaffold("a web server");
    assert_eq!(title, "a web server");
    assert_eq!(r.messages[0].role, Role::System);
    assert!(r.messages[0].content.ends_with("\"content\": \"file content\" } ] }"));
    assert_eq!(r.messages[1].content, "a web server");
    assert_eq!((r.max_tokens, r.stream), (Some(4000), true));

    let (title, r) = c.analyze_output("boom", "ctx");
    assert_eq!(title, "Analysis");
    assert_eq!(
        r.messages[1].content,
        "Here is the output to analyze:\n\n```\nboom\n```\n\nAdditional context:\nctx"
    );
    assert_eq!(r.temperature, Temperature::Tenths(5));

    let (title, r) = c.generate_diff("let a;", "rename");
    assert_eq!(title, "Diff");
    assert_eq!(
        r.messages[1].content,
        "Original code:\n\n```\nlet a;\n```\n\nChanges to make:\nrename"
    );

    let r = c.autocomplete("gi", "shell");
    assert_eq!(
        r.messages[1].content,
        "Context: shell\n\nPartial input: gi\n\nComplete this input:"
    );
    assert_eq!((r.max_tokens, r.stream), (Some(100), false));

    let r = c.analyze_shell_error("not found", "foo", Some("/tmp"));
    assert_eq!(r.messages[1].content, "Command: foo\nError: not found\nDirectory: /tmp");
    let r = c.analyze_shell_error("not found", "foo", None);
    assert_eq!(r.messages[1].content, "Command: foo\nError: not found\n");
}

#[test]
fn a_completion_drops_the_repeated_input() {
    assert_eq!(AiClient::completion("git", Some("  git commit\n")), "commit");
    assert_eq!(AiClient::completion("git", Some(" status ")), "status");
    assert_eq!(AiClient::completion("", Some(" x ")), "x");
    assert_eq!(AiClient::completion("git", None), "");
}

#[test]
fn json_is_read_value_by_value() {
    let doc = parse_json(r#"{"a":[1,true,null,"x",{"b":2.5}],"c":"d"}"#).unwrap();
    assert_eq!(doc.text_under("c"), Some("d".to_string()));
    assert_eq!(doc.text_under("a"), None);
    let items = doc.get("a").unwrap().as_array().unwrap();
    assert_eq!(items.len(), 5);
    assert!(matches!(&items[0], Json::Number(n) if n == "1"));
    assert!(matches!(&items[1], Json::Bool(true)));
    assert!(matches!(&items[2], Json::Null));
    assert_eq!(items[3].as_text(), Some(&"x".to_string()));
    assert!(matches!(items[4].get("b").unwrap(), Json::Number(n) if n == "2.5"));
    assert!(items[4].get("a").is_none());
    assert!(items[0].get("a").is_none());
    assert!(parse_json("{").is_none());
    assert!(parse_json("").is_none());
}

#[test]
fn scaffold_files_are_read_from_a_reply() {
    let reply = "Sure! {\"files\":[{\"path\":\"a\",\"content\":\"1\"},{\"path\":\"b\"},7,{\"path\":\"c\",\"content\":\"3\"}]} done";
    assert!(AiClient::holds_json_span(reply));
    let files = AiClient::parse_scaffold_data(reply).unwrap();
    assert_eq!(
        files,
        vec![("a".to_string(), "1".to_string()), ("c".to_string(), "3".to_string())]
    );
    assert_eq!(AiClient::parse_scaffold_data("{}").unwrap(), vec![]);
    assert_eq!(
        AiClient::parse_scaffold_data("no json").unwrap_err().message(),
        "Failed to parse scaffold JSON"
    );
    assert!(!AiClient::holds_json_span("} {"));
    assert!(AiClient::holds_json_span("}{"));
    assert!(AiClient::holds_json_span(""));
}

#[test]
fn a_file_needs_a_path_and_a_content() {
    let doc = Json::Object(vec![(
        "files".to_string(),
        Json::Array(vec![
            Json::Object(vec![
                ("path".to_string(), Json::Text("p".to_string())),
                ("content".to_string(), Json::Text("c".to_string())),
            ]),
            Json::Object(vec![("path".to_string(), Json::Text("q".to_string()))]),
        ]),
    )]);
    assert_eq!(AiClient::files_in(&doc), vec![("p".to_string(), "c".to_string())]);
    assert!(AiClient::files_in(&Json::Null).is_empty());
}

#[test]
fn an_error_analysis_is_read_from_a_reply() {
    let a = AiClient::read_analysis(
        "err",
        Some("{\"explanation\":\"why\",\"suggestions\":[\"one\",2,\"two\"],\"code_context\":\"ctx\"}"),
    );
    assert_eq!(a.error_message, "err");
    assert_eq!(a.explanation, "why");
    assert_eq!(a.suggestions, vec!["one", "two"]);
    assert_eq!(a.code_context, Some("ctx".to_string()));

    let a = AiClient::read_analysis("err", Some("{}"));
    assert_eq!(a.explanation, "No explanation provided");
    assert!(a.suggestions.is_empty());
    assert_eq!(a.code_context, None);

    let a = AiClient::read_analysis("err", Some("just words"));
    assert_eq!(a.explanation, "just words");

    let a = AiClient::read_analysis("err", None);
    assert_eq!(a.explanation, "Could not parse AI response.");
    assert_eq!(a.suggestions, vec!["Try a different command."]);
}

#[test]
fn empty_replies_are_asked_again_three_times() {
    let mut retry = Retry::new();
    for ms in [500, 1000, 2000] {
        match retry.next(None) {
            RetryStep::Wait(w) => assert_eq!(w, ms),
            other => panic!("{:?}", other),
        }
    }
    assert!(matches!(retry.next(None), RetryStep::GiveUp));
    let mut retry = Retry::new();
    match retry.next(Some(Some("`x`".to_string()))) {
        RetryStep::Done(Some(r)) => {
            assert_eq!(r.content, "`x`");
            assert_eq!(r.response_type, ResponseType::Code);
            assert!(!r.is_chunk);
            assert_eq!(r.tokens, None);
        }
        other => panic!("{:?}", other),
    }
    assert!(matches!(retry.next(Some(None)), RetryStep::Done(None)));
    assert_eq!(supaterm::ai::GIVE_UP_MESSAGE, "Max retries exceeded: No choices returned");
}

#[test]
fn failures_are_told_as_responses() {
    let cases = [
        (Task::Query, "Error: x", ResponseType::General),
        (Task::Scaffold, "Error generating scaffold: x", ResponseType::Scaffold),
        (Task::Analysis, "Error analyzing output: x", ResponseType::ErrorAnalysis),
        (Task::Suggestion, "Error suggesting commands: x", ResponseType::CommandSuggestion),
        (Task::Diff, "Error generating diff: x", ResponseType::Diff),
    ];
    for (task, content, kind) in cases {
        let r = task.failure("x");
        assert_eq!(r.content, content);
        assert_eq!(r.response_type, kind);
    }
    assert_eq!(AiClient::format_error("x"), "⚠️ AI Error: x");
}

#[test]
fn the_key_comes_from_the_environment() {
    assert!(AiClient::is_api_key_configured(Some("k")));
    assert!(!AiClient::is_api_key_configured(Some("")));
    assert!(!AiClient::is_api_key_configured(None));
    let c = Config::from_env(None, Some("org".to_string()));
    assert_eq!(c.api_key, "");
    assert_eq!(c.organization_id, Some("org".to_string()));
    assert_eq!(c.max_tokens, Some(2048));
    assert_eq!(AiClient::new_with_defaults(Some("k".to_string()), None).config.api_key, "k");
}
