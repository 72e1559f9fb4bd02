# SupaTerm

SupaTerm is a light terminal for Linux with an assistant: it emulates a
terminal, records and replays sessions, exports and shares them, asks an
assistant for completions, error analyses and diffs, and makes projects from
templates or from what the assistant proposes.

`src/` is the library. Everything in it is written in Verus, with contracts that
say what each function returns or changes.

| Module | What it holds |
| --- | --- |
| `text`, `table`, `paths`, `time` | text, small tables, Unix paths and moments |
| `terminal` | the handler of control sequences, terminal sizes, the shell |
| `session`, `export` | recording, listing, replaying, exporting and sharing |
| `json`, `ai` | JSON documents, requests to the assistant and its replies |
| `template`, `project` | templates and their questions, and the steps that make a project of one |
| `changes`, `diff`, `scaffold` | changes to files, diffs, and the scaffolder |
| `tui` | what each key does, and what is shown |
| `utils` | configuration, errors, formatting, environment, stand-ins for tests |

A contract speaks of what a value holds (its view), and the `law_` functions
state what holds of several functions together.

`app/` is the program around the library: it parses the command line, reads and
writes files, runs the shell in a pseudo terminal, draws the screen and talks to
the assistant over the network. Floating-point numbers (the speed of a replay,
the duration in the header of an asciicast, the temperature of a request) live
there too.

`tests/` runs the library on examples.

## What is trusted

The library calls a few functions of other crates behind small wrappers whose
contracts are believed without proof. Each says above it what it claims:
`chrono` for moments as text and the clock, `uuid` for random tags,
`htmlescape` and `base64` for exported and shared sessions, `serde_json` for
documents, `similar` for diffs, and `std::str::from_utf8` and `String::push`.

## Use

```
supaterm [--shell <shell>] [--api_key <key>] [--config <path>] [--workdir <path>] [--log_level <level>]
supaterm new <name> [--description <text>]
```

`OPENAI_API_KEY` and, if wanted, `OPENAI_ORG_ID` name the account that the
assistant is asked with. The configuration is TOML:

```toml
[terminal]
shell = "/bin/bash"

[ai]
api_key = ""
model = "gpt-4"
org_id = ""
max_tokens = 2048
temperature = 0.7
```
