use supaterm::ai::{AiClient, AiResponse, Config, ResponseType};
use supaterm::changes::{
    change_of, create_files, directories_of, ChangeType, DirOutcome, FileOutcome, ScaffoldFile,
};
use supaterm::diff::{parse_and_apply_diff, write_diff, DiffTag};
use supaterm::project::{
    inputs_for, needs_input, project_plan, report_without_input, reports_before_input, ScaffoldStatus, Step,
};
use supaterm::scaffold::{
    after_confirmation, cancel_message, merge_files, planned_file, scaffold_message, Confirmation,
    ScaffoldReply, Scaffolder,
};
use supaterm::template::{
    default_inputs, evaluate_condition, is_template_file, load_built_in_templates, process_template,
    process_variables, template_dir, user_template, ProjectTemplate, TemplateFile,
    TemplateQuestion, TemplateSource,
};

fn pairs(v: &[(&str, &str)]) -> Vec<(String, String)> {
    v.iter().map(|(a, b)| (a.to_string(), b.to_string())).collect()
}

fn scaffolder(dir: &str) -> Scaffolder {
    Scaffolder::new(
        AiClient::new(Config::from_env(None, None)),
        dir.to_string(),
        vec![custom("mine"), custom("rust-cli")],
    )
}

fn custom(name: &str) -> ProjectTemplate {
    ProjectTemplate {
        name: name.to_string(),
        description: "d".to_string(),
        files: vec![
            TemplateFile {
                path: "{{project_name}}.txt".to_string(),
                content: "{{project_name}} by {{author}}".to_string(),
                executable: false,
                condition: None,
            },
            TemplateFile {
                path: "bin/run".to_string(),
                content: "run".to_string(),
                executable: true,
                condition: Some("kind == cli".to_string()),
            },
        ],
        questions: vec![TemplateQuestion {
            id: "author".to_string(),
            question: "?".to_string(),
            default: None,
            question_type: supaterm::template::default_question_type(),
            options: vec![],
            help: None,
        }],
        source: TemplateSource::default(),
        dependencies: vec![],
        post_commands: vec!["git init".to_string(), "make".to_string()],
    }
}

#[test]
fn test_resolve_and_validate_path() {
    let s = scaffolder("/work");
    assert_eq!(s.resolve_and_validate_path("a/b.txt", None).unwrap(), "/work/a/b.txt");
    assert_eq!(s.resolve_and_validate_path("/work/x", None).unwrap(), "/work/x");
    assert_eq!(
        s.resolve_and_validate_path("a/../b.txt", Some("/work")).unwrap(),
        "/work/b.txt"
    );
    assert_eq!(
        s.resolve_and_validate_path("../secret", Some("/")).unwrap_err().message(),
        "Path is outside the current working directory: /secret"
    );
    assert!(s.resolve_and_validate_path("/workshop/x", None).is_err());
    assert!(s.resolve_and_validate_path("/etc/passwd", None).is_err());
    assert_eq!(s.full_path("a"), "/work/a");
    assert_eq!(s.full_path("/a"), "/a");
}

#[test]
fn templates_are_found_by_name() {
    let s = scaffolder("/work");
    assert_eq!(s.find_template("mine").unwrap().name, "mine");
    assert_eq!(s.find_template("rust-cli").unwrap().source, TemplateSource::BuiltIn);
    assert_eq!(s.find_template("rust-cli").unwrap().questions.len(), 2);
    assert!(s.find_template("other").is_none());
    assert_eq!(user_template(custom("x")).source, TemplateSource::UserDefined);
    assert!(is_template_file("/t/a.json", true));
    assert!(!is_template_file("/t/a.json", false));
    assert!(!is_template_file("/t/a.toml", true));
    assert_eq!(template_dir(Some("/cfg")), "/cfg/supaterm/templates");
    assert_eq!(template_dir(None), ".config/supaterm/templates");
}

#[test]
fn the_built_in_template() {
    let t = &load_built_in_templates()[0];
    assert_eq!(t.name, "rust-cli");
    assert_eq!(t.files[0].path, "Cargo.toml");
    assert!(t.files[0].content.contains("clap = { version = \"4.0\", features = [\"derive\"] }"));
    let files = process_template(t, &pairs(&[("description", "Tool")]), "demo");
    assert!(files[1].content.contains("/// Tool\n"));
    assert!(files[1].content.contains("println!(\"Hello from demo!\");"));
    assert_eq!(t.questions[0].default, Some("A command line tool".to_string()));
    assert_eq!(t.questions[1].id, "author");
}

#[test]
fn conditions_compare_inputs() {
    let inputs = pairs(&[("kind", "cli")]);
    assert!(evaluate_condition("kind == cli", &inputs));
    assert!(!evaluate_condition("kind == web", &inputs));
    assert!(!evaluate_condition("kind != cli", &inputs));
    assert!(evaluate_condition("kind != web", &inputs));
    assert!(evaluate_condition("other == x", &inputs));
    assert!(evaluate_condition("a == b == c", &inputs));
    assert!(evaluate_condition("anything", &inputs));
}

#[test]
fn placeholders_are_filled_in_order() {
    let inputs = pairs(&[("a", "{{b}}"), ("b", "x")]);
    assert_eq!(process_variables("{{a}} {{b}} {{project_name}} {{c}}", &inputs, "p"), "x x p {{c}}");
    assert_eq!(process_variables("no holes", &inputs, "p"), "no holes");
}

#[test]
fn a_project_is_made_step_by_step() {
    let t = custom("mine");
    let first = reports_before_input(&t, "mine");
    assert_eq!(first.len(), 2);
    assert_eq!(first[0].message, "Initializing project creation using 'mine' template");
    assert_eq!((first[1].status, first[1].percent), (ScaffoldStatus::CollectingInput, 10));
    let none = report_without_input();
    assert_eq!(none.status, ScaffoldStatus::Failed);
    assert_eq!(none.error, Some("Failed to receive user inputs".to_string()));

    let steps = project_plan(&t, "mine", "demo", "/work/demo", &pairs(&[("author", "me"), ("kind", "cli")]));
    let reports: Vec<(String, u8)> = steps
        .iter()
        .filter_map(|s| match s {
            Step::Report(p) => Some((p.message.clone(), p.percent)),
            _ => None,
        })
        .collect();
    assert_eq!(
        reports,
        vec![
            ("Processing template with user configuration...".to_string(), 30),
            ("Creating project files...".to_string(), 50),
            ("Creating file 1/2: demo.txt".to_string(), 50),
            ("Creating file 2/2: bin/run".to_string(), 70),
            ("Running post-creation commands...".to_string(), 90),
            ("Running command 1/2: git init".to_string(), 90),
            ("Running command 2/2: make".to_string(), 95),
            ("Project 'demo' created successfully using 'mine' template".to_string(), 100),
        ]
    );
    assert!(matches!(&steps[2], Step::MakeProjectDir { dir } if dir == "/work/demo"));
    assert!(matches!(&steps[3], Step::MakeParent { dir, .. } if dir == "/work/demo"));
    match &steps[5] {
        Step::WriteFile { path, content, executable, .. } => {
            assert_eq!(path, "/work/demo/demo.txt");
            assert_eq!(content, "demo by me");
            assert!(!executable);
        }
        other => panic!("{:?}", other),
    }
    assert!(matches!(&steps[8], Step::WriteFile { executable: true, .. }));
    assert_eq!(
        steps[2].failure_report("no").unwrap().message,
        "Failed to create project directory: no"
    );
    let parent = steps[6].failure_report("no").unwrap();
    assert_eq!(parent.message, "Failed to create directory /work/demo/bin: no");
    assert_eq!((parent.percent, parent.current_file), (70, Some("bin/run".to_string())));
    let file = steps[5].failure_report("no").unwrap();
    assert_eq!(file.message, "Failed to create file /work/demo/demo.txt: no");
    assert_eq!(file.error, Some("no".to_string()));
    assert!(steps[0].failure_report("no").is_none());
    assert!(steps.iter().any(|s| matches!(s, Step::Command { command, .. } if command == "make")));
}

#[test]
fn progress_stays_a_percentage_for_many_files() {
    let mut t = custom("many");
    t.files = (0..300)
        .map(|i| TemplateFile {
            path: format!("f{}", i),
            content: String::new(),
            executable: false,
            condition: None,
        })
        .collect();
    t.questions.clear();
    assert_eq!(reports_before_input(&t, "many").len(), 1);
    let steps = project_plan(&t, "many", "p", "/p", &vec![]);
    let mut last = 0;
    let mut writes = 0;
    for s in &steps {
        match s {
            Step::Report(p) => {
                assert!(p.percent >= last && p.percent <= 100);
                last = p.percent;
            }
            Step::WriteFile { .. } => writes += 1,
            _ => {}
        }
    }
    assert_eq!((last, writes), (100, 300));
}

#[test]
fn a_project_goes_to_its_directory() {
    let s = scaffolder("/work");
    let (t, dir) = s.generate_from_template("mine", "demo", None).unwrap();
    assert_eq!((t.name.as_str(), dir.as_str()), ("mine", "/work/demo"));
    let (_, dir) = s.generate_from_template("mine", "demo", Some(("sub/x", None))).unwrap();
    assert_eq!(dir, "/work/sub/x");
    assert_eq!(
        s.generate_from_template("nope", "demo", None).unwrap_err().message(),
        "Template not found: nope"
    );
    assert!(s.generate_from_template("mine", "demo", Some(("/etc", None))).is_err());
}

fn file(path: &str) -> ScaffoldFile {
    ScaffoldFile { path: path.to_string(), content: "c".to_string(), exists: false }
}

#[test]
fn files_are_made_after_their_directories() {
    let files = vec![file("/p/a"), file("/p/src/b"), file("/p//src/c"), file("/")];
    let dirs = directories_of(&files);
    assert_eq!(dirs, vec!["/p", "/p/src"]);
    let result = create_files(
        &files,
        &dirs,
        &vec![DirOutcome::Existed, DirOutcome::Created],
        &vec![
            (false, FileOutcome::Written),
            (true, FileOutcome::Written),
            (false, FileOutcome::Written),
            (false, FileOutcome::Written),
        ],
    );
    assert!(result.success);
    assert_eq!(result.summary, "Successfully created 5 files");
    assert_eq!(result.changes[0].change_type, ChangeType::CreateDir);
    assert_eq!(result.changes[1].change_type, ChangeType::Create);
    assert_eq!(result.changes[2].change_type, ChangeType::Modify);
    assert_eq!(
        scaffold_message(&result).content,
        "✅ Successfully scaffolded project: 5 files created/modified"
    );
    let result = create_files(
        &files[..1].to_vec(),
        &vec!["/p".to_string()],
        &vec![DirOutcome::Failed("denied".to_string())],
        &vec![(false, FileOutcome::NotOpened("gone".to_string()))],
    );
    assert!(!result.success);
    assert_eq!(result.summary, "Partial success: 0 of 2 operations succeeded");
    assert_eq!(
        result.changes[0].error,
        Some("Failed to create directory: denied".to_string())
    );
    let message = scaffold_message(&result);
    assert_eq!(
        message.content,
        "⚠️ Partial success in project scaffolding: 0 of 2 files processed"
    );
    assert_eq!(message.response_type, ResponseType::Scaffold);
    assert_eq!(cancel_message().content, "Project scaffolding cancelled by user.");
}

#[test]
fn each_failure_of_a_file_is_told() {
    let text = |o: FileOutcome| change_of("f", false, &o).error.unwrap();
    assert_eq!(text(FileOutcome::NotOpened("x".to_string())), "Failed to open file for writing: x");
    assert_eq!(text(FileOutcome::NotWritten("x".to_string())), "Failed to write to file: x");
    assert_eq!(text(FileOutcome::NotFlushed("x".to_string())), "Failed to flush file: x");
    assert!(change_of("f", false, &FileOutcome::Written).success);
}

#[test]
fn modified_files_are_noted_once() {
    let mut s = scaffolder("/work");
    assert!(s.create_file("/work/a", false, Ok(())).success);
    assert!(s.create_file("/work//a", true, Ok(())).success);
    assert!(s.apply_diff("/work/b", Ok(())).success);
    assert_eq!(s.get_modified_files(), vec!["/work/a", "/work/b"]);
    let c = s.create_file("/work/c", true, Err("full".to_string()));
    assert_eq!(c.error, Some("Failed to write file: full".to_string()));
    assert_eq!(c.change_type, ChangeType::Modify);
    assert_eq!(s.get_modified_files().len(), 2);
    let c = s.apply_diff("/work/c", Err("full".to_string()));
    assert_eq!((c.success, c.change_type), (false, ChangeType::ApplyDiff));
    let c = s.delete_file("/work/b", Err("busy".to_string()));
    assert_eq!(c.error, Some("Failed to delete file: busy".to_string()));
    assert!(s.delete_file("/work/./a", Ok(())).success);
    assert_eq!(s.get_modified_files(), vec!["/work/b"]);
    s.reset_modified_files();
    assert!(s.get_modified_files().is_empty());
}

#[test]
fn file_operations_are_refused_with_reasons() {
    assert_eq!(
        Scaffolder::read_file("/x", false).unwrap_err().message(),
        "File does not exist: /x"
    );
    assert!(Scaffolder::read_file("/x", true).is_ok());
    assert_eq!(
        Scaffolder::list_directory("/x", false, false).unwrap_err().message(),
        "Directory does not exist: /x"
    );
    assert_eq!(
        Scaffolder::list_directory("/x", true, false).unwrap_err().message(),
        "Path is not a directory: /x"
    );
    assert!(Scaffolder::list_directory("/x", true, true).is_ok());
    assert_eq!(
        Scaffolder::backup_file("/x", true, false).unwrap_err().message(),
        "Path is not a file: /x"
    );
    assert!(Scaffolder::backup_file("/x", false, false).is_err());
    let backup = Scaffolder::backup_file("/d/x.txt", true, true).unwrap();
    assert!(backup.starts_with("/d/x.txt.") && backup.ends_with(".bak"));
    assert_eq!(backup.len(), "/d/x.txt.".len() + 14 + ".bak".len());
    assert!(backup["/d/x.txt.".len()..backup.len() - 4].bytes().all(|b| b.is_ascii_digit()));
    assert_eq!(
        Scaffolder::refuse_delete("/x", false, false).unwrap().error,
        Some("File does not exist".to_string())
    );
    assert_eq!(
        Scaffolder::refuse_delete("/x", true, false).unwrap().error,
        Some("Path is not a file".to_string())
    );
    assert!(Scaffolder::refuse_delete("/x", true, true).is_none());
    assert_eq!(
        Scaffolder::create_directory("/x", Err("no".to_string())).error,
        Some("Failed to create directory: no".to_string())
    );
    assert!(Scaffolder::create_directory("/x", Ok(())).success);
    assert!(Scaffolder::file_exists(true, true) && !Scaffolder::file_exists(true, false));
    assert!(Scaffolder::directory_exists(true, true) && !Scaffolder::directory_exists(false, true));
    assert!(Scaffolder::verify_file("a", "a") && !Scaffolder::verify_file("a", "b"));
}

#[test]
fn the_working_directory_has_to_be_one() {
    let mut s = scaffolder("/work");
    assert!(s.set_working_directory("/new", true, true).is_ok());
    assert_eq!(s.current_dir, "/new");
    assert_eq!(
        s.set_working_directory("/x", false, false).unwrap_err().message(),
        "Directory does not exist: /x"
    );
    assert_eq!(
        s.set_working_directory("/x", true, false).unwrap_err().message(),
        "Path is not a directory: /x"
    );
    assert_eq!(s.current_dir, "/new");
}

#[test]
fn diffs_are_made_line_by_line() {
    assert!(Scaffolder::can_diff("a\nb\n", "a\nc\n"));
    assert_eq!(Scaffolder::generate_diff("a\nb\n", "a\nc\n"), " a\n-b\n+c\n");
    assert_eq!(Scaffolder::generate_diff("", "x\n"), "+x\n");
    assert_eq!(Scaffolder::generate_diff("same\n", "same\n"), " same\n");
    let big: String = (0..150).map(|i| format!("{}\n", i)).collect();
    let diff = Scaffolder::generate_diff(&big, &format!("{}new\n", big));
    assert!(diff.ends_with(" 149\n+new\n"));
    let changes = vec![
        (DiffTag::Delete, "x\n".to_string()),
        (DiffTag::Insert, "y\n".to_string()),
        (DiffTag::Equal, "z".to_string()),
    ];
    assert_eq!(write_diff(&changes), "-x\n+y\n z");
}

#[test]
fn diffs_give_back_both_texts() {
    for (a, b) in [("a\nb\nc", "a\nc\nd"), ("", ""), ("x\r\ny", "y\r\nx"), ("one\n", "")] {
        let diff = Scaffolder::generate_diff(a, b);
        assert_eq!(diff.is_empty(), a.is_empty() && b.is_empty());
        let old: String = sides(&diff, '+');
        let new: String = sides(&diff, '-');
        if a.ends_with('\n') && (b.is_empty() || b.ends_with('\n')) {
            assert_eq!((old.as_str(), new.as_str()), (a, b));
        }
    }
}

#[test]
fn diffs_of_many_texts_give_them_back() {
    let mut seed: u64 = 7;
    let mut next = |n: u64| {
        seed = seed.wrapping_mul(6364136223846793005).wrapping_add(1442695040888963407);
        (seed >> 33) % n
    };
    for round in 0..200 {
        let size = if round % 20 == 0 { 150 } else { 12 };
        let text = |next: &mut dyn FnMut(u64) -> u64| -> String {
            let n = next(size);
            (0..n).map(|_| format!("{}\n", next(5))).collect()
        };
        let a = text(&mut next);
        let b = text(&mut next);
        let diff = Scaffolder::generate_diff(&a, &b);
        assert_eq!(sides(&diff, '+'), a);
        assert_eq!(sides(&diff, '-'), b);
        assert_eq!(parse_and_apply_diff(&a, &diff), b);
        for (x, y) in [(a.trim_end(), b.as_str()), (a.as_str(), b.trim_end()), (a.trim_end(), b.trim_end())] {
            let diff = Scaffolder::generate_diff(x, y);
            assert_eq!(parse_and_apply_diff(x, &diff), y);
        }
    }
}

fn sides(diff: &str, without: char) -> String {
    diff.split_inclusive('\n')
        .filter(|l| !l.starts_with(without))
        .map(|l| l[1..].to_string())
        .collect()
}

#[test]
fn no_path_climbs_out_of_the_working_directory() {
    let s = scaffolder("/w");
    assert_eq!(
        s.resolve_and_validate_path("nope/../../etc/x", None).unwrap_err().message(),
        "Path is outside the current working directory: /w/nope/../../etc/x"
    );
    assert!(s.resolve_and_validate_path("..", None).is_err());
    assert!(s.resolve_and_validate_path("a/./..//../b", None).is_err());
    assert!(s.resolve_and_validate_path("/w/../w2/x", None).is_err());
    assert_eq!(s.resolve_and_validate_path("a/../b", None).unwrap(), "/w/a/../b");
    assert_eq!(s.resolve_and_validate_path("../w/b", None).unwrap(), "/w/../w/b");
    assert_eq!(s.resolve_and_validate_path("a..b/..c", None).unwrap(), "/w/a..b/..c");
    assert!(scaffolder("").resolve_and_validate_path("../x", None).is_err());
    assert!(scaffolder(".").resolve_and_validate_path("../x", None).is_err());
    assert!(scaffolder("..").resolve_and_validate_path("../x", None).is_err());
    assert!(scaffolder("..").resolve_and_validate_path("x", None).is_ok());
    assert!(scaffolder("/").resolve_and_validate_path("../x", None).is_ok());
}

#[test]
fn the_built_in_manifest_is_filled_in() {
    let t = &load_built_in_templates()[0];
    let inputs = default_inputs(t, Some("A tool"));
    assert_eq!(inputs, pairs(&[("description", "A tool"), ("author", "")]));
    assert_eq!(default_inputs(t, None)[0].1, "A command line tool");
    let files = process_template(t, &pairs(&[("description", "D"), ("author", "Me")]), "demo");
    assert_eq!(files[0].path, "Cargo.toml");
    assert_eq!(
        files[0].content,
        "[package]\nname = \"demo\"\nversion = \"0.1.0\"\nedition = \"2021\"\ndescription = \"D\"\nauthors = [\"Me\"]\n\n[dependencies]\nclap = { version = \"4.0\", features = [\"derive\"] }\nanyhow = \"1.0\"\n"
    );
    assert!(files[1].content.contains("Hello from demo!"));
}

#[test]
fn a_template_without_questions_needs_no_input() {
    let mut t = custom("mine");
    assert!(needs_input(&t));
    assert_eq!(inputs_for(&t, None), None);
    assert_eq!(inputs_for(&t, Some(pairs(&[("a", "b")]))), Some(pairs(&[("a", "b")])));
    t.questions.clear();
    assert!(!needs_input(&t));
    assert_eq!(inputs_for(&t, None), Some(vec![]));
}

#[test]
fn an_answer_decides_about_the_files() {
    assert_eq!(after_confirmation(Some(true)), Confirmation::MakeFiles);
    assert_eq!(after_confirmation(Some(false)), Confirmation::Cancel);
    assert_eq!(after_confirmation(None), Confirmation::Leave);
}

#[test]
fn generated_diffs_can_be_applied() {
    let texts = [
        "", "a", "b", "a\n", "a\nb", "a\nc", "x\ny\n", "x\nz\n", "-- a\n++ b\n", "-- a\n", "+++\n---\n",
        "a\r\nb\rc\n", "a\rb\n", "\n\n", "@@ -1 @@\n", " \n", "a\nb\na\nb\n", "b\na\nb",
    ];
    for a in texts {
        for b in texts {
            let diff = Scaffolder::generate_diff(a, b);
            assert_eq!(parse_and_apply_diff(a, &diff), b, "{:?} {:?} {:?}", a, b, diff);
        }
        let same = Scaffolder::generate_diff(a, a);
        assert!(same.is_empty() || same.starts_with(' '));
    }
    assert_eq!(Scaffolder::generate_diff("x\ny\n", "x\nz\n"), " x\n-y\n+z\n");
    assert_eq!(Scaffolder::generate_diff("a\nb", "a\nc"), " a\n-b+c");
}

#[test]
fn diffs_are_applied() {
    assert_eq!(parse_and_apply_diff("x\ny\n", " x\n-y\n+z\n"), "x\nz\n");
    assert_eq!(parse_and_apply_diff("a\nb\nc\n", "--- o\n+++ n\n@@\n a\n-b\n+x"), "a\nx\nc\n");
    assert_eq!(parse_and_apply_diff("aa\na\n", "-a"), "aa\n");
    assert_eq!(parse_and_apply_diff("text", ""), "text");
    assert_eq!(parse_and_apply_diff("text\n", "+one\n+two"), "text\none\ntwo\n");
    assert_eq!(parse_and_apply_diff("text", "+one"), "text\none\n");
    assert_eq!(parse_and_apply_diff("text", "-missing\n+new"), "text\nnew\n");
    let file = "1\n2\n3\n4\n5\n6\n7\n";
    let hunks = "--- a\n+++ b\n@@ -1,2 +1,3 @@\n+0\n 1\n 2\n@@ -5,3 +6,3 @@\n 5\n-6\n+six\n 7\n";
    assert_eq!(parse_and_apply_diff(file, hunks), "0\n1\n2\n3\n4\n5\nsix\n7\n");
    assert_eq!(parse_and_apply_diff("a\r\nb\r\n", "@@\n a\n-b\n+c"), "a\r\nc\n");
}

#[test]
fn messages_are_formatted() {
    assert_eq!(Scaffolder::format_error_message("x"), "⚠️ File operation error: x");
    assert_eq!(Scaffolder::format_success_message("x"), "✅ x");
}

fn chunk(content: &str, kind: ResponseType) -> AiResponse {
    AiResponse { content: content.to_string(), is_chunk: true, response_type: kind, tokens: None }
}

#[test]
fn proposed_files_are_collected() {
    let mut reply = ScaffoldReply::new();
    let parts = [
        ("{\"files\":[{\"path\":\"a\",\"content\":\"1\"}]", ResponseType::Scaffold),
        ("}", ResponseType::General),
        ("", ResponseType::Scaffold),
        ("", ResponseType::Scaffold),
    ];
    for (i, (text, kind)) in parts.into_iter().enumerate() {
        let c = chunk(text, kind);
        assert!(reply.can_take(&c));
        reply.take(&c);
        assert_eq!(reply.files.len(), if i < 2 { 0 } else { 1 });
    }
    assert_eq!(reply.files, pairs(&[("a", "1")]));
    let mut other = ScaffoldReply::new();
    assert!(!other.can_take(&chunk("} {", ResponseType::Scaffold)));
    assert!(other.can_take(&chunk("} {", ResponseType::General)));
    other.take(&chunk("not json }", ResponseType::Scaffold));
    assert!(other.files.is_empty());
}

#[test]
fn the_first_proposal_of_a_path_stays() {
    let mut files = pairs(&[("a", "1")]);
    merge_files(&mut files, pairs(&[("a", "2"), ("b", "3"), ("b", "4")]));
    assert_eq!(files, pairs(&[("a", "1"), ("b", "3")]));
    let f = planned_file("/work", "src/x", "c", true);
    assert_eq!((f.path.as_str(), f.content.as_str(), f.exists), ("/work/src/x", "c", true));
}
