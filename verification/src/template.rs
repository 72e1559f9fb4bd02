//! Project templates: what they hold, how their questions are answered by
//! default, and how their placeholders are filled in.

use vstd::prelude::*;
use crate::paths;
use crate::session;
use crate::table;
use crate::text;

verus! {

/// Template source type.
#[derive(Debug, Clone, Copy, PartialEq, Eq, Structural)]
pub enum TemplateSource {
    /// Built-in template.
    BuiltIn,
    /// User-defined template.
    UserDefined,
    /// Generated from AI.
    Generated,
}

impl Default for TemplateSource {
    fn default() -> (r: Self)
        ensures
            r == TemplateSource::BuiltIn,
    {
        TemplateSource::BuiltIn
    }
}

/// Template file definition.
#[derive(Debug)]
pub struct TemplateFile {
    /// Path to the file (relative to project root).
    pub path: String,
    /// Content template with placeholders.
    pub content: String,
    /// Whether this file should be executable.
    pub executable: bool,
    /// Condition for including this file.
    pub condition: Option<String>,
}

/// What a `TemplateFile` holds.
pub struct FileView {
    pub path: Seq<char>,
    pub content: Seq<char>,
    pub executable: bool,
    pub condition: Option<Seq<char>>,
}

impl View for TemplateFile {
    type V = FileView;

    open spec fn view(&self) -> FileView {
        FileView {
            path: self.path@,
            content: self.content@,
            executable: self.executable,
            condition: session::opt_view(self.condition),
        }
    }
}

/// A copy of an optional string.
fn copy_opt(s: &Option<String>) -> (r: Option<String>)
    ensures
        session::opt_view(r) == session::opt_view(*s),
{
    match s {
        Some(t) => Some(t.clone()),
        None => None,
    }
}

impl Clone for TemplateFile {
    fn clone(&self) -> (r: Self)
        ensures
            r@ == self@,
    {
        TemplateFile {
            path: self.path.clone(),
            content: self.content.clone(),
            executable: self.executable,
            condition: copy_opt(&self.condition),
        }
    }
}

/// What a list of files holds.
pub open spec fn file_views(v: Seq<TemplateFile>) -> Seq<FileView> {
    v.map_values(|f: TemplateFile| f@)
}

/// Question to ask when configuring a template.
#[derive(Debug)]
pub struct TemplateQuestion {
    /// ID of this question for variable substitution.
    pub id: String,
    /// Human-readable question text.
    pub question: String,
    /// Default value if user doesn't provide input.
    pub default: Option<String>,
    /// Type of question (text, boolean, select).
    pub question_type: String,
    /// Options for select-type questions.
    pub options: Vec<String>,
    /// Help text explaining this question.
    pub help: Option<String>,
}

/// What a `TemplateQuestion` holds.
pub struct QuestionView {
    pub id: Seq<char>,
    pub question: Seq<char>,
    pub default: Option<Seq<char>>,
    pub question_type: Seq<char>,
    pub options: Seq<Seq<char>>,
    pub help: Option<Seq<char>>,
}

impl View for TemplateQuestion {
    type V = QuestionView;

    open spec fn view(&self) -> QuestionView {
        QuestionView {
            id: self.id@,
            question: self.question@,
            default: session::opt_view(self.default),
            question_type: self.question_type@,
            options: text::views(self.options@),
            help: session::opt_view(self.help),
        }
    }
}

impl Clone for TemplateQuestion {
    fn clone(&self) -> (r: Self)
        ensures
            r@ == self@,
    {
        TemplateQuestion {
            id: self.id.clone(),
            question: self.question.clone(),
            default: copy_opt(&self.default),
            question_type: self.question_type.clone(),
            options: table::copy_strings(&self.options),
            help: copy_opt(&self.help),
        }
    }
}

/// What a list of questions holds.
pub open spec fn question_views(v: Seq<TemplateQuestion>) -> Seq<QuestionView> {
    v.map_values(|q: TemplateQuestion| q@)
}

/// The type of a question that does not name one.
pub fn default_question_type() -> (r: String)
    ensures
        r@ == "text"@,
{
    "text".to_owned()
}

/// Project template definition.
#[derive(Debug)]
pub struct ProjectTemplate {
    /// Name of the template.
    pub name: String,
    /// Description of the template.
    pub description: String,
    /// Template files.
    pub files: Vec<TemplateFile>,
    /// Configuration questions to ask.
    pub questions: Vec<TemplateQuestion>,
    /// Source of this template.
    pub source: TemplateSource,
    /// Dependencies for this template.
    pub dependencies: Vec<String>,
    /// Commands to run after project creation.
    pub post_commands: Vec<String>,
}

/// What a `ProjectTemplate` holds.
pub struct TemplateView {
    pub name: Seq<char>,
    pub description: Seq<char>,
    pub files: Seq<FileView>,
    pub questions: Seq<QuestionView>,
    pub source: TemplateSource,
    pub dependencies: Seq<Seq<char>>,
    pub post_commands: Seq<Seq<char>>,
}

impl View for ProjectTemplate {
    type V = TemplateView;

    open spec fn view(&self) -> TemplateView {
        TemplateView {
            name: self.name@,
            description: self.description@,
            files: file_views(self.files@),
            questions: question_views(self.questions@),
            source: self.source,
            dependencies: text::views(self.dependencies@),
            post_commands: text::views(self.post_commands@),
        }
    }
}

/// A copy of a list of files.
fn copy_files(files: &Vec<TemplateFile>) -> (r: Vec<TemplateFile>)
    ensures
        file_views(r@) == file_views(files@),
{
    let mut out: Vec<TemplateFile> = Vec::new();
    let mut i: usize = 0;
    assert(file_views(out@) =~= file_views(files@.take(0)));
    while i < files.len()
        invariant
            i <= files@.len(),
            file_views(out@) == file_views(files@.take(i as int)),
        decreases files@.len() - i,
    {
        let ghost before = file_views(out@);
        out.push(files[i].clone());
        proof {
            assert(file_views(out@) =~= before.push(files@[i as int]@));
            assert(file_views(files@.take(i + 1)) =~= file_views(files@.take(i as int)).push(
                files@[i as int]@,
            ));
        }
        i += 1;
    }
    assert(files@.take(i as int) =~= files@);
    out
}

/// A copy of a list of questions.
fn copy_questions(questions: &Vec<TemplateQuestion>) -> (r: Vec<TemplateQuestion>)
    ensures
        question_views(r@) == question_views(questions@),
{
    let mut out: Vec<TemplateQuestion> = Vec::new();
    let mut i: usize = 0;
    assert(question_views(out@) =~= question_views(questions@.take(0)));
    while i < questions.len()
        invariant
            i <= questions@.len(),
            question_views(out@) == question_views(questions@.take(i as int)),
        decreases questions@.len() - i,
    {
        let ghost before = question_views(out@);
        out.push(questions[i].clone());
        proof {
            assert(question_views(out@) =~= before.push(questions@[i as int]@));
            assert(question_views(questions@.take(i + 1)) =~= question_views(
                questions@.take(i as int),
            ).push(questions@[i as int]@));
        }
        i += 1;
    }
    assert(questions@.take(i as int) =~= questions@);
    out
}

impl Clone for ProjectTemplate {
    fn clone(&self) -> (r: Self)
        ensures
            r@ == self@,
    {
        ProjectTemplate {
            name: self.name.clone(),
            description: self.description.clone(),
            files: copy_files(&self.files),
            questions: copy_questions(&self.questions),
            source: self.source,
            dependencies: table::copy_strings(&self.dependencies),
            post_commands: table::copy_strings(&self.post_commands),
        }
    }
}

// The templates that come with the program.

/// The manifest of the command line template.
pub const CLI_MANIFEST: &'static str = "[package]\nname = \"{{project_name}}\"\nversion = \"0.1.0\"\nedition = \"2021\"\ndescription = \"{{description}}\"\nauthors = [\"{{author}}\"]\n\n[dependencies]\nclap = { version = \"4.0\", features = [\"derive\"] }\nanyhow = \"1.0\"\n";

/// The program of the command line template.
pub const CLI_MAIN: &'static str = "use anyhow::Result;\nuse clap::Parser;\n\n/// {{description}}\n#[derive(Parser, Debug)]\n#[clap(version, about)]\nstruct Args {\n    /// Input file\n    #[clap(short, long)]\n    input: Option<String>,\n}\n\nfn main() -> Result<()> {\n    let args = Args::parse();\n    println!(\"Hello from {{project_name}}!\");\n    \n    if let Some(input) = args.input {\n        println!(\"Input file: {}\", input);\n    }\n    \n    Ok(())\n}\n";

/// The command line template.
pub open spec fn cli_template() -> TemplateView {
    TemplateView {
        name: "rust-cli"@,
        description: "Basic Rust CLI application"@,
        files: seq![
            FileView {
                path: "Cargo.toml"@,
                content: CLI_MANIFEST@,
                executable: false,
                condition: None,
            },
            FileView {
                path: "src/main.rs"@,
                content: CLI_MAIN@,
                executable: false,
                condition: None,
            },
        ],
        questions: seq![
            QuestionView {
                id: "description"@,
                question: "Project description"@,
                default: Some("A command line tool"@),
                question_type: "text"@,
                options: seq![],
                help: None,
            },
            QuestionView {
                id: "author"@,
                question: "Author name"@,
                default: None,
                question_type: "text"@,
                options: seq![],
                help: None,
            },
        ],
        source: TemplateSource::BuiltIn,
        dependencies: seq![],
        post_commands: seq![],
    }
}

/// What a list of templates holds.
pub open spec fn template_views(v: Seq<ProjectTemplate>) -> Seq<TemplateView> {
    v.map_values(|t: ProjectTemplate| t@)
}

/// The templates that come with the program.
pub fn load_built_in_templates() -> (r: Vec<ProjectTemplate>)
    ensures
        template_views(r@) == seq![cli_template()],
{
    let mut files: Vec<TemplateFile> = Vec::new();
    files.push(
        TemplateFile {
            path: "Cargo.toml".to_owned(),
            content: CLI_MANIFEST.to_owned(),
            executable: false,
            condition: None,
        },
    );
    files.push(
        TemplateFile {
            path: "src/main.rs".to_owned(),
            content: CLI_MAIN.to_owned(),
            executable: false,
            condition: None,
        },
    );
    let mut questions: Vec<TemplateQuestion> = Vec::new();
    questions.push(
        TemplateQuestion {
            id: "description".to_owned(),
            question: "Project description".to_owned(),
            default: Some("A command line tool".to_owned()),
            question_type: "text".to_owned(),
            options: Vec::new(),
            help: None,
        },
    );
    questions.push(
        TemplateQuestion {
            id: "author".to_owned(),
            question: "Author name".to_owned(),
            default: None,
            question_type: "text".to_owned(),
            options: Vec::new(),
            help: None,
        },
    );
    let template = ProjectTemplate {
        name: "rust-cli".to_owned(),
        description: "Basic Rust CLI application".to_owned(),
        files,
        questions,
        source: TemplateSource::BuiltIn,
        dependencies: Vec::new(),
        post_commands: Vec::new(),
    };
    proof {
        assert(text::views(Seq::empty()) =~= seq![]);
        assert(template@.files =~= cli_template().files);
        assert(template@.questions =~= cli_template().questions);
        assert(template@ == cli_template());
    }
    let mut templates: Vec<ProjectTemplate> = Vec::new();
    templates.push(template);
    assert(template_views(templates@) =~= seq![cli_template()]);
    templates
}

/// The first template with a name.
pub open spec fn template_named(v: Seq<TemplateView>, name: Seq<char>) -> Option<TemplateView>
    decreases v.len(),
{
    if v.len() == 0 {
        None
    } else if v.first().name == name {
        Some(v.first())
    } else {
        template_named(v.drop_first(), name)
    }
}

/// Finds the first template with a name.
pub fn find_among(templates: &Vec<ProjectTemplate>, name: &str) -> (r: Option<ProjectTemplate>)
    ensures
        match r {
            Some(t) => template_named(template_views(templates@), name@) == Some(t@),
            None => template_named(template_views(templates@), name@) is None,
        },
{
    let ghost all = template_views(templates@);
    let mut i: usize = 0;
    assert(all.skip(0) =~= all);
    while i < templates.len()
        invariant
            i <= templates@.len(),
            all == template_views(templates@),
            template_named(all.skip(i as int), name@) == template_named(all, name@),
        decreases templates@.len() - i,
    {
        assert(all.skip(i as int).first() == templates@[i as int]@);
        if text::same_text(templates[i].name.as_str(), name) {
            return Some(templates[i].clone());
        }
        assert(all.skip(i as int).drop_first() =~= all.skip(i + 1));
        i += 1;
    }
    assert(all.skip(i as int).len() == 0);
    None
}

/// Takes over a template read from the directory of the user's templates.
pub fn user_template(read: ProjectTemplate) -> (r: ProjectTemplate)
    ensures
        r@ == (TemplateView { source: TemplateSource::UserDefined, ..read@ }),
{
    let mut t = read;
    t.source = TemplateSource::UserDefined;
    t
}

/// Whether a file found in the directory of the user's templates is one.
pub fn is_template_file(path: &str, is_file: bool) -> (r: bool)
    ensures
        r == (is_file && paths::extension(path@) == Some("json"@)),
{
    if !is_file {
        return false;
    }
    match paths::extension_of(path) {
        Some(ext) => text::same_text(ext.as_str(), "json"),
        None => false,
    }
}

/// The directory of the user's templates, below the configuration directory,
/// or below `.config` where that is not known.
pub fn template_dir(config_dir: Option<&str>) -> (r: String)
    ensures
        r@ == paths::join(
            paths::join(
                match config_dir {
                    Some(d) => d@,
                    None => ".config"@,
                },
                "supaterm"@,
            ),
            "templates"@,
        ),
{
    let base = match config_dir {
        Some(d) => d,
        None => ".config",
    };
    paths::join_paths(paths::join_paths(base, "supaterm").as_str(), "templates")
}

// Conditions and placeholders.

/// The two sides of a condition, around `op`; none where there are not
/// exactly two.
pub open spec fn sides(condition: Seq<char>, op: Seq<char>) -> Option<(Seq<char>, Seq<char>)> {
    let parts = text::split(condition, op);
    if parts.len() == 2 {
        Some((text::trim(parts[0]), text::trim(parts[1])))
    } else {
        None
    }
}

/// Whether a condition holds. A condition is `variable == value` or
/// `variable != value`; one that cannot be told holds.
pub open spec fn holds(condition: Seq<char>, inputs: Seq<(Seq<char>, Seq<char>)>) -> bool {
    if text::contains(condition, "=="@) {
        match sides(condition, "=="@) {
            Some((variable, value)) => match table::lookup(inputs, variable) {
                Some(input) => input == value,
                None => true,
            },
            None => true,
        }
    } else if text::contains(condition, "!="@) {
        match sides(condition, "!="@) {
            Some((variable, value)) => match table::lookup(inputs, variable) {
                Some(input) => input != value,
                None => true,
            },
            None => true,
        }
    } else {
        true
    }
}

/// The placeholder for a variable.
pub open spec fn placeholder(variable: Seq<char>) -> Seq<char> {
    "{{"@ + variable + "}}"@
}

/// A text with the placeholders of some variables filled in, one after the
/// other.
pub open spec fn filled(s: Seq<char>, inputs: Seq<(Seq<char>, Seq<char>)>) -> Seq<char>
    decreases inputs.len(),
{
    if inputs.len() == 0 {
        s
    } else {
        text::replace(
            filled(s, inputs.drop_last()),
            placeholder(inputs.last().0),
            inputs.last().1,
        )
    }
}

/// A text with the project name and then the inputs filled in.
pub open spec fn processed(
    s: Seq<char>,
    inputs: Seq<(Seq<char>, Seq<char>)>,
    project_name: Seq<char>,
) -> Seq<char> {
    filled(text::replace(s, "{{project_name}}"@, project_name), inputs)
}

/// Whether a file of a template is made.
pub open spec fn is_made(f: FileView, inputs: Seq<(Seq<char>, Seq<char>)>) -> bool {
    match f.condition {
        Some(c) => holds(c, inputs),
        None => true,
    }
}

/// A file as it is made.
pub open spec fn made(
    f: FileView,
    inputs: Seq<(Seq<char>, Seq<char>)>,
    project_name: Seq<char>,
) -> FileView {
    FileView {
        path: processed(f.path, inputs, project_name),
        content: processed(f.content, inputs, project_name),
        executable: f.executable,
        condition: None,
    }
}

/// The files that a template makes.
pub open spec fn made_files(
    files: Seq<FileView>,
    inputs: Seq<(Seq<char>, Seq<char>)>,
    project_name: Seq<char>,
) -> Seq<FileView>
    decreases files.len(),
{
    if files.len() == 0 {
        seq![]
    } else {
        let rest = made_files(files.drop_last(), inputs, project_name);
        if is_made(files.last(), inputs) {
            rest.push(made(files.last(), inputs, project_name))
        } else {
            rest
        }
    }
}

/// What the two sides of a condition say of the inputs: whether the variable
/// has the value, if it can be told.
fn compare_sides(condition: &str, op: &str, inputs: &Vec<(String, String)>) -> (r: Option<bool>)
    requires
        op@.len() > 0,
    ensures
        r == match sides(condition@, op@) {
            Some((variable, value)) => match table::lookup(table::entries(inputs@), variable) {
                Some(input) => Some(input == value),
                None => None,
            },
            None => None,
        },
{
    let parts = text::str_split(condition, op);
    if parts.len() != 2 {
        return None;
    }
    assert(text::views(parts@)[0] == parts@[0]@ && text::views(parts@)[1] == parts@[1]@);
    let variable = text::str_trim(parts[0].as_str());
    let value = text::str_trim(parts[1].as_str());
    match table::find(inputs, variable.as_str()) {
        Some(input) => Some(text::same_text(input.as_str(), value.as_str())),
        None => None,
    }
}

/// Evaluates a condition expression.
pub fn evaluate_condition(condition: &str, user_inputs: &Vec<(String, String)>) -> (r: bool)
    ensures
        r == holds(condition@, table::entries(user_inputs@)),
{
    proof {
        reveal_strlit("==");
        reveal_strlit("!=");
    }
    if text::str_contains(condition, "==") {
        if let Some(equal) = compare_sides(condition, "==", user_inputs) {
            return equal;
        }
    } else if text::str_contains(condition, "!=") {
        if let Some(equal) = compare_sides(condition, "!=", user_inputs) {
            return !equal;
        }
    }
    true
}

/// Processes template variables in a string: the project name first, then the
/// inputs in their order.
pub fn process_variables(
    s: &str,
    user_inputs: &Vec<(String, String)>,
    project_name: &str,
) -> (r: String)
    ensures
        r@ == processed(s@, table::entries(user_inputs@), project_name@),
{
    let ghost all = table::entries(user_inputs@);
    let ghost start = text::replace(s@, "{{project_name}}"@, project_name@);
    let mut result = text::str_replace(s, "{{project_name}}", project_name);
    let mut i: usize = 0;
    assert(all.take(0) =~= seq![]);
    while i < user_inputs.len()
        invariant
            i <= user_inputs@.len(),
            all == table::entries(user_inputs@),
            result@ == filled(start, all.take(i as int)),
        decreases user_inputs@.len() - i,
    {
        proof {
            assert(all.take(i + 1).drop_last() =~= all.take(i as int));
            assert(all.take(i + 1).last() == (
                user_inputs@[i as int].0@,
                user_inputs@[i as int].1@,
            ));
        }
        let hole = "{{".to_owned().concat(user_inputs[i].0.as_str()).concat("}}");
        result = text::str_replace(result.as_str(), hole.as_str(), user_inputs[i].1.as_str());
        i += 1;
    }
    assert(all.take(i as int) =~= all);
    result
}

/// Processes a template with user inputs: the files to make.
pub fn process_template(
    template: &ProjectTemplate,
    user_inputs: &Vec<(String, String)>,
    project_name: &str,
) -> (r: Vec<TemplateFile>)
    ensures
        file_views(r@) == made_files(
            template@.files,
            table::entries(user_inputs@),
            project_name@,
        ),
{
    let ghost all = file_views(template.files@);
    let ghost inputs = table::entries(user_inputs@);
    let mut out: Vec<TemplateFile> = Vec::new();
    let mut i: usize = 0;
    assert(all.take(0) =~= seq![]);
    assert(file_views(out@) =~= made_files(all.take(0), inputs, project_name@));
    while i < template.files.len()
        invariant
            i <= template.files@.len(),
            all == file_views(template.files@),
            inputs == table::entries(user_inputs@),
            file_views(out@) == made_files(all.take(i as int), inputs, project_name@),
        decreases template.files@.len() - i,
    {
        let file = &template.files[i];
        let ghost before = file_views(out@);
        proof {
            assert(all.take(i + 1).drop_last() =~= all.take(i as int));
            assert(all.take(i + 1).last() == file@);
        }
        let wanted = match &file.condition {
            Some(c) => evaluate_condition(c.as_str(), user_inputs),
            None => true,
        };
        if wanted {
            let f = TemplateFile {
                path: process_variables(file.path.as_str(), user_inputs, project_name),
                content: process_variables(file.content.as_str(), user_inputs, project_name),
                executable: file.executable,
                condition: None,
            };
            let ghost v = f@;
            out.push(f);
            assert(file_views(out@) =~= before.push(v));
        }
        i += 1;
    }
    assert(all.take(i as int) =~= all);
    out
}

/// The answer to a question where nobody is asked: the description that is
/// given for the project, or else the default.
pub open spec fn default_answer(q: QuestionView, description: Option<&str>) -> Seq<char> {
    if q.id == "description"@ && description is Some {
        description->Some_0@
    } else {
        match q.default {
            Some(d) => d,
            None => seq![],
        }
    }
}

/// The answers to the questions of a template where nobody is asked.
pub fn default_inputs(t: &ProjectTemplate, description: Option<&str>) -> (r: Vec<(String, String)>)
    ensures
        table::entries(r@) == t@.questions.map_values(
            |q: QuestionView| (q.id, default_answer(q, description)),
        ),
{
    let ghost all = t@.questions.map_values(
        |q: QuestionView| (q.id, default_answer(q, description)),
    );
    let mut out: Vec<(String, String)> = Vec::new();
    let mut i: usize = 0;
    assert(table::entries(out@) =~= all.take(0));
    while i < t.questions.len()
        invariant
            i <= t.questions@.len(),
            all == t@.questions.map_values(
                |q: QuestionView| (q.id, default_answer(q, description)),
            ),
            table::entries(out@) == all.take(i as int),
        decreases t.questions@.len() - i,
    {
        let ghost before = table::entries(out@);
        let q = &t.questions[i];
        assert(t@.questions[i as int] == q@);
        let given = match description {
            Some(d) => if text::same_text(q.id.as_str(), "description") {
                Some(d)
            } else {
                None
            },
            None => None,
        };
        let answer = match given {
            Some(d) => d.to_owned(),
            None => match &q.default {
                Some(d) => d.clone(),
                None => String::new(),
            },
        };
        let ghost a = (q.id@, answer@);
        assert(answer@ =~= default_answer(q@, description));
        out.push((q.id.clone(), answer));
        assert(table::entries(out@) =~= before.push(a));
        assert(all.take(i + 1) =~= all.take(i as int).push(all[i as int]));
        i += 1;
    }
    assert(all.take(i as int) =~= all);
    out
}

// Laws.

/// A text that another text does not occur in is not changed by replacing it.
proof fn lemma_replace_nothing(s: Seq<char>, from: Seq<char>, to: Seq<char>)
    requires
        !text::contains(s, from),
    ensures
        text::replace(s, from, to) == s,
    decreases s.len(),
{
    if s.len() > 0 && from.len() > 0 {
        assert(!text::occurs_at(s, from, 0));
        let t = s.drop_first();
        assert(!text::contains(t, from)) by {
            if text::contains(t, from) {
                let i = choose|i: int| text::occurs_at(t, from, i);
                assert(s.subrange(i + 1, i + 1 + from.len()) =~= t.subrange(i, i + from.len()));
                assert(text::occurs_at(s, from, i + 1));
            }
        }
        lemma_replace_nothing(t, from, to);
        assert(seq![s.first()] + t =~= s);
    }
}

/// A text without opening braces holds no placeholder.
proof fn lemma_no_placeholder(s: Seq<char>, variable: Seq<char>)
    requires
        !text::contains(s, "{{"@),
    ensures
        !text::contains(s, placeholder(variable)),
{
    if text::contains(s, placeholder(variable)) {
        let p = placeholder(variable);
        let i = choose|i: int| text::occurs_at(s, p, i);
        let n = "{{"@.len() as int;
        assert(p.subrange(0, n) =~= "{{"@);
        assert(s.subrange(i, i + n) =~= s.subrange(i, i + p.len()).subrange(0, n));
        assert(text::occurs_at(s, "{{"@, i));
    }
}

/// A text without opening double braces stays as it is, whatever the inputs
/// and the name of the project.
pub proof fn law_text_without_placeholders_stays(
    s: Seq<char>,
    inputs: Seq<(Seq<char>, Seq<char>)>,
    project_name: Seq<char>,
)
    requires
        !text::contains(s, "{{"@),
    ensures
        processed(s, inputs, project_name) == s,
    decreases inputs.len(),
{
    reveal_strlit("{{project_name}}");
    reveal_strlit("{{");
    reveal_strlit("}}");
    reveal_strlit("project_name");
    assert("{{project_name}}"@ =~= placeholder("project_name"@));
    lemma_no_placeholder(s, "project_name"@);
    lemma_replace_nothing(s, "{{project_name}}"@, project_name);
    if inputs.len() > 0 {
        law_text_without_placeholders_stays(s, inputs.drop_last(), project_name);
        lemma_no_placeholder(s, inputs.last().0);
        lemma_replace_nothing(s, placeholder(inputs.last().0), inputs.last().1);
    }
}

/// A template makes no more files than it has, and all of them where none has
/// a condition.
pub proof fn law_files_without_conditions_are_made(
    files: Seq<FileView>,
    inputs: Seq<(Seq<char>, Seq<char>)>,
    project_name: Seq<char>,
)
    ensures
        made_files(files, inputs, project_name).len() <= files.len(),
        (forall|i: int| 0 <= i < files.len() ==> (#[trigger] files[i]).condition is None)
            ==> made_files(files, inputs, project_name) == files.map_values(
            |f: FileView| made(f, inputs, project_name),
        ),
    decreases files.len(),
{
    if files.len() > 0 {
        let rest = files.drop_last();
        law_files_without_conditions_are_made(rest, inputs, project_name);
        if forall|i: int| 0 <= i < files.len() ==> (#[trigger] files[i]).condition is None {
            assert forall|i: int| 0 <= i < rest.len() implies (
            #[trigger] rest[i]).condition is None by {
                assert(rest[i] == files[i]);
            }
            assert(files[files.len() - 1].condition is None);
            let f = |f: FileView| made(f, inputs, project_name);
            assert(files.map_values(f) =~= rest.map_values(f).push(f(files.last())));
        }
    } else {
        assert(made_files(files, inputs, project_name) =~= files.map_values(
            |f: FileView| made(f, inputs, project_name),
        ));
    }
}

/// Two opening braces do not begin in a text: neither in it nor with its last
/// character.
pub open spec fn is_quiet(s: Seq<char>) -> bool {
    !text::contains(s, "{{"@) && (s.len() > 0 ==> s.last() != '{')
}

/// A quiet text at the beginning stays when a placeholder is filled in.
proof fn lemma_replace_behind(pre: Seq<char>, s: Seq<char>, from: Seq<char>, to: Seq<char>)
    requires
        is_quiet(pre),
        from.len() >= 2,
        from[0] == '{' && from[1] == '{',
    ensures
        text::replace(pre + s, from, to) == pre + text::replace(s, from, to),
    decreases pre.len(),
{
    reveal_strlit("{{");
    let all = pre + s;
    if pre.len() == 0 {
        assert(all =~= s);
        assert(pre + text::replace(s, from, to) =~= text::replace(s, from, to));
    } else {
        let rest = pre.drop_first();
        if text::starts_with(all, from) {
            assert(all.subrange(0, from.len() as int)[0] == '{');
            assert(all.subrange(0, from.len() as int)[1] == '{');
            assert(all[0] == pre[0]);
            assert(pre.len() > 1);
            assert(pre.subrange(0, 2) =~= "{{"@);
            assert(text::occurs_at(pre, "{{"@, 0));
        }
        assert(!text::contains(rest, "{{"@)) by {
            if text::contains(rest, "{{"@) {
                let i = choose|i: int| text::occurs_at(rest, "{{"@, i);
                assert(pre.subrange(i + 1, i + 3) =~= rest.subrange(i, i + 2));
                assert(text::occurs_at(pre, "{{"@, i + 1));
            }
        }
        lemma_replace_behind(rest, s, from, to);
        assert(all.drop_first() =~= rest + s);
        assert(seq![pre[0]] + (rest + text::replace(s, from, to)) =~= pre + text::replace(
            s,
            from,
            to,
        ));
    }
}

/// A quiet text at the beginning stays when the inputs are filled in.
proof fn lemma_filled_behind(
    pre: Seq<char>,
    s: Seq<char>,
    inputs: Seq<(Seq<char>, Seq<char>)>,
) -> (t: Seq<char>)
    requires
        is_quiet(pre),
    ensures
        filled(pre + s, inputs) == pre + t,
    decreases inputs.len(),
{
    if inputs.len() == 0 {
        s
    } else {
        reveal_strlit("{{");
        let t = lemma_filled_behind(pre, s, inputs.drop_last());
        let from = placeholder(inputs.last().0);
        lemma_replace_behind(pre, t, from, inputs.last().1);
        text::replace(t, from, inputs.last().1)
    }
}

/// What a project name makes of the manifest of the built-in template up to the
/// end of the line with the name.
pub open spec fn manifest_head(project_name: Seq<char>) -> Seq<char> {
    "[package]\nname = \""@ + project_name + "\"\n"@
}

/// The manifest that the built-in template makes gives the name of the project,
/// whatever the inputs, unless the name itself holds two opening braces.
pub proof fn law_made_manifest_names_the_project(
    inputs: Seq<(Seq<char>, Seq<char>)>,
    project_name: Seq<char>,
)
    requires
        !text::contains(project_name, "{{"@),
    ensures
        ({
            let made = made_files(cli_template().files, inputs, project_name);
            &&& made.len() == 2
            &&& made[0].path == "Cargo.toml"@
            &&& text::starts_with(made[0].content, manifest_head(project_name))
        }),
{
    let files = cli_template().files;
    let start = "[package]\nname = \""@;
    let hole = "{{project_name}}"@;
    let end = "\"\n"@;
    reveal_strlit("[package]\nname = \"{{project_name}}\"\nversion = \"0.1.0\"\nedition = \"2021\"\ndescription = \"{{description}}\"\nauthors = [\"{{author}}\"]\n\n[dependencies]\nclap = { version = \"4.0\", features = [\"derive\"] }\nanyhow = \"1.0\"\n");
    reveal_strlit("[package]\nname = \"");
    reveal_strlit("{{project_name}}");
    reveal_strlit("\"\n");
    reveal_strlit("{{");
    reveal_strlit("Cargo.toml");
    let k = (start.len() + hole.len()) as int;
    let rest = CLI_MANIFEST@.skip(k + 2);
    assert(CLI_MANIFEST@ =~= start + (hole + (end + rest)));
    assert(!text::contains(start, "{{"@)) by {
        if text::contains(start, "{{"@) {
            let i = choose|i: int| text::occurs_at(start, "{{"@, i);
            assert(start.subrange(i, i + 2)[0] == '{');
            assert(start[i] == '{');
        }
    }
    lemma_replace_behind(start, hole + (end + rest), hole, project_name);
    let tail = hole + (end + rest);
    assert(tail.subrange(0, hole.len() as int) =~= hole);
    assert(tail.skip(hole.len() as int) =~= end + rest);
    assert(!text::contains(end, "{{"@)) by {
        if text::contains(end, "{{"@) {
            let i = choose|i: int| text::occurs_at(end, "{{"@, i);
            assert(end.subrange(i, i + 2)[0] == '{');
            assert(end[i] == '{');
        }
    }
    lemma_replace_behind(end, rest, hole, project_name);
    let more = text::replace(rest, hole, project_name);
    let pre = manifest_head(project_name);
    assert(text::replace(CLI_MANIFEST@, hole, project_name) =~= pre + more);
    assert(!text::contains(pre, "{{"@)) by {
        if text::contains(pre, "{{"@) {
            let i = choose|i: int| text::occurs_at(pre, "{{"@, i);
            let j = i - start.len();
            assert(pre.subrange(i, i + 2)[0] == '{' && pre.subrange(i, i + 2)[1] == '{');
            assert(pre[i] == '{' && pre[i + 1] == '{');
            assert(i < start.len() ==> pre[i] == start[i]);
            assert(i >= start.len() + project_name.len() ==> pre[i] == end[j - project_name.len()]);
            assert(j + 1 == project_name.len() ==> pre[i + 1] == end[0]);
            assert(project_name.subrange(j, j + 2) =~= "{{"@);
            assert(text::occurs_at(project_name, "{{"@, j));
        }
    }
    let t = lemma_filled_behind(pre, more, inputs);
    assert((pre + t).subrange(0, pre.len() as int) =~= pre);
    law_files_without_conditions_are_made(files, inputs, project_name);
    assert(!text::contains("Cargo.toml"@, "{{"@)) by {
        if text::contains("Cargo.toml"@, "{{"@) {
            let i = choose|i: int| text::occurs_at("Cargo.toml"@, "{{"@, i);
            assert("Cargo.toml"@.subrange(i, i + 2)[0] == '{');
            assert("Cargo.toml"@[i] == '{');
        }
    }
    law_text_without_placeholders_stays("Cargo.toml"@, inputs, project_name);
}

/// A part of a template: a text, or the placeholder of a variable.
pub enum Part {
    Text(Seq<char>),
    Hole(Seq<char>),
}

/// A part as it is written.
pub open spec fn part_text(p: Part) -> Seq<char> {
    match p {
        Part::Text(t) => t,
        Part::Hole(name) => seq!['{', '{'] + name + seq!['}', '}'],
    }
}

/// Parts as they are written, one after the other.
pub open spec fn parts_text(parts: Seq<Part>) -> Seq<char>
    decreases parts.len(),
{
    if parts.len() == 0 {
        seq![]
    } else {
        part_text(parts.first()) + parts_text(parts.drop_first())
    }
}

/// Whether no braces come up but those of the placeholders: no text begins two
/// opening braces, and no name of a variable holds a brace.
pub open spec fn are_plain(parts: Seq<Part>) -> bool {
    forall|i: int|
        0 <= i < parts.len() ==> match #[trigger] parts[i] {
            Part::Text(t) => is_quiet(t),
            Part::Hole(name) => is_name(name),
        }
}

/// Whether a name holds no brace.
pub open spec fn is_name(name: Seq<char>) -> bool {
    !name.contains('{') && !name.contains('}')
}

/// The part with the placeholder of one variable answered.
pub open spec fn answered(p: Part, name: Seq<char>, value: Seq<char>) -> Part {
    match p {
        Part::Hole(n) => if n == name {
            Part::Text(value)
        } else {
            p
        },
        Part::Text(_) => p,
    }
}

/// The parts with the placeholder of one variable answered.
pub open spec fn all_answered(parts: Seq<Part>, name: Seq<char>, value: Seq<char>) -> Seq<Part> {
    parts.map_values(|p: Part| answered(p, name, value))
}

/// Where a placeholder can begin in plain parts: only where one is written.
proof fn lemma_hole_begins(first: Part, rest: Seq<char>, name: Seq<char>, i: int)
    requires
        match first {
            Part::Text(t) => is_quiet(t),
            Part::Hole(n) => is_name(n),
        },
        is_name(name),
        0 <= i < part_text(first).len(),
        text::occurs_at(part_text(first) + rest, placeholder(name), i),
    ensures
        first == Part::Hole(name),
        i == 0,
{
    reveal_strlit("{{");
    reveal_strlit("}}");
    let s = part_text(first) + rest;
    let p = placeholder(name);
    let n = name.len() as int;
    let w = s.subrange(i, i + p.len());
    assert(w[0] == '{' && w[1] == '{');
    assert(s[i] == '{' && s[i + 1] == '{');
    match first {
        Part::Text(t) => {
            assert(t[i] == '{');
            if i + 1 < t.len() {
                assert(t.subrange(i, i + 2) =~= "{{"@);
                assert(text::occurs_at(t, "{{"@, i));
            } else {
                assert(t.last() == '{');
            }
        },
        Part::Hole(m) => {
            let k = m.len() as int;
            let own = part_text(first);
            assert(i == 0) by {
                if 1 <= i {
                    if i + 1 < own.len() {
                        assert(own[i + 1] == '{');
                        if i + 1 < 2 + k {
                            assert(m[i - 1] == '{');
                            assert(m.contains('{'));
                        }
                    } else {
                        assert(own[i] == '}');
                    }
                }
            }
            assert(forall|j: int| 0 <= j < n ==> s[2 + j] == #[trigger] name[j]) by {
                assert forall|j: int| 0 <= j < n implies s[2 + j] == #[trigger] name[j] by {
                    assert(w[2 + j] == name[j]);
                }
            }
            assert(w[2 + n] == '}');
            assert(s[2 + n] == '}');
            if k < n {
                assert(s[2 + k] == '}');
                assert(name[k] == '}');
                assert(name.contains('}'));
            }
            if n < k {
                assert(m[n] == s[2 + n]);
                assert(m.contains('}'));
            }
            assert(m =~= name) by {
                assert forall|j: int| 0 <= j < n implies m[j] == name[j] by {
                    assert(s[2 + j] == m[j]);
                }
            }
        },
    }
}

/// Filling in a variable answers its placeholders and leaves the rest.
proof fn lemma_parts_answered(parts: Seq<Part>, name: Seq<char>, value: Seq<char>)
    requires
        are_plain(parts),
        is_name(name),
    ensures
        text::replace(parts_text(parts), placeholder(name), value) == parts_text(
            all_answered(parts, name, value),
        ),
    decreases parts.len(),
{
    reveal_strlit("{{");
    reveal_strlit("}}");
    let p = placeholder(name);
    let now = all_answered(parts, name, value);
    if parts.len() == 0 {
        assert(now =~= seq![]);
    } else {
        let first = parts[0];
        let more = parts.drop_first();
        let rest = parts_text(more);
        assert forall|i: int| 0 <= i < more.len() implies match #[trigger] more[i] {
            Part::Text(t) => is_quiet(t),
            Part::Hole(n) => is_name(n),
        } by {
            assert(more[i] == parts[i + 1]);
        }
        lemma_parts_answered(more, name, value);
        assert(now.first() == answered(first, name, value));
        assert(now.drop_first() =~= all_answered(more, name, value));
        let own = part_text(first);
        if first == Part::Hole(name) {
            assert(own =~= p);
            assert((own + rest).subrange(0, p.len() as int) =~= p);
            assert((own + rest).skip(p.len() as int) =~= rest);
        } else {
            assert forall|j: int| 0 <= j < own.len() implies !#[trigger] text::occurs_at(
                own + rest,
                p,
                j,
            ) by {
                if text::occurs_at(own + rest, p, j) {
                    lemma_hole_begins(first, rest, name, j);
                }
            }
            text::lemma_replace_steps(own, rest, p, value);
        }
    }
}

/// Answering keeps parts plain.
proof fn lemma_answered_plain(parts: Seq<Part>, name: Seq<char>, value: Seq<char>)
    requires
        are_plain(parts),
        is_quiet(value),
    ensures
        are_plain(all_answered(parts, name, value)),
{
    let now = all_answered(parts, name, value);
    assert forall|i: int| 0 <= i < now.len() implies match #[trigger] now[i] {
        Part::Text(t) => is_quiet(t),
        Part::Hole(n) => is_name(n),
    } by {
        assert(now[i] == answered(parts[i], name, value));
    }
}

/// Whether inputs make no new placeholders: no name holds a brace, and no answer
/// begins two opening braces.
pub open spec fn are_answers(inputs: Seq<(Seq<char>, Seq<char>)>) -> bool {
    forall|i: int|
        0 <= i < inputs.len() ==> is_name((#[trigger] inputs[i]).0) && is_quiet(inputs[i].1)
}

/// The part with the inputs filled in: the placeholder of a variable becomes its
/// first answer, and what has none stays.
pub open spec fn answered_by(p: Part, inputs: Seq<(Seq<char>, Seq<char>)>) -> Part {
    match p {
        Part::Hole(n) => match table::lookup(inputs, n) {
            Some(value) => Part::Text(value),
            None => p,
        },
        Part::Text(_) => p,
    }
}

/// A name is looked up before a pair that was put behind.
proof fn lemma_lookup_behind(
    t: Seq<(Seq<char>, Seq<char>)>,
    last: (Seq<char>, Seq<char>),
    name: Seq<char>,
)
    ensures
        table::lookup(t.push(last), name) == match table::lookup(t, name) {
            Some(v) => Some(v),
            None => if last.0 == name {
                Some(last.1)
            } else {
                None
            },
        },
    decreases t.len(),
{
    reveal_with_fuel(table::lookup, 2);
    if t.len() == 0 {
        assert(t.push(last).first() == last);
        assert(t.push(last).drop_first() =~= seq![]);
    } else {
        assert(t.push(last).first() == t.first());
        assert(t.push(last).drop_first() =~= t.drop_first().push(last));
        lemma_lookup_behind(t.drop_first(), last, name);
    }
}

/// Filling in the inputs answers each placeholder by its first answer.
proof fn lemma_filled_parts(parts: Seq<Part>, inputs: Seq<(Seq<char>, Seq<char>)>)
    requires
        are_plain(parts),
        are_answers(inputs),
    ensures
        filled(parts_text(parts), inputs) == parts_text(
            parts.map_values(|p: Part| answered_by(p, inputs)),
        ),
        are_plain(parts.map_values(|p: Part| answered_by(p, inputs))),
    decreases inputs.len(),
{
    let now = parts.map_values(|p: Part| answered_by(p, inputs));
    if inputs.len() == 0 {
        assert(now =~= parts);
    } else {
        let rest = inputs.drop_last();
        let last = inputs.last();
        assert(is_name(inputs[inputs.len() - 1].0));
        assert forall|i: int| 0 <= i < rest.len() implies is_name((#[trigger] rest[i]).0)
            && is_quiet(rest[i].1) by {
            assert(rest[i] == inputs[i]);
        }
        lemma_filled_parts(parts, rest);
        let before = parts.map_values(|p: Part| answered_by(p, rest));
        lemma_parts_answered(before, last.0, last.1);
        lemma_answered_plain(before, last.0, last.1);
        assert(rest.push(last) =~= inputs);
        assert forall|i: int| 0 <= i < parts.len() implies all_answered(before, last.0, last.1)[i]
            == #[trigger] now[i] by {
            assert(before[i] == answered_by(parts[i], rest));
            assert(now[i] == answered_by(parts[i], inputs));
            if let Part::Hole(n) = parts[i] {
                lemma_lookup_behind(rest, last, n);
            }
        }
        assert(all_answered(before, last.0, last.1) =~= now);
    }
}

/// Filling in a template puts the name of the project, and the first answer to
/// each variable, whatever it is, in the place of every placeholder of it. The
/// texts between stay, and so do the placeholders of variables without an answer.
pub proof fn law_every_placeholder_is_answered(
    parts: Seq<Part>,
    inputs: Seq<(Seq<char>, Seq<char>)>,
    project_name: Seq<char>,
)
    requires
        are_plain(parts),
        are_answers(inputs),
        is_quiet(project_name),
    ensures
        processed(parts_text(parts), inputs, project_name) == parts_text(
            parts.map_values(
                |p: Part|
                    if p == Part::Hole("project_name"@) {
                        Part::Text(project_name)
                    } else {
                        answered_by(p, inputs)
                    },
            ),
        ),
{
    reveal_strlit("{{project_name}}");
    reveal_strlit("{{");
    reveal_strlit("}}");
    reveal_strlit("project_name");
    let name = "project_name"@;
    assert("{{project_name}}"@ =~= placeholder(name));
    assert(is_name(name));
    lemma_parts_answered(parts, name, project_name);
    lemma_answered_plain(parts, name, project_name);
    let first = all_answered(parts, name, project_name);
    lemma_filled_parts(first, inputs);
    let f = |p: Part|
        if p == Part::Hole("project_name"@) {
            Part::Text(project_name)
        } else {
            answered_by(p, inputs)
        };
    assert(first.map_values(|p: Part| answered_by(p, inputs)) =~= parts.map_values(f));
}

/// A placeholder stands in plain parts only where one of them is it.
proof fn lemma_placeholder_is_a_part(parts: Seq<Part>, name: Seq<char>, i: int)
    requires
        are_plain(parts),
        is_name(name),
        text::occurs_at(parts_text(parts), placeholder(name), i),
    ensures
        parts.contains(Part::Hole(name)),
    decreases parts.len(),
{
    reveal_strlit("{{");
    reveal_strlit("}}");
    let p = placeholder(name);
    if parts.len() > 0 {
        let first = parts[0];
        let more = parts.drop_first();
        let own = part_text(first);
        let rest = parts_text(more);
        let n = own.len() as int;
        if i < n {
            lemma_hole_begins(first, rest, name, i);
        } else {
            assert(rest.subrange(i - n, i - n + p.len()) =~= (own + rest).subrange(
                i,
                i + p.len(),
            ));
            assert forall|j: int| 0 <= j < more.len() implies match #[trigger] more[j] {
                Part::Text(t) => is_quiet(t),
                Part::Hole(n) => is_name(n),
            } by {
                assert(more[j] == parts[j + 1]);
            }
            lemma_placeholder_is_a_part(more, name, i - n);
            let j = choose|j: int| 0 <= j < more.len() && more[j] == Part::Hole(name);
            assert(parts[j + 1] == Part::Hole(name));
        }
    }
}

/// No placeholder of an answered question is left, whatever the answer, the
/// empty one included, and none of the name of the project.
pub proof fn law_no_answered_placeholder_is_left(
    parts: Seq<Part>,
    inputs: Seq<(Seq<char>, Seq<char>)>,
    project_name: Seq<char>,
    i: int,
)
    requires
        are_plain(parts),
        are_answers(inputs),
        is_quiet(project_name),
        0 <= i < inputs.len(),
    ensures
        !text::contains(
            processed(parts_text(parts), inputs, project_name),
            seq!['{', '{'] + inputs[i].0 + seq!['}', '}'],
        ),
        !text::contains(processed(parts_text(parts), inputs, project_name), "{{project_name}}"@),
{
    reveal_strlit("{{project_name}}");
    reveal_strlit("{{");
    reveal_strlit("}}");
    reveal_strlit("project_name");
    let own = "project_name"@;
    assert(is_name(own));
    let f = |p: Part|
        if p == Part::Hole("project_name"@) {
            Part::Text(project_name)
        } else {
            answered_by(p, inputs)
        };
    let now = parts.map_values(f);
    law_every_placeholder_is_answered(parts, inputs, project_name);
    assert(are_plain(now)) by {
        assert forall|j: int| 0 <= j < now.len() implies match #[trigger] now[j] {
            Part::Text(t) => is_quiet(t),
            Part::Hole(n) => is_name(n),
        } by {
            assert(now[j] == f(parts[j]));
            if let Part::Hole(n) = parts[j] {
                if let Some(v) = table::lookup(inputs, n) {
                    lemma_lookup_member(inputs, n);
                }
            }
        }
    }
    let name = inputs[i].0;
    assert(is_name(name));
    assert(seq!['{', '{'] + name + seq!['}', '}'] =~= placeholder(name));
    assert("{{project_name}}"@ =~= placeholder(own));
    let result = processed(parts_text(parts), inputs, project_name);
    if text::contains(result, placeholder(name)) {
        let j = choose|j: int| text::occurs_at(result, placeholder(name), j);
        lemma_placeholder_is_a_part(now, name, j);
        let k = choose|k: int| 0 <= k < now.len() && now[k] == Part::Hole(name);
        assert(now[k] == f(parts[k]));
        lemma_lookup_some(inputs, i);
    }
    if text::contains(result, placeholder(own)) {
        let j = choose|j: int| text::occurs_at(result, placeholder(own), j);
        lemma_placeholder_is_a_part(now, own, j);
        let k = choose|k: int| 0 <= k < now.len() && now[k] == Part::Hole(own);
        assert(now[k] == f(parts[k]));
    }
}

/// What is found in a table stands in it.
proof fn lemma_lookup_member(t: Seq<(Seq<char>, Seq<char>)>, name: Seq<char>)
    requires
        table::lookup(t, name) is Some,
    ensures
        exists|i: int| 0 <= i < t.len() && #[trigger] t[i] == (name, table::lookup(t, name)->0),
    decreases t.len(),
{
    if t.first().0 == name {
        assert(t[0] == (name, table::lookup(t, name)->0));
    } else {
        let rest = t.drop_first();
        lemma_lookup_member(rest, name);
        let i = choose|i: int|
            0 <= i < rest.len() && #[trigger] rest[i] == (name, table::lookup(rest, name)->0);
        assert(t[i + 1] == rest[i]);
    }
}

/// What stands in a table is found.
proof fn lemma_lookup_some(t: Seq<(Seq<char>, Seq<char>)>, i: int)
    requires
        0 <= i < t.len(),
    ensures
        table::lookup(t, t[i].0) is Some,
    decreases t.len(),
{
    if i > 0 {
        lemma_lookup_some(t.drop_first(), i - 1);
    }
}

/// A condition with `==` compares a variable with a value, blanks around them
/// aside: it holds where the answer is the value, and where there is no answer.
pub proof fn law_condition_for_equality(
    variable: Seq<char>,
    value: Seq<char>,
    inputs: Seq<(Seq<char>, Seq<char>)>,
)
    requires
        !variable.contains('='),
        !value.contains('='),
    ensures
        holds(variable + seq!['=', '='] + value, inputs) == match table::lookup(
            inputs,
            text::trim(variable),
        ) {
            Some(answer) => answer == text::trim(value),
            None => true,
        },
{
    lemma_split_at_equals(variable, value);
    lemma_holds_equal(variable + seq!['=', '='] + value, variable, value, inputs);
}

/// A condition with `!=` compares a variable with a value, blanks around them
/// aside: it holds where the answer is another, and where there is no answer.
pub proof fn law_condition_for_difference(
    variable: Seq<char>,
    value: Seq<char>,
    inputs: Seq<(Seq<char>, Seq<char>)>,
)
    requires
        !variable.contains('='),
        !value.contains('='),
    ensures
        holds(variable + seq!['!', '='] + value, inputs) == match table::lookup(
            inputs,
            text::trim(variable),
        ) {
            Some(answer) => answer != text::trim(value),
            None => true,
        },
{
    lemma_split_at_differs(variable, value);
    lemma_holds_different(variable + seq!['!', '='] + value, variable, value, inputs);
}

/// A condition without a comparison holds.
pub proof fn law_condition_without_comparison(condition: Seq<char>, inputs: Seq<(Seq<char>, Seq<char>)>)
    requires
        !condition.contains('='),
    ensures
        holds(condition, inputs),
{
    reveal_strlit("==");
    reveal_strlit("!=");
    assert("=="@ =~= seq!['=', '=']);
    assert("!="@ =~= seq!['!', '=']);
    lemma_without_equals(condition);
}

/// A condition with two sides for equality.
proof fn lemma_holds_equal(
    condition: Seq<char>,
    variable: Seq<char>,
    value: Seq<char>,
    inputs: Seq<(Seq<char>, Seq<char>)>,
)
    requires
        text::contains(condition, seq!['=', '=']),
        text::split(condition, seq!['=', '=']) == seq![variable, value],
    ensures
        holds(condition, inputs) == match table::lookup(inputs, text::trim(variable)) {
            Some(answer) => answer == text::trim(value),
            None => true,
        },
{
    reveal_strlit("==");
    assert("=="@ =~= seq!['=', '=']);
    assert(sides(condition, "=="@) == Some((text::trim(variable), text::trim(value))));
}

/// A condition with two sides for difference.
proof fn lemma_holds_different(
    condition: Seq<char>,
    variable: Seq<char>,
    value: Seq<char>,
    inputs: Seq<(Seq<char>, Seq<char>)>,
)
    requires
        !text::contains(condition, seq!['=', '=']),
        text::contains(condition, seq!['!', '=']),
        text::split(condition, seq!['!', '=']) == seq![variable, value],
    ensures
        holds(condition, inputs) == match table::lookup(inputs, text::trim(variable)) {
            Some(answer) => answer != text::trim(value),
            None => true,
        },
{
    reveal_strlit("==");
    reveal_strlit("!=");
    assert("=="@ =~= seq!['=', '=']);
    assert("!="@ =~= seq!['!', '=']);
    assert(sides(condition, "!="@) == Some((text::trim(variable), text::trim(value))));
}

/// A text without an equals sign holds no comparison.
proof fn lemma_without_equals(s: Seq<char>)
    requires
        !s.contains('='),
    ensures
        !text::contains(s, seq!['=', '=']),
        !text::contains(s, seq!['!', '=']),
{
    let eq = seq!['=', '='];
    let ne = seq!['!', '='];
    if text::contains(s, eq) {
        let i = choose|i: int| text::occurs_at(s, eq, i);
        assert(s.subrange(i, i + 2)[1] == '=');
        assert(s[i + 1] == '=');
    }
    if text::contains(s, ne) {
        let i = choose|i: int| text::occurs_at(s, ne, i);
        assert(s.subrange(i, i + 2)[1] == '=');
        assert(s[i + 1] == '=');
    }
}

/// A comparison for equality splits into its two sides.
proof fn lemma_split_at_equals(variable: Seq<char>, value: Seq<char>)
    requires
        !variable.contains('='),
        !value.contains('='),
    ensures
        text::contains(variable + seq!['=', '='] + value, seq!['=', '=']),
        text::split(variable + seq!['=', '='] + value, seq!['=', '=']) == seq![variable, value],
{
    let eq = seq!['=', '='];
    let a = variable + eq + value;
    lemma_without_equals(value);
    assert(a.subrange(variable.len() as int, (variable.len() + 2) as int) =~= eq);
    assert(text::occurs_at(a, eq, variable.len() as int));
    assert forall|j: int| 0 <= j < variable.len() implies !#[trigger] text::occurs_at(a, eq, j) by {
        if text::occurs_at(a, eq, j) {
            assert(a.subrange(j, j + 2)[0] == '=');
            assert(a[j] == '=' && a[j] == variable[j]);
            assert(variable.contains(variable[j]));
        }
    }
    text::law_split_at_each_text(variable, value, eq);
    assert(seq![variable] + seq![value] =~= seq![variable, value]);
}

/// A comparison for difference splits into its two sides.
proof fn lemma_split_at_differs(variable: Seq<char>, value: Seq<char>)
    requires
        !variable.contains('='),
        !value.contains('='),
    ensures
        !text::contains(variable + seq!['!', '='] + value, seq!['=', '=']),
        text::contains(variable + seq!['!', '='] + value, seq!['!', '=']),
        text::split(variable + seq!['!', '='] + value, seq!['!', '=']) == seq![variable, value],
{
    let eq = seq!['=', '='];
    let ne = seq!['!', '='];
    let b = variable + ne + value;
    let n = variable.len() as int;
    lemma_without_equals(value);
    assert(b.subrange(n, n + 2) =~= ne);
    assert(text::occurs_at(b, ne, n));
    if text::contains(b, eq) {
        let j = choose|j: int| text::occurs_at(b, eq, j);
        assert(b.subrange(j, j + 2)[0] == '=' && b.subrange(j, j + 2)[1] == '=');
        assert(b[j] == '=' && b[j + 1] == '=');
        if j < n {
            assert(b[j] == variable[j]);
            assert(variable.contains(variable[j]));
        } else if j > n + 1 {
            assert(b[j] == value[j - n - 2]);
            assert(value.contains(value[j - n - 2]));
        } else if j == n + 1 {
            assert(b[j + 1] == value[0]);
            assert(value.contains(value[0]));
        }
    }
    assert forall|j: int| 0 <= j < n implies !#[trigger] text::occurs_at(b, ne, j) by {
        if text::occurs_at(b, ne, j) {
            assert(b.subrange(j, j + 2)[1] == '=');
            assert(b[j + 1] == '=');
            if j + 1 < n {
                assert(b[j + 1] == variable[j + 1]);
                assert(variable.contains(variable[j + 1]));
            }
        }
    }
    text::law_split_at_each_text(variable, value, ne);
    assert(seq![variable] + seq![value] =~= seq![variable, value]);
}

/// The files of two lists are made one after the other. A file is made where its
/// condition holds or it has none, with its path and its content filled in and
/// its mark kept, and else left out.
pub proof fn law_files_are_made_in_order(
    a: Seq<FileView>,
    b: Seq<FileView>,
    f: FileView,
    inputs: Seq<(Seq<char>, Seq<char>)>,
    project_name: Seq<char>,
)
    ensures
        made_files(a + b, inputs, project_name) == made_files(a, inputs, project_name)
            + made_files(b, inputs, project_name),
        f.condition is None || holds(f.condition->0, inputs) ==> {
            let made = made_files(seq![f], inputs, project_name);
            &&& made.len() == 1
            &&& made[0].path == processed(f.path, inputs, project_name)
            &&& made[0].content == processed(f.content, inputs, project_name)
            &&& made[0].executable == f.executable
        },
        f.condition is Some && !holds(f.condition->0, inputs) ==> made_files(
            seq![f],
            inputs,
            project_name,
        ).len() == 0,
    decreases b.len(),
{
    reveal_with_fuel(made_files, 2);
    assert(seq![f].drop_last() =~= seq![]);
    if b.len() == 0 {
        assert(a + b =~= a);
        assert(made_files(a, inputs, project_name) + made_files(b, inputs, project_name)
            =~= made_files(a, inputs, project_name));
    } else {
        law_files_are_made_in_order(a, b.drop_last(), f, inputs, project_name);
        assert((a + b).drop_last() =~= a + b.drop_last());
        assert(made_files(a + b, inputs, project_name) =~= made_files(a, inputs, project_name)
            + made_files(b, inputs, project_name));
    }
}

/// A name finds the first template that has it.
pub proof fn law_first_template_is_found(
    before: Seq<TemplateView>,
    t: TemplateView,
    after: Seq<TemplateView>,
)
    requires
        forall|i: int| 0 <= i < before.len() ==> (#[trigger] before[i]).name != t.name,
    ensures
        template_named(before + (seq![t] + after), t.name) == Some(t),
        template_named(before, t.name) is None,
    decreases before.len(),
{
    let all = before + (seq![t] + after);
    if before.len() == 0 {
        assert(all.first() == t);
    } else {
        let rest = before.drop_first();
        assert(before[0].name != t.name);
        assert(all.first() == before[0]);
        assert(all.drop_first() =~= rest + (seq![t] + after));
        assert forall|i: int| 0 <= i < rest.len() implies (#[trigger] rest[i]).name != t.name by {
            assert(rest[i] == before[i + 1]);
        }
        law_first_template_is_found(rest, t, after);
    }
}

/// Where nobody is asked, the description that is given answers the question for
/// it, every other question has its default, and one without a default is
/// answered by nothing.
pub proof fn law_default_answers(q: QuestionView, description: &str)
    ensures
        q.id == "description"@ ==> default_answer(q, Some(description)) == description@,
        q.id != "description"@ ==> default_answer(q, Some(description)) == default_answer(q, None),
        q.default is Some ==> default_answer(q, None) == q.default->0,
        q.default is None ==> default_answer(q, None).len() == 0,
{
}

/// Answers are filled in one after the other, behind the name of the project: one more
/// answer takes the place of its placeholder wherever the answers before it left or put
/// one, and changes nothing where there is none.
pub proof fn law_answers_are_filled_in_turn(
    s: Seq<char>,
    inputs: Seq<(Seq<char>, Seq<char>)>,
    name: Seq<char>,
    value: Seq<char>,
    project_name: Seq<char>,
)
    ensures
        processed(s, seq![], project_name) == text::replace(
            s,
            seq!['{', '{'] + "project_name"@ + seq!['}', '}'],
            project_name,
        ),
        processed(s, inputs.push((name, value)), project_name) == text::replace(
            processed(s, inputs, project_name),
            seq!['{', '{'] + name + seq!['}', '}'],
            value,
        ),
        !text::contains(
            processed(s, inputs, project_name),
            seq!['{', '{'] + name + seq!['}', '}'],
        ) ==> processed(s, inputs.push((name, value)), project_name) == processed(
            s,
            inputs,
            project_name,
        ),
{
    reveal_strlit("{{");
    reveal_strlit("}}");
    reveal_strlit("project_name");
    reveal_strlit("{{project_name}}");
    assert("{{"@ =~= seq!['{', '{'] && "}}"@ =~= seq!['}', '}']);
    assert("{{project_name}}"@ =~= seq!['{', '{'] + "project_name"@ + seq!['}', '}']);
    let hole = seq!['{', '{'] + name + seq!['}', '}'];
    assert(placeholder(name) =~= hole);
    assert(inputs.push((name, value)).drop_last() =~= inputs);
    let before = processed(s, inputs, project_name);
    if !text::contains(before, hole) {
        assert forall|j: int| 0 <= j < Seq::<char>::empty().len() implies !#[trigger] text::occurs_at(
            Seq::<char>::empty() + (hole + before),
            hole,
            j,
        ) by {}
        text::law_replace_at_each_place(seq![], before, hole, value);
    }
}

/// The template that comes with the program makes a manifest and a program, asks for a
/// description and an author, and runs nothing.
pub proof fn law_template_of_the_program()
    ensures
        ({
            let t = cli_template();
            &&& t.name == "rust-cli"@
            &&& t.source == TemplateSource::BuiltIn
            &&& t.files.len() == 2
            &&& t.files[0].path == "Cargo.toml"@ && t.files[0].content == CLI_MANIFEST@
            &&& t.files[1].path == "src/main.rs"@ && t.files[1].content == CLI_MAIN@
            &&& !t.files[0].executable && !t.files[1].executable
            &&& t.files[0].condition is None && t.files[1].condition is None
            &&& t.questions.len() == 2
            &&& t.questions[0].id == "description"@
            &&& t.questions[0].default == Some("A command line tool"@)
            &&& t.questions[1].id == "author"@
            &&& t.questions[1].default is None
            &&& t.dependencies.len() == 0
            &&& t.post_commands.len() == 0
        }),
{
}

/// A condition that compares more than two things cannot be told, and holds.
pub proof fn law_condition_of_three_sides_holds(
    a: Seq<char>,
    b: Seq<char>,
    c: Seq<char>,
    inputs: Seq<(Seq<char>, Seq<char>)>,
)
    requires
        !a.contains('='),
        !b.contains('='),
        !c.contains('='),
    ensures
        holds(a + seq!['=', '='] + (b + seq!['=', '='] + c), inputs),
{
    reveal_strlit("==");
    let op = seq!['=', '='];
    assert("=="@ =~= op);
    let rest = b + op + c;
    let s = a + op + rest;
    assert forall|j: int| 0 <= j < a.len() implies !#[trigger] text::occurs_at(s, op, j) by {
        if text::occurs_at(s, op, j) {
            assert(s.subrange(j, j + 2)[0] == '=');
            assert(s[j] == a[j]);
            assert(a.contains(a[j]));
        }
    }
    assert forall|j: int| 0 <= j < b.len() implies !#[trigger] text::occurs_at(rest, op, j) by {
        if text::occurs_at(rest, op, j) {
            assert(rest.subrange(j, j + 2)[0] == '=');
            assert(rest[j] == b[j]);
            assert(b.contains(b[j]));
        }
    }
    text::law_split_at_each_text(a, rest, op);
    text::law_split_at_each_text(b, c, op);
    if text::contains(c, op) {
        let i = choose|i: int| text::occurs_at(c, op, i);
        assert(c.subrange(i, i + 2)[0] == '=');
        assert(c.contains(c[i]));
    }
    let i = text::law_texts_hold_their_parts(a, op, rest, s);
    assert(text::split(s, op).len() == 3);
}

} // verus!
