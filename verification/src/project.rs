//! The steps that make a project out of a template, and what is reported of
//! them.

use vstd::prelude::*;
use crate::paths;
use crate::session;
use crate::table;
use crate::template;
use crate::template::ProjectTemplate;
use crate::text;

verus! {

/// Status of scaffold project creation.
#[derive(Debug, Clone, Copy, PartialEq, Eq, Structural)]
pub enum ScaffoldStatus {
    /// Initializing.
    Initializing,
    /// Collecting user input.
    CollectingInput,
    /// Generating files.
    Generating,
    /// Creating project files.
    Creating,
    /// Running post-creation commands.
    RunningCommands,
    /// Completed successfully.
    Completed,
    /// Failed.
    Failed,
}

/// Progress update for scaffold creation.
#[derive(Debug, Clone)]
pub struct ScaffoldProgress {
    /// Current status.
    pub status: ScaffoldStatus,
    /// Current message.
    pub message: String,
    /// Percent complete (0-100).
    pub percent: u8,
    /// Current file being processed (if any).
    pub current_file: Option<String>,
    /// Error message (if any).
    pub error: Option<String>,
}

/// What a `ScaffoldProgress` holds.
pub struct ProgressView {
    pub status: ScaffoldStatus,
    pub message: Seq<char>,
    pub percent: int,
    pub current_file: Option<Seq<char>>,
    pub error: Option<Seq<char>>,
}

impl View for ScaffoldProgress {
    type V = ProgressView;

    open spec fn view(&self) -> ProgressView {
        ProgressView {
            status: self.status,
            message: self.message@,
            percent: self.percent as int,
            current_file: session::opt_view(self.current_file),
            error: session::opt_view(self.error),
        }
    }
}

/// A report without a file or an error.
pub open spec fn report(status: ScaffoldStatus, message: Seq<char>, percent: int) -> ProgressView {
    ProgressView { status, message, percent, current_file: None, error: None }
}

/// A report of a failure.
pub open spec fn failure(
    message: Seq<char>,
    percent: int,
    current_file: Option<Seq<char>>,
    error: Seq<char>,
) -> ProgressView {
    ProgressView {
        status: ScaffoldStatus::Failed,
        message,
        percent,
        current_file,
        error: Some(error),
    }
}

/// A step in making a project.
#[derive(Debug)]
pub enum Step {
    /// Send a report.
    Report(ScaffoldProgress),
    /// Make the project directory, where it does not exist.
    MakeProjectDir { dir: String },
    /// Make the directory that a file goes to, where it does not exist.
    MakeParent { dir: String, file: String, percent: u8 },
    /// Write a file.
    WriteFile { path: String, content: String, executable: bool, file: String, percent: u8 },
    /// Run a command in the project directory.
    Command { dir: String, command: String },
}

/// What a `Step` holds.
pub enum StepView {
    Report(ProgressView),
    MakeProjectDir { dir: Seq<char> },
    MakeParent { dir: Seq<char>, file: Seq<char>, percent: int },
    WriteFile {
        path: Seq<char>,
        content: Seq<char>,
        executable: bool,
        file: Seq<char>,
        percent: int,
    },
    Command { dir: Seq<char>, command: Seq<char> },
}

impl View for Step {
    type V = StepView;

    open spec fn view(&self) -> StepView {
        match self {
            Step::Report(p) => StepView::Report(p@),
            Step::MakeProjectDir { dir } => StepView::MakeProjectDir { dir: dir@ },
            Step::MakeParent { dir, file, percent } => StepView::MakeParent {
                dir: dir@,
                file: file@,
                percent: *percent as int,
            },
            Step::WriteFile { path, content, executable, file, percent } => StepView::WriteFile {
                path: path@,
                content: content@,
                executable: *executable,
                file: file@,
                percent: *percent as int,
            },
            Step::Command { dir, command } => StepView::Command { dir: dir@, command: command@ },
        }
    }
}

/// What a list of steps holds.
pub open spec fn step_views(v: Seq<Step>) -> Seq<StepView> {
    v.map_values(|s: Step| s@)
}

/// How far a project is when file `i` of `total` is at hand.
pub open spec fn file_percent(i: int, total: int) -> int {
    50 + i * 40 / total
}

/// How far a project is when command `i` of `total` is at hand.
pub open spec fn command_percent(i: int, total: int) -> int {
    90 + i * 10 / total
}

/// The steps for one file.
pub open spec fn one_file(target: Seq<char>, files: Seq<template::FileView>, i: int) -> Seq<
    StepView,
> {
    let path = paths::join(target, files[i].path);
    let percent = file_percent(i, files.len() as int);
    (match paths::parent(path) {
        Some(dir) => seq![StepView::MakeParent { dir, file: files[i].path, percent }],
        None => seq![],
    }) + seq![
        StepView::Report(
            ProgressView {
                status: ScaffoldStatus::Creating,
                message: "Creating file "@ + text::decimal((i + 1) as nat) + "/"@ + text::decimal(
                    files.len(),
                ) + ": "@ + files[i].path,
                percent,
                current_file: Some(files[i].path),
                error: None,
            },
        ),
        StepView::WriteFile {
            path,
            content: files[i].content,
            executable: files[i].executable,
            file: files[i].path,
            percent,
        },
    ]
}

/// The steps for the first `n` files.
pub open spec fn file_steps(target: Seq<char>, files: Seq<template::FileView>, n: nat) -> Seq<
    StepView,
>
    decreases n,
{
    if n == 0 {
        seq![]
    } else {
        file_steps(target, files, (n - 1) as nat) + one_file(target, files, n - 1)
    }
}

/// The steps for one command.
pub open spec fn one_command(target: Seq<char>, commands: Seq<Seq<char>>, i: int) -> Seq<
    StepView,
> {
    seq![
        StepView::Report(
            report(
                ScaffoldStatus::RunningCommands,
                "Running command "@ + text::decimal((i + 1) as nat) + "/"@ + text::decimal(
                    commands.len(),
                ) + ": "@ + commands[i],
                command_percent(i, commands.len() as int),
            ),
        ),
        StepView::Command { dir: target, command: commands[i] },
    ]
}

/// The steps for the first `n` commands.
pub open spec fn command_steps(target: Seq<char>, commands: Seq<Seq<char>>, n: nat) -> Seq<
    StepView,
>
    decreases n,
{
    if n == 0 {
        seq![]
    } else {
        command_steps(target, commands, (n - 1) as nat) + one_command(target, commands, n - 1)
    }
}

/// The steps before the files.
pub open spec fn head_steps(target: Seq<char>) -> Seq<StepView> {
    seq![
        StepView::Report(
            report(
                ScaffoldStatus::Generating,
                "Processing template with user configuration..."@,
                30,
            ),
        ),
        StepView::Report(report(ScaffoldStatus::Creating, "Creating project files..."@, 50)),
        StepView::MakeProjectDir { dir: target },
    ]
}

/// The steps for all commands, with a report ahead of them if there are any.
pub open spec fn tail_steps(target: Seq<char>, commands: Seq<Seq<char>>) -> Seq<StepView> {
    if commands.len() == 0 {
        seq![]
    } else {
        seq![
            StepView::Report(
                report(
                    ScaffoldStatus::RunningCommands,
                    "Running post-creation commands..."@,
                    90,
                ),
            ),
        ] + command_steps(target, commands, commands.len())
    }
}

/// The last step.
pub open spec fn last_step(template_name: Seq<char>, project_name: Seq<char>) -> StepView {
    StepView::Report(
        report(
            ScaffoldStatus::Completed,
            "Project '"@ + project_name + "' created successfully using '"@ + template_name
                + "' template"@,
            100,
        ),
    )
}

/// All steps that make a project from a template once its questions are
/// answered.
pub open spec fn plan(
    t: template::TemplateView,
    template_name: Seq<char>,
    project_name: Seq<char>,
    target: Seq<char>,
    inputs: Seq<(Seq<char>, Seq<char>)>,
) -> Seq<StepView> {
    let files = template::made_files(t.files, inputs, project_name);
    head_steps(target) + file_steps(target, files, files.len()) + tail_steps(
        target,
        t.post_commands,
    ) + seq![last_step(template_name, project_name)]
}

/// The reports before the questions of a template are answered. Without
/// questions there is nothing to wait for.
pub open spec fn first_reports(t: template::TemplateView, template_name: Seq<char>) -> Seq<
    ProgressView,
> {
    let first = report(
        ScaffoldStatus::Initializing,
        "Initializing project creation using '"@ + template_name + "' template"@,
        0,
    );
    if t.questions.len() == 0 {
        seq![first]
    } else {
        seq![
            first,
            report(
                ScaffoldStatus::CollectingInput,
                "Waiting for template configuration..."@,
                10,
            ),
        ]
    }
}

/// What a list of reports holds.
pub open spec fn progress_views(v: Seq<ScaffoldProgress>) -> Seq<ProgressView> {
    v.map_values(|p: ScaffoldProgress| p@)
}

/// A report without a file or an error.
fn make_report(status: ScaffoldStatus, message: String, percent: u8) -> (r: ScaffoldProgress)
    ensures
        r@ == report(status, message@, percent as int),
{
    ScaffoldProgress { status, message, percent, current_file: None, error: None }
}

/// The reports to send before the questions of a template are answered.
pub fn reports_before_input(t: &ProjectTemplate, template_name: &str) -> (r: Vec<ScaffoldProgress>)
    ensures
        progress_views(r@) == first_reports(t@, template_name@),
{
    let mut out: Vec<ScaffoldProgress> = Vec::new();
    out.push(
        make_report(
            ScaffoldStatus::Initializing,
            "Initializing project creation using '".to_owned().concat(template_name).concat(
                "' template",
            ),
            0,
        ),
    );
    if t.questions.len() > 0 {
        out.push(
            make_report(
                ScaffoldStatus::CollectingInput,
                "Waiting for template configuration...".to_owned(),
                10,
            ),
        );
    }
    assert(progress_views(out@) =~= first_reports(t@, template_name@));
    out
}

/// Whether a template has questions to answer before its project is made.
pub fn needs_input(t: &ProjectTemplate) -> (r: bool)
    ensures
        r == (t@.questions.len() > 0),
{
    assert(t@.questions.len() == t.questions@.len());
    t.questions.len() > 0
}

/// The inputs that a project is made with: those received, or none at all for a
/// template without questions. Nothing where the questions are not answered.
pub fn inputs_for(t: &ProjectTemplate, received: Option<Vec<(String, String)>>) -> (r: Option<
    Vec<(String, String)>,
>)
    ensures
        t@.questions.len() > 0 ==> r == received,
        t@.questions.len() == 0 ==> r is Some && r->Some_0@.len() == 0,
{
    if needs_input(t) {
        received
    } else {
        Some(Vec::new())
    }
}

/// The report to send when the questions of a template are not answered.
pub fn report_without_input() -> (r: ScaffoldProgress)
    ensures
        r@ == failure(
            "User input channel closed unexpectedly"@,
            0,
            None,
            "Failed to receive user inputs"@,
        ),
{
    ScaffoldProgress {
        status: ScaffoldStatus::Failed,
        message: "User input channel closed unexpectedly".to_owned(),
        percent: 0,
        current_file: None,
        error: Some("Failed to receive user inputs".to_owned()),
    }
}

/// A part of a whole lies below it.
proof fn lemma_part(i: int, k: int, total: int)
    requires
        0 <= i < total,
        0 < k,
    ensures
        0 <= i * k / total < k,
{
    assert(0 <= i * k) by (nonlinear_arith)
        requires
            0 <= i,
            0 < k,
    ;
    assert(i * k < total * k) by (nonlinear_arith)
        requires
            i < total,
            0 < k,
    ;
    assert(0 <= i * k / total < k) by (nonlinear_arith)
        requires
            0 <= i * k < total * k,
            0 < total,
    ;
}

/// Parts of a whole come in order.
proof fn lemma_parts_rise(i: int, j: int, k: int, total: int)
    requires
        0 <= i <= j < total,
        0 < k,
    ensures
        i * k / total <= j * k / total,
{
    assert(i * k <= j * k) by (nonlinear_arith)
        requires
            i <= j,
            0 < k,
    ;
    vstd::arithmetic::div_mod::lemma_div_is_ordered(i * k, j * k, total);
}

/// `i` of `total` parts of `k`.
fn part(i: usize, k: u8, total: usize) -> (r: u8)
    requires
        i < total,
        0 < k,
    ensures
        r == i * k / (total as int),
        r < k,
{
    proof {
        lemma_part(i as int, k as int, total as int);
        assert(i * k <= usize::MAX * 255) by (nonlinear_arith)
            requires
                i <= usize::MAX,
                k <= 255,
        ;
    }
    (i as u128 * k as u128 / total as u128) as u8
}

/// The steps that make a project from a template once its questions are
/// answered.
pub fn project_plan(
    t: &ProjectTemplate,
    template_name: &str,
    project_name: &str,
    target_dir: &str,
    user_inputs: &Vec<(String, String)>,
) -> (r: Vec<Step>)
    ensures
        step_views(r@) == plan(
            t@,
            template_name@,
            project_name@,
            target_dir@,
            table::entries(user_inputs@),
        ),
{
    let files = template::process_template(t, user_inputs, project_name);
    let ghost made = template::file_views(files@);
    let mut steps: Vec<Step> = Vec::new();
    steps.push(
        Step::Report(
            make_report(
                ScaffoldStatus::Generating,
                "Processing template with user configuration...".to_owned(),
                30,
            ),
        ),
    );
    steps.push(
        Step::Report(
            make_report(ScaffoldStatus::Creating, "Creating project files...".to_owned(), 50),
        ),
    );
    steps.push(Step::MakeProjectDir { dir: target_dir.to_owned() });
    let ghost head = head_steps(target_dir@);
    assert(step_views(steps@) =~= head);
    assert(step_views(steps@) =~= head + file_steps(target_dir@, made, 0));
    let total: usize = files.len();
    let mut i: usize = 0;
    while i < total
        invariant
            total == files@.len(),
            i <= total,
            made == template::file_views(files@),
            head == head_steps(target_dir@),
            step_views(steps@) == head + file_steps(target_dir@, made, i as nat),
        decreases total - i,
    {
        let ghost before = step_views(steps@);
        let file = &files[i];
        assert(made[i as int] == file@);
        let path = paths::join_paths(target_dir, file.path.as_str());
        let percent: u8 = 50 + part(i, 40, total);
        let ghost mut added: Seq<StepView> = seq![];
        if let Some(dir) = paths::parent_of(path.as_str()) {
            let step = Step::MakeParent { dir, file: file.path.clone(), percent };
            proof {
                added = seq![step@];
            }
            steps.push(step);
        }
        assert(step_views(steps@) =~= before + added);
        let message = "Creating file ".to_owned().concat(
            text::decimal_of((i + 1) as u64).as_str(),
        ).concat("/").concat(text::decimal_of(total as u64).as_str()).concat(": ").concat(
            file.path.as_str(),
        );
        let update = Step::Report(
            ScaffoldProgress {
                status: ScaffoldStatus::Creating,
                message,
                percent,
                current_file: Some(file.path.clone()),
                error: None,
            },
        );
        let write = Step::WriteFile {
            path,
            content: file.content.clone(),
            executable: file.executable,
            file: file.path.clone(),
            percent,
        };
        let ghost both = seq![update@, write@];
        steps.push(update);
        steps.push(write);
        proof {
            assert(step_views(steps@) =~= before + (added + both));
            assert(one_file(target_dir@, made, i as int) =~= added + both);
            assert(before + (added + both) =~= head + (file_steps(target_dir@, made, i as nat) + (
            added + both)));
        }
        i += 1;
    }
    let ghost mid = step_views(steps@);
    let ghost commands = text::views(t.post_commands@);
    let n: usize = t.post_commands.len();
    if n > 0 {
        let first = Step::Report(
            make_report(
                ScaffoldStatus::RunningCommands,
                "Running post-creation commands...".to_owned(),
                90,
            ),
        );
        let ghost f = seq![first@];
        steps.push(first);
        assert(step_views(steps@) =~= mid + (f + command_steps(target_dir@, commands, 0)));
        let mut k: usize = 0;
        while k < n
            invariant
                n == t.post_commands@.len(),
                k <= n,
                commands == text::views(t.post_commands@),
                step_views(steps@) == mid + (f + command_steps(target_dir@, commands, k as nat)),
            decreases n - k,
        {
            let ghost before = step_views(steps@);
            let command = t.post_commands[k].as_str();
            assert(commands[k as int] == command@);
            let message = "Running command ".to_owned().concat(
                text::decimal_of((k + 1) as u64).as_str(),
            ).concat("/").concat(text::decimal_of(n as u64).as_str()).concat(": ").concat(command);
            let update = Step::Report(
                make_report(ScaffoldStatus::RunningCommands, message, 90 + part(k, 10, n)),
            );
            let run = Step::Command { dir: target_dir.to_owned(), command: command.to_owned() };
            let ghost both = seq![update@, run@];
            steps.push(update);
            steps.push(run);
            proof {
                assert(step_views(steps@) =~= before + both);
                assert(one_command(target_dir@, commands, k as int) =~= both);
                assert(before + both =~= mid + (f + (command_steps(
                    target_dir@,
                    commands,
                    k as nat,
                ) + both)));
            }
            k += 1;
        }
    } else {
        assert(mid + seq![] =~= mid);
    }
    let ghost all = step_views(steps@);
    let message = "Project '".to_owned().concat(project_name).concat(
        "' created successfully using '",
    ).concat(template_name).concat("' template");
    let end = Step::Report(make_report(ScaffoldStatus::Completed, message, 100));
    let ghost e = end@;
    steps.push(end);
    assert(step_views(steps@) =~= all + seq![e]);
    steps
}

/// The report that a failed step ends a project with; none for steps that
/// cannot fail.
pub open spec fn step_failure(step: StepView, error: Seq<char>) -> Option<ProgressView> {
    match step {
        StepView::MakeProjectDir { dir } => Some(
            failure("Failed to create project directory: "@ + error, 50, None, error),
        ),
        StepView::MakeParent { dir, file, percent } => Some(
            failure(
                "Failed to create directory "@ + dir + ": "@ + error,
                percent,
                Some(file),
                error,
            ),
        ),
        StepView::WriteFile { path, content, executable, file, percent } => Some(
            failure(
                "Failed to create file "@ + path + ": "@ + error,
                percent,
                Some(file),
                error,
            ),
        ),
        _ => None,
    }
}

impl Step {
    /// The report to send when the step failed with an error.
    pub fn failure_report(&self, error: &str) -> (r: Option<ScaffoldProgress>)
        ensures
            match r {
                Some(p) => step_failure(self@, error@) == Some(p@),
                None => step_failure(self@, error@) is None,
            },
    {
        match self {
            Step::MakeProjectDir { dir: _ } => Some(
                ScaffoldProgress {
                    status: ScaffoldStatus::Failed,
                    message: "Failed to create project directory: ".to_owned().concat(error),
                    percent: 50,
                    current_file: None,
                    error: Some(error.to_owned()),
                },
            ),
            Step::MakeParent { dir, file, percent } => Some(
                ScaffoldProgress {
                    status: ScaffoldStatus::Failed,
                    message: "Failed to create directory ".to_owned().concat(dir.as_str()).concat(
                        ": ",
                    ).concat(error),
                    percent: *percent,
                    current_file: Some(file.clone()),
                    error: Some(error.to_owned()),
                },
            ),
            Step::WriteFile { path, content: _, executable: _, file, percent } => Some(
                ScaffoldProgress {
                    status: ScaffoldStatus::Failed,
                    message: "Failed to create file ".to_owned().concat(path.as_str()).concat(
                        ": ",
                    ).concat(error),
                    percent: *percent,
                    current_file: Some(file.clone()),
                    error: Some(error.to_owned()),
                },
            ),
            _ => None,
        }
    }
}

// Laws of the plan.

/// How far the project is at a step, where the step tells.
pub open spec fn percent_at(s: StepView) -> Option<int> {
    match s {
        StepView::Report(p) => Some(p.percent),
        StepView::MakeParent { dir, file, percent } => Some(percent),
        StepView::WriteFile { path, content, executable, file, percent } => Some(percent),
        _ => None,
    }
}

/// Whether the step at `i` tells no more than the step at `j`, and both lie
/// between two bounds.
pub open spec fn in_order(s: Seq<StepView>, i: int, j: int, lo: int, hi: int) -> bool {
    match (percent_at(s[i]), percent_at(s[j])) {
        (Some(p), Some(q)) => lo <= p <= q <= hi,
        _ => true,
    }
}

/// Whether what the steps tell never falls, and stays between two bounds.
pub open spec fn is_rising(s: Seq<StepView>, lo: int, hi: int) -> bool {
    forall|i: int, j: int| 0 <= i <= j < s.len() ==> #[trigger] in_order(s, i, j, lo, hi)
}

/// Rising steps before rising steps that start no lower.
proof fn lemma_rising_add(a: Seq<StepView>, b: Seq<StepView>, lo: int, mid: int, hi: int)
    requires
        is_rising(a, lo, mid),
        is_rising(b, mid, hi),
        lo <= mid <= hi,
    ensures
        is_rising(a + b, lo, hi),
{
    let s = a + b;
    assert forall|i: int, j: int| 0 <= i <= j < s.len() implies #[trigger] in_order(
        s,
        i,
        j,
        lo,
        hi,
    ) by {
        if j < a.len() {
            assert(in_order(a, i, j, lo, mid));
        } else if i < a.len() {
            assert(in_order(a, i, i, lo, mid));
            assert(in_order(b, j - a.len(), j - a.len(), mid, hi));
        } else {
            assert(in_order(b, i - a.len(), j - a.len(), mid, hi));
        }
    }
}

/// The steps for files rise.
proof fn lemma_file_steps_rise(target: Seq<char>, files: Seq<template::FileView>, n: nat)
    requires
        0 < n <= files.len(),
    ensures
        is_rising(file_steps(target, files, n), 50, file_percent(n - 1, files.len() as int)),
        50 <= file_percent(n - 1, files.len() as int) < 90,
    decreases n,
{
    let total = files.len() as int;
    lemma_part(n - 1, 40, total);
    let now = file_percent(n - 1, total);
    let one = one_file(target, files, n - 1);
    assert(is_rising(one, now, now));
    if n == 1 {
        assert(file_steps(target, files, 0) =~= seq![]);
        assert(is_rising(file_steps(target, files, 0), 50, now));
        lemma_rising_add(file_steps(target, files, 0), one, 50, now, now);
    } else {
        lemma_file_steps_rise(target, files, (n - 1) as nat);
        lemma_parts_rise(n - 2, n - 1, 40, total);
        let earlier = file_percent(n - 2, total);
        assert(is_rising(one, earlier, now));
        lemma_rising_add(file_steps(target, files, (n - 1) as nat), one, 50, earlier, now);
    }
}

/// The steps for commands rise.
proof fn lemma_command_steps_rise(target: Seq<char>, commands: Seq<Seq<char>>, n: nat)
    requires
        0 < n <= commands.len(),
    ensures
        is_rising(
            command_steps(target, commands, n),
            90,
            command_percent(n - 1, commands.len() as int),
        ),
        90 <= command_percent(n - 1, commands.len() as int) < 100,
    decreases n,
{
    let total = commands.len() as int;
    lemma_part(n - 1, 10, total);
    let now = command_percent(n - 1, total);
    let one = one_command(target, commands, n - 1);
    assert(is_rising(one, now, now));
    if n == 1 {
        assert(command_steps(target, commands, 0) =~= seq![]);
        assert(is_rising(command_steps(target, commands, 0), 90, now));
        lemma_rising_add(command_steps(target, commands, 0), one, 90, now, now);
    } else {
        lemma_command_steps_rise(target, commands, (n - 1) as nat);
        lemma_parts_rise(n - 2, n - 1, 10, total);
        let earlier = command_percent(n - 2, total);
        assert(is_rising(one, earlier, now));
        lemma_rising_add(command_steps(target, commands, (n - 1) as nat), one, 90, earlier, now);
    }
}

/// The percentage that is reported while a project is made never falls, never
/// passes 100, and reaches 100 with the last step.
pub proof fn law_progress_rises_to_the_end(
    t: template::TemplateView,
    template_name: Seq<char>,
    project_name: Seq<char>,
    target: Seq<char>,
    inputs: Seq<(Seq<char>, Seq<char>)>,
)
    ensures
        is_rising(plan(t, template_name, project_name, target, inputs), 30, 100),
        plan(t, template_name, project_name, target, inputs).len() > 0,
        percent_at(plan(t, template_name, project_name, target, inputs).last()) == Some(100int),
{
    let files = template::made_files(t.files, inputs, project_name);
    let a = head_steps(target);
    let b = file_steps(target, files, files.len());
    let c = tail_steps(target, t.post_commands);
    let d = seq![last_step(template_name, project_name)];
    assert(is_rising(a, 30, 50));
    assert(is_rising(b, 50, 90)) by {
        if files.len() > 0 {
            lemma_file_steps_rise(target, files, files.len());
            assert forall|i: int, j: int| 0 <= i <= j < b.len() implies #[trigger] in_order(
                b,
                i,
                j,
                50,
                90,
            ) by {
                assert(in_order(
                    b,
                    i,
                    j,
                    50,
                    file_percent(files.len() - 1, files.len() as int),
                ));
            }
        }
    }
    assert(is_rising(c, 90, 100)) by {
        let n = t.post_commands.len();
        if n > 0 {
            lemma_command_steps_rise(target, t.post_commands, n);
            let first = seq![c[0]];
            let rest = command_steps(target, t.post_commands, n);
            assert(is_rising(first, 90, 90));
            assert forall|i: int, j: int| 0 <= i <= j < rest.len() implies #[trigger] in_order(
                rest,
                i,
                j,
                90,
                100,
            ) by {
                assert(in_order(rest, i, j, 90, command_percent(n - 1, n as int)));
            }
            lemma_rising_add(first, rest, 90, 90, 100);
            assert(c =~= first + rest);
        }
    }
    assert(is_rising(d, 100, 100));
    lemma_rising_add(a, b, 30, 50, 90);
    lemma_rising_add(a + b, c, 30, 90, 100);
    lemma_rising_add(a + b + c, d, 30, 100, 100);
}

/// The number of steps that write a file.
pub open spec fn writes(s: Seq<StepView>) -> nat
    decreases s.len(),
{
    if s.len() == 0 {
        0
    } else {
        writes(s.drop_last()) + (if s.last() is WriteFile {
            1nat
        } else {
            0
        })
    }
}

/// The writes of two runs of steps add up.
proof fn lemma_writes_add(a: Seq<StepView>, b: Seq<StepView>)
    ensures
        writes(a + b) == writes(a) + writes(b),
    decreases b.len(),
{
    if b.len() == 0 {
        assert(a + b =~= a);
    } else {
        assert((a + b).drop_last() =~= a + b.drop_last());
        lemma_writes_add(a, b.drop_last());
    }
}

/// Each file is written once.
proof fn lemma_file_steps_write(target: Seq<char>, files: Seq<template::FileView>, n: nat)
    requires
        n <= files.len(),
    ensures
        writes(file_steps(target, files, n)) == n,
    decreases n,
{
    if n > 0 {
        lemma_file_steps_write(target, files, (n - 1) as nat);
        let one = one_file(target, files, n - 1);
        lemma_writes_add(file_steps(target, files, (n - 1) as nat), one);
        reveal_with_fuel(writes, 4);
        assert(one.drop_last().drop_last().len() <= 1);
        if one.drop_last().drop_last().len() == 1 {
            assert(one.drop_last().drop_last().drop_last() =~= seq![]);
        }
    }
}

/// Commands write no file.
proof fn lemma_command_steps_write(target: Seq<char>, commands: Seq<Seq<char>>, n: nat)
    requires
        n <= commands.len(),
    ensures
        writes(command_steps(target, commands, n)) == 0,
    decreases n,
{
    if n > 0 {
        lemma_command_steps_write(target, commands, (n - 1) as nat);
        let one = one_command(target, commands, n - 1);
        lemma_writes_add(command_steps(target, commands, (n - 1) as nat), one);
        reveal_with_fuel(writes, 3);
        assert(one.drop_last().drop_last() =~= seq![]);
    }
}

/// A project has as many files written as its template makes.
pub proof fn law_every_file_is_written_once(
    t: template::TemplateView,
    template_name: Seq<char>,
    project_name: Seq<char>,
    target: Seq<char>,
    inputs: Seq<(Seq<char>, Seq<char>)>,
)
    ensures
        writes(plan(t, template_name, project_name, target, inputs)) == template::made_files(
            t.files,
            inputs,
            project_name,
        ).len(),
{
    let files = template::made_files(t.files, inputs, project_name);
    let a = head_steps(target);
    let b = file_steps(target, files, files.len());
    let c = tail_steps(target, t.post_commands);
    let d = seq![last_step(template_name, project_name)];
    reveal_with_fuel(writes, 4);
    assert(a.drop_last().drop_last().drop_last() =~= seq![]);
    assert(writes(a) == 0);
    lemma_file_steps_write(target, files, files.len());
    assert(writes(c) == 0) by {
        if t.post_commands.len() > 0 {
            let first = seq![c[0]];
            let rest = command_steps(target, t.post_commands, t.post_commands.len());
            lemma_command_steps_write(target, t.post_commands, t.post_commands.len());
            lemma_writes_add(first, rest);
            assert(first.drop_last() =~= seq![]);
            assert(c =~= first + rest);
        }
    }
    assert(d.drop_last() =~= seq![]);
    assert(writes(d) == 0);
    lemma_writes_add(a, b);
    lemma_writes_add(a + b, c);
    lemma_writes_add(a + b + c, d);
}

/// What some steps write: the paths, the contents and whether they may be run.
pub open spec fn written(s: Seq<StepView>) -> Seq<(Seq<char>, Seq<char>, bool)>
    decreases s.len(),
{
    if s.len() == 0 {
        seq![]
    } else {
        match s.last() {
            StepView::WriteFile { path, content, executable, file, percent } => written(
                s.drop_last(),
            ).push((path, content, executable)),
            _ => written(s.drop_last()),
        }
    }
}

/// What some steps run: the directories and the commands.
pub open spec fn run(s: Seq<StepView>) -> Seq<(Seq<char>, Seq<char>)>
    decreases s.len(),
{
    if s.len() == 0 {
        seq![]
    } else {
        match s.last() {
            StepView::Command { dir, command } => run(s.drop_last()).push((dir, command)),
            _ => run(s.drop_last()),
        }
    }
}

/// What two lists of steps write and run, one after the other.
proof fn lemma_done_in_turn(a: Seq<StepView>, b: Seq<StepView>)
    ensures
        written(a + b) == written(a) + written(b),
        run(a + b) == run(a) + run(b),
    decreases b.len(),
{
    if b.len() == 0 {
        assert(a + b =~= a);
        assert(written(a) + written(b) =~= written(a));
        assert(run(a) + run(b) =~= run(a));
    } else {
        lemma_done_in_turn(a, b.drop_last());
        assert((a + b).drop_last() =~= a + b.drop_last());
        assert((a + b).last() == b.last());
        assert(written(a + b) =~= written(a) + written(b));
        assert(run(a + b) =~= run(a) + run(b));
    }
}

/// What the steps for the first files write.
proof fn lemma_files_are_written(target: Seq<char>, files: Seq<template::FileView>, n: nat)
    requires
        n <= files.len(),
    ensures
        written(file_steps(target, files, n)).len() == n,
        forall|i: int|
            0 <= i < n ==> #[trigger] written(file_steps(target, files, n))[i] == (
                paths::join(target, files[i].path),
                files[i].content,
                files[i].executable,
            ),
        run(file_steps(target, files, n)).len() == 0,
    decreases n,
{
    if n > 0 {
        let before = file_steps(target, files, (n - 1) as nat);
        let one = one_file(target, files, n - 1);
        lemma_files_are_written(target, files, (n - 1) as nat);
        lemma_done_in_turn(before, one);
        reveal_with_fuel(written, 4);
        reveal_with_fuel(run, 4);
        let f = files[n - 1];
        let w = (paths::join(target, f.path), f.content, f.executable);
        let none = Seq::<StepView>::empty();
        if one.len() == 3 {
            assert(one.drop_last().drop_last().drop_last() =~= none);
        } else {
            assert(one.drop_last().drop_last() =~= none);
        }
        assert(written(one) =~= seq![w]);
        assert(run(one).len() == 0);
    }
}

/// What the steps for the first commands run.
proof fn lemma_commands_are_run(target: Seq<char>, commands: Seq<Seq<char>>, n: nat)
    requires
        n <= commands.len(),
    ensures
        run(command_steps(target, commands, n)).len() == n,
        forall|i: int|
            0 <= i < n ==> #[trigger] run(command_steps(target, commands, n))[i] == (
                target,
                commands[i],
            ),
        written(command_steps(target, commands, n)).len() == 0,
    decreases n,
{
    if n > 0 {
        let before = command_steps(target, commands, (n - 1) as nat);
        let one = one_command(target, commands, n - 1);
        lemma_commands_are_run(target, commands, (n - 1) as nat);
        lemma_done_in_turn(before, one);
        reveal_with_fuel(written, 3);
        reveal_with_fuel(run, 3);
        assert(one.drop_last().drop_last() =~= seq![]);
        assert(run(one) =~= seq![(target, commands[n - 1])]);
        assert(written(one).len() == 0);
    }
}

/// A project is made of the files of its template, each with its content at its path
/// below the target, in order; then the commands of the template are run there, in
/// order. The first thing that is done is to make the target.
pub proof fn law_project_is_made_as_planned(
    t: template::TemplateView,
    template_name: Seq<char>,
    project_name: Seq<char>,
    target: Seq<char>,
    inputs: Seq<(Seq<char>, Seq<char>)>,
)
    ensures
        ({
            let all = plan(t, template_name, project_name, target, inputs);
            let files = template::made_files(t.files, inputs, project_name);
            &&& written(all).len() == files.len()
            &&& forall|i: int|
                0 <= i < files.len() ==> #[trigger] written(all)[i] == (
                    paths::join(target, files[i].path),
                    files[i].content,
                    files[i].executable,
                )
            &&& run(all).len() == t.post_commands.len()
            &&& forall|i: int|
                0 <= i < t.post_commands.len() ==> #[trigger] run(all)[i] == (
                    target,
                    t.post_commands[i],
                )
            &&& all.len() > 3
            &&& all[0] is Report && all[1] is Report
            &&& all[2] == (StepView::MakeProjectDir { dir: target })
        }),
{
    let files = template::made_files(t.files, inputs, project_name);
    let a = head_steps(target);
    let b = file_steps(target, files, files.len());
    let c = tail_steps(target, t.post_commands);
    let d = seq![last_step(template_name, project_name)];
    reveal_with_fuel(written, 4);
    reveal_with_fuel(run, 4);
    assert(a.drop_last().drop_last().drop_last() =~= seq![]);
    assert(d.drop_last() =~= seq![]);
    assert(written(a).len() == 0 && run(a).len() == 0);
    assert(written(d).len() == 0 && run(d).len() == 0);
    lemma_files_are_written(target, files, files.len());
    lemma_commands_are_run(target, t.post_commands, t.post_commands.len());
    if t.post_commands.len() > 0 {
        let first = seq![c[0]];
        let rest = command_steps(target, t.post_commands, t.post_commands.len());
        assert(c =~= first + rest);
        assert(first.drop_last() =~= seq![]);
        lemma_done_in_turn(first, rest);
        assert(written(first).len() == 0 && run(first).len() == 0);
        assert(run(c) =~= run(rest));
    }
    lemma_done_in_turn(a, b);
    lemma_done_in_turn(a + b, c);
    lemma_done_in_turn(a + b + c, d);
    let all = a + b + c + d;
    assert(written(all) =~= written(b));
    assert(run(all) =~= run(c));
    assert(all[0] == a[0] && all[1] == a[1] && all[2] == a[2]);
}

/// Before a file is written its parent is made and its number, of how many, and its
/// path are told; the files share the part from 50 to 90 percent evenly.
pub proof fn law_each_file_is_announced(
    target: Seq<char>,
    files: Seq<template::FileView>,
    i: int,
    parent: Seq<char>,
)
    requires
        0 <= i < files.len(),
        paths::parent(paths::join(target, files[i].path)) == Some(parent),
    ensures
        ({
            let s = one_file(target, files, i);
            let percent = 50 + i * 40 / (files.len() as int);
            &&& s.len() == 3
            &&& s[0] == (StepView::MakeParent { dir: parent, file: files[i].path, percent })
            &&& s[1] matches StepView::Report(p) && {
                &&& p.status == ScaffoldStatus::Creating
                &&& p.percent == percent
                &&& p.current_file == Some(files[i].path)
                &&& p.error is None
                &&& p.message == "Creating file "@ + text::decimal((i + 1) as nat) + "/"@
                    + text::decimal(files.len()) + ": "@ + files[i].path
            }
            &&& s[2] == (StepView::WriteFile {
                path: paths::join(target, files[i].path),
                content: files[i].content,
                executable: files[i].executable,
                file: files[i].path,
                percent,
            })
        }),
        files.len() == 1 ==> file_percent(0, 1) == 50,
        files.len() == 2 ==> file_percent(1, 2) == 70,
        files.len() == 4 ==> file_percent(1, 4) == 60,
{
}

/// Before a command is run its number, of how many, and the command are told; the
/// commands share the part from 90 to 100 percent evenly.
pub proof fn law_each_command_is_announced(target: Seq<char>, commands: Seq<Seq<char>>, i: int)
    requires
        0 <= i < commands.len(),
    ensures
        ({
            let s = one_command(target, commands, i);
            &&& s.len() == 2
            &&& s[0] matches StepView::Report(p) && {
                &&& p.status == ScaffoldStatus::RunningCommands
                &&& p.percent == 90 + i * 10 / (commands.len() as int)
                &&& p.current_file is None
                &&& p.error is None
                &&& p.message == "Running command "@ + text::decimal((i + 1) as nat) + "/"@
                    + text::decimal(commands.len()) + ": "@ + commands[i]
            }
            &&& s[1] == (StepView::Command { dir: target, command: commands[i] })
        }),
        commands.len() == 2 ==> command_percent(1, 2) == 95,
{
}

/// What is reported: the start, the wait for answers where there are questions, and
/// at the end the name of the project and that of the template.
pub proof fn law_start_and_end_are_reported(
    t: template::TemplateView,
    template_name: Seq<char>,
    project_name: Seq<char>,
)
    ensures
        ({
            let r = first_reports(t, template_name);
            &&& r.len() == if t.questions.len() == 0 {
                1nat
            } else {
                2
            }
            &&& r[0].status == ScaffoldStatus::Initializing
            &&& r[0].percent == 0
            &&& r[0].error is None
            &&& r[0].current_file is None
            &&& text::contains(r[0].message, template_name)
            &&& t.questions.len() > 0 ==> {
                &&& r[1].status == ScaffoldStatus::CollectingInput
                &&& r[1].percent == 10
                &&& r[1].error is None
            }
        }),
        last_step(template_name, project_name) matches StepView::Report(p) && {
            &&& p.status == ScaffoldStatus::Completed
            &&& p.percent == 100
            &&& p.error is None
            &&& p.current_file is None
            &&& text::contains(p.message, project_name)
            &&& text::contains(p.message, template_name)
        },
{
    let r = first_reports(t, template_name);
    let a = "Initializing project creation using '"@;
    let i = text::law_texts_hold_their_parts(a, template_name, "' template"@, r[0].message);
    let p = "Project '"@;
    let u = "' created successfully using '"@;
    let m = p + project_name + u + template_name + "' template"@;
    let j = text::law_texts_hold_their_parts(p, project_name, u + template_name + "' template"@, m);
    assert(m =~= p + project_name + (u + template_name + "' template"@));
    let k = text::law_texts_hold_their_parts(p + project_name + u, template_name, "' template"@, m);
}

/// A step that fails is reported as failed, with the error, the file that it was for
/// and how far the project had come; reports and commands end no project.
pub proof fn law_failed_step_is_reported(
    error: Seq<char>,
    dir: Seq<char>,
    file: Seq<char>,
    content: Seq<char>,
    executable: bool,
    percent: int,
    p: ProgressView,
)
    ensures
        step_failure(StepView::MakeProjectDir { dir }, error) matches Some(r) && {
            &&& r.status == ScaffoldStatus::Failed
            &&& r.percent == 50
            &&& r.current_file is None
            &&& r.error == Some(error)
            &&& r.message == "Failed to create project directory: "@ + error
        },
        step_failure(StepView::MakeParent { dir, file, percent }, error) matches Some(r) && {
            &&& r.status == ScaffoldStatus::Failed
            &&& r.percent == percent
            &&& r.current_file == Some(file)
            &&& r.error == Some(error)
            &&& r.message == "Failed to create directory "@ + dir + ": "@ + error
        },
        step_failure(
            StepView::WriteFile { path: dir, content, executable, file, percent },
            error,
        ) matches Some(r) && {
            &&& r.status == ScaffoldStatus::Failed
            &&& r.percent == percent
            &&& r.current_file == Some(file)
            &&& r.error == Some(error)
            &&& r.message == "Failed to create file "@ + dir + ": "@ + error
        },
        step_failure(StepView::Report(p), error) is None,
        step_failure(StepView::Command { dir, command: content }, error) is None,
{
}

/// The stages of a project are told as they begin: the template is filled in at 30
/// percent, the files are made from 50 on, and where there are commands they are run
/// from 90 on.
pub proof fn law_stages_are_told(target: Seq<char>, commands: Seq<Seq<char>>)
    ensures
        head_steps(target).len() == 3,
        head_steps(target)[0] matches StepView::Report(p) && {
            &&& p.status == ScaffoldStatus::Generating
            &&& p.percent == 30
            &&& p.message == "Processing template with user configuration..."@
            &&& p.current_file is None && p.error is None
        },
        head_steps(target)[1] matches StepView::Report(p) && {
            &&& p.status == ScaffoldStatus::Creating
            &&& p.percent == 50
            &&& p.message == "Creating project files..."@
            &&& p.current_file is None && p.error is None
        },
        head_steps(target)[2] == (StepView::MakeProjectDir { dir: target }),
        commands.len() == 0 ==> tail_steps(target, commands).len() == 0,
        commands.len() > 0 ==> tail_steps(target, commands).len() > 0 && (tail_steps(
            target,
            commands,
        )[0] matches StepView::Report(p) && {
            &&& p.status == ScaffoldStatus::RunningCommands
            &&& p.percent == 90
            &&& p.message == "Running post-creation commands..."@
            &&& p.current_file is None && p.error is None
        }),
{
}

} // verus!
