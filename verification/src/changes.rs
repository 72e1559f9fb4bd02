//! Changes to files and directories: what was done, what was not, and what is
//! said of it.

use vstd::prelude::*;
use crate::paths;
use crate::session;
use crate::text;

verus! {

/// Why a file operation was refused.
#[derive(Debug)]
pub enum ScaffoldError {
    TemplateNotFound(String),
    OutsideDirectory(String),
    DirectoryMissing(String),
    NotADirectory(String),
    FileMissing(String),
    NotAFile(String),
}

impl ScaffoldError {
    /// The message for an error.
    pub open spec fn text(self) -> Seq<char> {
        match self {
            ScaffoldError::TemplateNotFound(name) => "Template not found: "@ + name@,
            ScaffoldError::OutsideDirectory(p) => "Path is outside the current working directory: "@
                + p@,
            ScaffoldError::DirectoryMissing(p) => "Directory does not exist: "@ + p@,
            ScaffoldError::NotADirectory(p) => "Path is not a directory: "@ + p@,
            ScaffoldError::FileMissing(p) => "File does not exist: "@ + p@,
            ScaffoldError::NotAFile(p) => "Path is not a file: "@ + p@,
        }
    }

    /// The message for an error.
    pub fn message(&self) -> (r: String)
        ensures
            r@ == self.text(),
    {
        match self {
            ScaffoldError::TemplateNotFound(name) => "Template not found: ".to_owned().concat(
                name.as_str(),
            ),
            ScaffoldError::OutsideDirectory(p) =>
                "Path is outside the current working directory: ".to_owned().concat(p.as_str()),
            ScaffoldError::DirectoryMissing(p) => "Directory does not exist: ".to_owned().concat(
                p.as_str(),
            ),
            ScaffoldError::NotADirectory(p) => "Path is not a directory: ".to_owned().concat(
                p.as_str(),
            ),
            ScaffoldError::FileMissing(p) => "File does not exist: ".to_owned().concat(p.as_str()),
            ScaffoldError::NotAFile(p) => "Path is not a file: ".to_owned().concat(p.as_str()),
        }
    }
}

/// Represents a file to be created or modified.
#[derive(Debug, Clone)]
pub struct ScaffoldFile {
    /// Path to the file.
    pub path: String,
    /// Content of the file.
    pub content: String,
    /// Whether the file already exists.
    pub exists: bool,
}

/// Type of change.
#[derive(Debug, Clone, Copy, PartialEq, Eq, Structural)]
pub enum ChangeType {
    /// Create a new file.
    Create,
    /// Modify an existing file.
    Modify,
    /// Create a new directory.
    CreateDir,
    /// Apply a diff to a file.
    ApplyDiff,
}

/// Represents an applied change.
#[derive(Debug, Clone)]
pub struct AppliedChange {
    /// Path to the file.
    pub path: String,
    /// Type of change.
    pub change_type: ChangeType,
    /// Success indicator.
    pub success: bool,
    /// Error message, if any.
    pub error: Option<String>,
}

/// What an `AppliedChange` holds.
pub struct ChangeView {
    pub path: Seq<char>,
    pub change_type: ChangeType,
    pub success: bool,
    pub error: Option<Seq<char>>,
}

impl View for AppliedChange {
    type V = ChangeView;

    open spec fn view(&self) -> ChangeView {
        ChangeView {
            path: self.path@,
            change_type: self.change_type,
            success: self.success,
            error: session::opt_view(self.error),
        }
    }
}

/// A change that was made.
pub open spec fn change_made(path: Seq<char>, change_type: ChangeType) -> ChangeView {
    ChangeView { path, change_type, success: true, error: None }
}

/// A change that was not made.
pub open spec fn change_failed(
    path: Seq<char>,
    change_type: ChangeType,
    error: Seq<char>,
) -> ChangeView {
    ChangeView { path, change_type, success: false, error: Some(error) }
}

/// What a list of changes holds.
pub open spec fn change_views(v: Seq<AppliedChange>) -> Seq<ChangeView> {
    v.map_values(|c: AppliedChange| c@)
}

/// The number of changes that were made.
pub open spec fn changes_made(v: Seq<ChangeView>) -> nat
    decreases v.len(),
{
    if v.len() == 0 {
        0
    } else {
        changes_made(v.drop_last()) + (if v.last().success {
            1nat
        } else {
            0
        })
    }
}

/// Result of a scaffold operation.
#[derive(Debug, Clone)]
pub struct ScaffoldResult {
    /// List of changes that were applied.
    pub changes: Vec<AppliedChange>,
    /// Overall success indicator.
    pub success: bool,
    /// Summary message.
    pub summary: String,
}

/// The summary of some changes.
pub open spec fn changes_summary(v: Seq<ChangeView>) -> Seq<char> {
    if changes_made(v) == v.len() {
        "Successfully created "@ + text::decimal(changes_made(v)) + " files"@
    } else {
        "Partial success: "@ + text::decimal(changes_made(v)) + " of "@ + text::decimal(v.len())
            + " operations succeeded"@
    }
}

/// Whether `r` is the result of some changes.
pub open spec fn is_result(r: ScaffoldResult, changes: Seq<ChangeView>) -> bool {
    &&& change_views(r.changes@) == changes
    &&& r.success == (changes_made(changes) == changes.len())
    &&& r.summary@ == changes_summary(changes)
}

/// A change that was made.
pub(crate) fn make_change(path: String, change_type: ChangeType) -> (r: AppliedChange)
    ensures
        r@ == change_made(path@, change_type),
{
    AppliedChange { path, change_type, success: true, error: None }
}

/// A change that was not made.
pub(crate) fn fail_change(path: String, change_type: ChangeType, error: String) -> (r: AppliedChange)
    ensures
        r@ == change_failed(path@, change_type, error@),
{
    AppliedChange { path, change_type, success: false, error: Some(error) }
}

/// The number of changes that were made.
pub fn count_made(changes: &Vec<AppliedChange>) -> (r: usize)
    ensures
        r == changes_made(change_views(changes@)),
        r <= changes@.len(),
{
    let ghost all = change_views(changes@);
    let mut n: usize = 0;
    let mut i: usize = 0;
    assert(all.take(0) =~= seq![]);
    while i < changes.len()
        invariant
            i <= changes@.len(),
            n <= i,
            all == change_views(changes@),
            n == changes_made(all.take(i as int)),
        decreases changes@.len() - i,
    {
        proof {
            assert(all.take(i + 1).drop_last() =~= all.take(i as int));
            assert(all.take(i + 1).last() == changes@[i as int]@);
        }
        if changes[i].success {
            n += 1;
        }
        i += 1;
    }
    assert(all.take(i as int) =~= all);
    n
}

/// The result of some changes.
pub fn result_of(changes: Vec<AppliedChange>) -> (r: ScaffoldResult)
    ensures
        is_result(r, change_views(changes@)),
{
    let made: usize = count_made(&changes);
    let total: usize = changes.len();
    let success = made == total;
    let summary = if success {
        "Successfully created ".to_owned().concat(text::decimal_of(made as u64).as_str()).concat(
            " files",
        )
    } else {
        "Partial success: ".to_owned().concat(text::decimal_of(made as u64).as_str()).concat(
            " of ",
        ).concat(text::decimal_of(total as u64).as_str()).concat(" operations succeeded")
    };
    ScaffoldResult { changes, success, summary }
}

// Files that are made together.

/// Whether two texts are the same path.
pub open spec fn same_path(a: Seq<char>, b: Seq<char>) -> bool {
    paths::components(a) == paths::components(b)
}

/// Whether a path is among some paths.
pub open spec fn among(v: Seq<Seq<char>>, p: Seq<char>) -> bool {
    exists|i: int| 0 <= i < v.len() && same_path(#[trigger] v[i], p)
}

/// Paths with one more, unless it is among them.
pub open spec fn with_path(v: Seq<Seq<char>>, p: Seq<char>) -> Seq<Seq<char>> {
    if among(v, p) {
        v
    } else {
        v.push(p)
    }
}

/// Whether no path stands twice.
pub open spec fn paths_differ(v: Seq<Seq<char>>) -> bool {
    forall|i: int, j: int|
        0 <= i < j < v.len() ==> !same_path(#[trigger] v[i], #[trigger] v[j])
}

/// The directories that some files go to, each once.
pub open spec fn directories(files: Seq<ScaffoldFile>) -> Seq<Seq<char>>
    decreases files.len(),
{
    if files.len() == 0 {
        seq![]
    } else {
        match paths::parent(files.last().path@) {
            Some(dir) => with_path(directories(files.drop_last()), dir),
            None => directories(files.drop_last()),
        }
    }
}

/// What became of a directory.
#[derive(Debug)]
pub enum DirOutcome {
    /// It was there.
    Existed,
    /// It was made.
    Created,
    /// It could not be made.
    Failed(String),
}

/// What became of a file.
#[derive(Debug)]
pub enum FileOutcome {
    /// It was written.
    Written,
    /// It could not be opened.
    NotOpened(String),
    /// It could not be written.
    NotWritten(String),
    /// It could not be written to the end.
    NotFlushed(String),
}

/// The changes to some directories.
pub open spec fn dir_changes(dirs: Seq<Seq<char>>, outcomes: Seq<DirOutcome>) -> Seq<ChangeView>
    decreases outcomes.len(),
{
    if outcomes.len() == 0 {
        seq![]
    } else {
        let rest = dir_changes(dirs, outcomes.drop_last());
        let dir = dirs[outcomes.len() - 1];
        match outcomes.last() {
            DirOutcome::Existed => rest,
            DirOutcome::Created => rest.push(change_made(dir, ChangeType::CreateDir)),
            DirOutcome::Failed(e) => rest.push(
                change_failed(
                    dir,
                    ChangeType::CreateDir,
                    "Failed to create directory: "@ + e@,
                ),
            ),
        }
    }
}

/// The change to a file.
pub open spec fn file_change(path: Seq<char>, existed: bool, outcome: FileOutcome) -> ChangeView {
    let change_type = if existed {
        ChangeType::Modify
    } else {
        ChangeType::Create
    };
    match outcome {
        FileOutcome::Written => change_made(path, change_type),
        FileOutcome::NotOpened(e) => change_failed(
            path,
            change_type,
            "Failed to open file for writing: "@ + e@,
        ),
        FileOutcome::NotWritten(e) => change_failed(
            path,
            change_type,
            "Failed to write to file: "@ + e@,
        ),
        FileOutcome::NotFlushed(e) => change_failed(
            path,
            change_type,
            "Failed to flush file: "@ + e@,
        ),
    }
}

/// The changes to some files: for each whether it was there when its turn
/// came, and what became of it.
pub open spec fn file_changes(
    files: Seq<ScaffoldFile>,
    outcomes: Seq<(bool, FileOutcome)>,
) -> Seq<ChangeView>
    decreases outcomes.len(),
{
    if outcomes.len() == 0 {
        seq![]
    } else {
        file_changes(files, outcomes.drop_last()).push(
            file_change(
                files[outcomes.len() - 1].path@,
                outcomes.last().0,
                outcomes.last().1,
            ),
        )
    }
}

/// Whether two strings are the same path.
pub fn is_same_path(a: &str, b: &str) -> (r: bool)
    ensures
        r == same_path(a@, b@),
{
    let v = paths::components_of(a);
    let w = paths::components_of(b);
    let ghost x = text::views(v@);
    let ghost y = text::views(w@);
    if v.len() != w.len() {
        assert(x.len() != y.len());
        return false;
    }
    let mut i: usize = 0;
    while i < v.len()
        invariant
            i <= v@.len() == w@.len(),
            x == text::views(v@),
            y == text::views(w@),
            x == paths::components(a@),
            y == paths::components(b@),
            forall|k: int| 0 <= k < i ==> x[k] == y[k],
        decreases v@.len() - i,
    {
        assert(x[i as int] == v@[i as int]@ && y[i as int] == w@[i as int]@);
        if !text::same_text(v[i].as_str(), w[i].as_str()) {
            return false;
        }
        i += 1;
    }
    assert(x =~= y);
    true
}

/// The place of a path among some paths.
fn place_among(v: &Vec<String>, p: &str) -> (r: Option<usize>)
    ensures
        match r {
            Some(i) => i < v@.len() && same_path(v@[i as int]@, p@),
            None => !among(text::views(v@), p@),
        },
{
    let ghost all = text::views(v@);
    let mut i: usize = 0;
    while i < v.len()
        invariant
            i <= v@.len(),
            all == text::views(v@),
            forall|k: int| 0 <= k < i ==> !same_path(#[trigger] all[k], p@),
        decreases v@.len() - i,
    {
        assert(all[i as int] == v@[i as int]@);
        if is_same_path(v[i].as_str(), p) {
            return Some(i);
        }
        i += 1;
    }
    None
}

/// Adds a path, unless it is there.
pub(crate) fn put_path(v: &mut Vec<String>, p: String)
    ensures
        text::views(final(v)@) == with_path(text::views(old(v)@), p@),
{
    let ghost before = text::views(v@);
    match place_among(v, p.as_str()) {
        Some(i) => {
            assert(same_path(before[i as int], p@));
        },
        None => {
            let ghost t = p@;
            v.push(p);
            assert(text::views(v@) =~= before.push(t));
        },
    }
}

/// The directories to make before some files, each once.
pub fn directories_of(files: &Vec<ScaffoldFile>) -> (r: Vec<String>)
    ensures
        text::views(r@) == directories(files@),
{
    let mut dirs: Vec<String> = Vec::new();
    let mut i: usize = 0;
    assert(files@.take(0) =~= seq![]);
    assert(text::views(dirs@) =~= directories(files@.take(0)));
    while i < files.len()
        invariant
            i <= files@.len(),
            text::views(dirs@) == directories(files@.take(i as int)),
        decreases files@.len() - i,
    {
        proof {
            assert(files@.take(i + 1).drop_last() =~= files@.take(i as int));
            assert(files@.take(i + 1).last() == files@[i as int]);
        }
        if let Some(dir) = paths::parent_of(files[i].path.as_str()) {
            put_path(&mut dirs, dir);
        }
        i += 1;
    }
    assert(files@.take(i as int) =~= files@);
    dirs
}

/// The result of making files: what became of their directories, in the order
/// of `directories_of`, and of the files.
pub fn create_files(
    files: &Vec<ScaffoldFile>,
    dirs: &Vec<String>,
    dir_outcomes: &Vec<DirOutcome>,
    file_outcomes: &Vec<(bool, FileOutcome)>,
) -> (r: ScaffoldResult)
    requires
        dirs@.len() == dir_outcomes@.len(),
        files@.len() == file_outcomes@.len(),
    ensures
        is_result(
            r,
            dir_changes(text::views(dirs@), dir_outcomes@) + file_changes(files@, file_outcomes@),
        ),
{
    let ghost names = text::views(dirs@);
    let mut changes: Vec<AppliedChange> = Vec::new();
    let mut i: usize = 0;
    assert(dir_outcomes@.take(0) =~= seq![]);
    assert(change_views(changes@) =~= dir_changes(names, dir_outcomes@.take(0)));
    while i < dir_outcomes.len()
        invariant
            i <= dir_outcomes@.len() == dirs@.len(),
            names == text::views(dirs@),
            change_views(changes@) == dir_changes(names, dir_outcomes@.take(i as int)),
        decreases dir_outcomes@.len() - i,
    {
        let ghost before = change_views(changes@);
        proof {
            assert(dir_outcomes@.take(i + 1).drop_last() =~= dir_outcomes@.take(i as int));
            assert(dir_outcomes@.take(i + 1).last() == dir_outcomes@[i as int]);
            assert(names[i as int] == dirs@[i as int]@);
        }
        match &dir_outcomes[i] {
            DirOutcome::Existed => {},
            DirOutcome::Created => {
                let c = make_change(dirs[i].clone(), ChangeType::CreateDir);
                let ghost v = c@;
                changes.push(c);
                assert(change_views(changes@) =~= before.push(v));
            },
            DirOutcome::Failed(e) => {
                let c = fail_change(
                    dirs[i].clone(),
                    ChangeType::CreateDir,
                    "Failed to create directory: ".to_owned().concat(e.as_str()),
                );
                let ghost v = c@;
                changes.push(c);
                assert(change_views(changes@) =~= before.push(v));
            },
        }
        i += 1;
    }
    assert(dir_outcomes@.take(i as int) =~= dir_outcomes@);
    let ghost head = change_views(changes@);
    let mut k: usize = 0;
    assert(file_outcomes@.take(0) =~= seq![]);
    assert(head + file_changes(files@, file_outcomes@.take(0)) =~= head);
    while k < file_outcomes.len()
        invariant
            k <= file_outcomes@.len() == files@.len(),
            change_views(changes@) == head + file_changes(files@, file_outcomes@.take(k as int)),
        decreases file_outcomes@.len() - k,
    {
        let ghost before = change_views(changes@);
        proof {
            assert(file_outcomes@.take(k + 1).drop_last() =~= file_outcomes@.take(k as int));
            assert(file_outcomes@.take(k + 1).last() == file_outcomes@[k as int]);
        }
        let c = change_of(files[k].path.as_str(), file_outcomes[k].0, &file_outcomes[k].1);
        let ghost v = c@;
        changes.push(c);
        proof {
            assert(change_views(changes@) =~= before.push(v));
            assert(before.push(v) =~= head + file_changes(
                files@,
                file_outcomes@.take(k as int),
            ).push(v));
        }
        k += 1;
    }
    assert(file_outcomes@.take(k as int) =~= file_outcomes@);
    result_of(changes)
}

/// The change to a file.
pub fn change_of(path: &str, existed: bool, outcome: &FileOutcome) -> (r: AppliedChange)
    ensures
        r@ == file_change(path@, existed, *outcome),
{
    let change_type = if existed {
        ChangeType::Modify
    } else {
        ChangeType::Create
    };
    match outcome {
        FileOutcome::Written => make_change(path.to_owned(), change_type),
        FileOutcome::NotOpened(e) => fail_change(
            path.to_owned(),
            change_type,
            "Failed to open file for writing: ".to_owned().concat(e.as_str()),
        ),
        FileOutcome::NotWritten(e) => fail_change(
            path.to_owned(),
            change_type,
            "Failed to write to file: ".to_owned().concat(e.as_str()),
        ),
        FileOutcome::NotFlushed(e) => fail_change(
            path.to_owned(),
            change_type,
            "Failed to flush file: ".to_owned().concat(e.as_str()),
        ),
    }
}

/// Adding a path keeps paths different.
pub proof fn lemma_with_path_differs(v: Seq<Seq<char>>, p: Seq<char>)
    requires
        paths_differ(v),
    ensures
        paths_differ(with_path(v, p)),
        among(with_path(v, p), p),
        forall|q: Seq<char>| among(v, q) ==> among(with_path(v, p), q),
{
    let w = with_path(v, p);
    if !among(v, p) {
        assert forall|i: int, j: int| 0 <= i < j < w.len() implies !same_path(
            #[trigger] w[i],
            #[trigger] w[j],
        ) by {
            if j == v.len() {
                assert(!same_path(v[i], p));
            } else {
                assert(!same_path(v[i], v[j]));
            }
        }
        assert(same_path(w[v.len() as int], p));
        assert forall|q: Seq<char>| among(v, q) implies among(w, q) by {
            let i = choose|i: int| 0 <= i < v.len() && same_path(#[trigger] v[i], q);
            assert(w[i] == v[i]);
        }
    }
}

/// The directory of every file is made, and none is made twice.
pub proof fn law_directories_cover_the_files(files: Seq<ScaffoldFile>)
    ensures
        paths_differ(directories(files)),
        forall|i: int|
            0 <= i < files.len() ==> match paths::parent((#[trigger] files[i]).path@) {
                Some(dir) => among(directories(files), dir),
                None => true,
            },
    decreases files.len(),
{
    if files.len() > 0 {
        let rest = files.drop_last();
        law_directories_cover_the_files(rest);
        if let Some(dir) = paths::parent(files.last().path@) {
            lemma_with_path_differs(directories(rest), dir);
        }
        assert forall|i: int| 0 <= i < files.len() implies match paths::parent(
            (#[trigger] files[i]).path@,
        ) {
            Some(dir) => among(directories(files), dir),
            None => true,
        } by {
            if i < rest.len() {
                assert(rest[i] == files[i]);
            }
        }
    }
}

/// As many changes are made as there are changes exactly where each was made.
pub proof fn law_success_means_every_change(v: Seq<ChangeView>)
    ensures
        changes_made(v) <= v.len(),
        changes_made(v) == v.len() <==> forall|i: int| 0 <= i < v.len() ==> #[trigger] v[i].success,
    decreases v.len(),
{
    if v.len() > 0 {
        let rest = v.drop_last();
        law_success_means_every_change(rest);
        if changes_made(v) == v.len() {
            assert forall|i: int| 0 <= i < v.len() implies #[trigger] v[i].success by {
                if i < rest.len() {
                    assert(rest[i].success);
                }
            }
        }
        if forall|i: int| 0 <= i < v.len() ==> #[trigger] v[i].success {
            assert forall|i: int| 0 <= i < rest.len() implies #[trigger] rest[i].success by {
                assert(v[i].success);
            }
            assert(v[v.len() - 1].success);
        }
    }
}

/// The changes made in two lists add up, and a change counts where it was made. What
/// is told of them is how many there were, or how many of them were made.
pub proof fn law_changes_are_counted(
    a: Seq<ChangeView>,
    b: Seq<ChangeView>,
    path: Seq<char>,
    kind: ChangeType,
    error: Seq<char>,
)
    ensures
        changes_made(a + b) == changes_made(a) + changes_made(b),
        changes_made(seq![change_made(path, kind)]) == 1,
        changes_made(seq![change_failed(path, kind, error)]) == 0,
        changes_made(seq![]) == 0,
        (forall|i: int| 0 <= i < a.len() ==> #[trigger] a[i].success) ==> changes_summary(a)
            == "Successfully created "@ + text::decimal(a.len()) + " files"@,
        (exists|i: int| 0 <= i < a.len() && !(#[trigger] a[i]).success) ==> changes_summary(a)
            == "Partial success: "@ + text::decimal(changes_made(a)) + " of "@ + text::decimal(
            a.len(),
        ) + " operations succeeded"@ && changes_made(a) < a.len(),
    decreases b.len(),
{
    reveal_with_fuel(changes_made, 2);
    law_success_means_every_change(a);
    if exists|i: int| 0 <= i < a.len() && !(#[trigger] a[i]).success {
        let i = choose|i: int| 0 <= i < a.len() && !(#[trigger] a[i]).success;
        assert(!a[i].success);
    }
    if b.len() == 0 {
        assert(a + b =~= a);
    } else {
        law_changes_are_counted(a, b.drop_last(), path, kind, error);
        assert((a + b).drop_last() =~= a + b.drop_last());
        assert((a + b).last() == b.last());
    }
}

/// A change keeps its path and its kind; one that was made has no error, and one that
/// was not tells its error.
pub proof fn law_changes_tell_what_happened(path: Seq<char>, kind: ChangeType, error: Seq<char>)
    ensures
        change_made(path, kind).path == path,
        change_made(path, kind).change_type == kind,
        change_made(path, kind).success,
        change_made(path, kind).error is None,
        change_failed(path, kind, error).path == path,
        change_failed(path, kind, error).change_type == kind,
        !change_failed(path, kind, error).success,
        change_failed(path, kind, error).error == Some(error),
{
}

/// Each file has its change, in order: a file that was there is modified, another one
/// created, and what kept it from being written is told.
pub proof fn law_each_file_has_its_change(
    files: Seq<ScaffoldFile>,
    outcomes: Seq<(bool, FileOutcome)>,
    i: int,
)
    requires
        outcomes.len() <= files.len(),
        0 <= i < outcomes.len(),
    ensures
        file_changes(files, outcomes).len() == outcomes.len(),
        ({
            let c = file_changes(files, outcomes)[i];
            &&& c.path == files[i].path@
            &&& c.change_type == ChangeType::Modify <==> outcomes[i].0
            &&& c.change_type == ChangeType::Create <==> !outcomes[i].0
            &&& c.success <==> outcomes[i].1 is Written
            &&& c.error is None <==> outcomes[i].1 is Written
            &&& match outcomes[i].1 {
                FileOutcome::Written => true,
                FileOutcome::NotOpened(e) => c.error == Some(
                    "Failed to open file for writing: "@ + e@,
                ),
                FileOutcome::NotWritten(e) => c.error == Some("Failed to write to file: "@ + e@),
                FileOutcome::NotFlushed(e) => c.error == Some("Failed to flush file: "@ + e@),
            }
        }),
    decreases outcomes.len(),
{
    reveal_with_fuel(file_changes, 2);
    let rest = outcomes.drop_last();
    if rest.len() > 0 {
        if i < rest.len() {
            law_each_file_has_its_change(files, rest, i);
            assert(rest[i] == outcomes[i]);
        } else {
            law_each_file_has_its_change(files, rest, 0);
        }
    }
}

/// A directory that was there leaves no change; one that was made or could not be made
/// leaves one, behind those of the directories before it.
pub proof fn law_each_new_directory_has_its_change(
    dirs: Seq<Seq<char>>,
    outcomes: Seq<DirOutcome>,
    next: DirOutcome,
)
    requires
        outcomes.len() < dirs.len(),
    ensures
        dir_changes(dirs, seq![]).len() == 0,
        ({
            let before = dir_changes(dirs, outcomes);
            let after = dir_changes(dirs, outcomes.push(next));
            match next {
                DirOutcome::Existed => after == before,
                DirOutcome::Created => {
                    &&& after.len() == before.len() + 1
                    &&& after.drop_last() == before
                    &&& after.last().path == dirs[outcomes.len() as int]
                    &&& after.last().change_type == ChangeType::CreateDir
                    &&& after.last().success
                    &&& after.last().error is None
                },
                DirOutcome::Failed(e) => {
                    &&& after.len() == before.len() + 1
                    &&& after.drop_last() == before
                    &&& after.last().path == dirs[outcomes.len() as int]
                    &&& after.last().change_type == ChangeType::CreateDir
                    &&& !after.last().success
                    &&& after.last().error == Some("Failed to create directory: "@ + e@)
                },
            }
        }),
{
    let all = outcomes.push(next);
    assert(all.drop_last() =~= outcomes);
    let before = dir_changes(dirs, outcomes);
    let after = dir_changes(dirs, all);
    if !(next is Existed) {
        assert(after.drop_last() =~= before);
    }
}

/// The directories of files are the parents of the files, in the order in which they
/// come first, and nothing else.
pub proof fn law_directories_are_parents(files: Seq<ScaffoldFile>, next: ScaffoldFile)
    ensures
        directories(seq![]).len() == 0,
        match paths::parent(next.path@) {
            None => directories(files.push(next)) == directories(files),
            Some(dir) => {
                &&& among(directories(files), dir) ==> directories(files.push(next))
                    == directories(files)
                &&& !among(directories(files), dir) ==> directories(files.push(next))
                    == directories(files).push(dir)
            },
        },
        forall|k: int|
            0 <= k < directories(files).len() ==> exists|i: int|
                0 <= i < files.len() && paths::parent((#[trigger] files[i]).path@) == Some(
                    #[trigger] directories(files)[k],
                ),
    decreases files.len(),
{
    assert(files.push(next).drop_last() =~= files);
    if files.len() > 0 {
        let rest = files.drop_last();
        law_directories_are_parents(rest, next);
        let now = directories(files);
        let before = directories(rest);
        assert forall|k: int| 0 <= k < now.len() implies exists|i: int|
            0 <= i < files.len() && paths::parent((#[trigger] files[i]).path@) == Some(
                #[trigger] now[k],
            ) by {
            if k < before.len() {
                assert(now[k] == before[k]);
                let i = choose|i: int|
                    0 <= i < rest.len() && paths::parent((#[trigger] rest[i]).path@) == Some(
                        before[k],
                    );
                assert(files[i] == rest[i]);
            } else {
                assert(files[files.len() - 1] == files.last());
            }
        }
    }
}

/// A path is the same however often it is separated and whatever `.` stands in it; a
/// path with another last name is another one.
pub proof fn law_same_path_goes_by_names(base: Seq<char>, a: Seq<char>, b: Seq<char>)
    requires
        base.len() > 0,
        paths::is_name(a),
        paths::is_name(b),
    ensures
        same_path(base, base),
        same_path(base.push('/') + a, base.push('/').push('/') + a),
        same_path(base.push('/') + a, base.push('/').push('.').push('/') + a),
        same_path(base, base.push('/')),
        same_path(base.push('/') + a, base.push('/') + b) <==> a == b,
        !same_path(base, base.push('/') + a),
{
    paths::law_components_are_names(base, a);
    paths::law_components_are_names(base, b);
    let c = paths::components(base);
    assert(c.push(a).last() == a && c.push(b).last() == b);
    assert(c.push(a).len() == c.len() + 1);
}

/// An error names what is wrong and the path or the template that it is about.
pub proof fn law_errors_name_what_is_wrong(s: String)
    ensures
        ScaffoldError::TemplateNotFound(s).text() == "Template not found: "@ + s@,
        ScaffoldError::OutsideDirectory(s).text()
            == "Path is outside the current working directory: "@ + s@,
        ScaffoldError::DirectoryMissing(s).text() == "Directory does not exist: "@ + s@,
        ScaffoldError::NotADirectory(s).text() == "Path is not a directory: "@ + s@,
        ScaffoldError::FileMissing(s).text() == "File does not exist: "@ + s@,
        ScaffoldError::NotAFile(s).text() == "Path is not a file: "@ + s@,
{
}

} // verus!
