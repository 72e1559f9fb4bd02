//! The scaffolder: where files may be touched, which ones were, and the
//! projects that the assistant proposes.

use vstd::prelude::*;
use crate::ai;
use crate::ai::AiClient;
use crate::ai::AiResponse;
use crate::ai::ResponseType;
use crate::changes;
use crate::changes::AppliedChange;
use crate::changes::ChangeType;
use crate::changes::ChangeView;
use crate::changes::ScaffoldError;
use crate::changes::ScaffoldFile;
use crate::changes::ScaffoldResult;
use crate::diff;
use crate::json;
use crate::paths;
use crate::table;
use crate::template;
use crate::template::ProjectTemplate;
use crate::text;
use crate::time;

verus! {

/// Scaffolder handles project generation and file management.
#[derive(Debug)]
pub struct Scaffolder {
    /// AI client for generating content.
    pub ai_client: AiClient,
    /// Current working directory.
    pub current_dir: String,
    /// Modified files, each once.
    pub modified_files: Vec<String>,
    /// Built-in project templates.
    pub built_in_templates: Vec<ProjectTemplate>,
    /// User-defined project templates.
    pub user_templates: Vec<ProjectTemplate>,
}

/// What a `Scaffolder` holds.
pub struct ScaffolderView {
    pub ai_client: AiClient,
    pub current_dir: Seq<char>,
    pub modified_files: Seq<Seq<char>>,
    pub built_in_templates: Seq<template::TemplateView>,
    pub user_templates: Seq<template::TemplateView>,
}

impl View for Scaffolder {
    type V = ScaffolderView;

    open spec fn view(&self) -> ScaffolderView {
        ScaffolderView {
            ai_client: self.ai_client,
            current_dir: self.current_dir@,
            modified_files: text::views(self.modified_files@),
            built_in_templates: template::template_views(self.built_in_templates@),
            user_templates: template::template_views(self.user_templates@),
        }
    }
}

impl ScaffolderView {
    /// Whether no modified file stands twice.
    pub open spec fn wf(self) -> bool {
        changes::paths_differ(self.modified_files)
    }

    /// With a file noted as modified.
    pub open spec fn noting(self, path: Seq<char>) -> ScaffolderView {
        ScaffolderView { modified_files: changes::with_path(self.modified_files, path), ..self }
    }

    /// With a file no longer noted as modified.
    pub open spec fn forgetting(self, path: Seq<char>) -> ScaffolderView {
        ScaffolderView {
            modified_files: self.modified_files.filter(|p: Seq<char>| !changes::same_path(p, path)),
            ..self
        }
    }
}

/// A path taken from a directory, and with its parent as it really is, where
/// that is known.
pub open spec fn resolved(dir: Seq<char>, path: Seq<char>, canon_parent: Option<&str>) -> Seq<
    char,
> {
    let full = if paths::is_absolute(path) {
        path
    } else {
        paths::join(dir, path)
    };
    match (paths::parent(full), canon_parent) {
        (Some(_), Some(canon)) => paths::join(
            canon@,
            match paths::file_name(full) {
                Some(name) => name,
                None => seq![],
            },
        ),
        _ => full,
    }
}

/// Whether a path may be touched from a working directory: it begins with that
/// directory, and no `..` leads out of it again.
pub open spec fn allowed(full: Seq<char>, dir: Seq<char>) -> bool {
    paths::starts_with(full, dir) && paths::within(full, dir)
}

/// The name of a backup.
pub open spec fn backup_path(path: Seq<char>, stamp: Seq<char>) -> Seq<char> {
    let name = (match paths::file_name(path) {
        Some(n) => n,
        None => seq![],
    }) + "."@ + stamp + ".bak"@;
    match paths::parent(path) {
        Some(parent) => paths::join(parent, name),
        None => name,
    }
}

/// The name of a backup made at the time that `stamp` tells.
pub fn backup_path_at(path: &str, stamp: &str) -> (r: String)
    ensures
        r@ == backup_path(path@, stamp@),
{
    let name = match paths::file_name_of(path) {
        Some(n) => n,
        None => String::new(),
    };
    let backup = name.concat(".").concat(stamp).concat(".bak");
    match paths::parent_of(path) {
        Some(parent) => paths::join_paths(parent.as_str(), backup.as_str()),
        None => backup,
    }
}

impl Scaffolder {
    /// Creates a new scaffolder in a directory, with the templates that come
    /// with the program and those of the user.
    pub fn new(
        ai_client: AiClient,
        current_dir: String,
        user_templates: Vec<ProjectTemplate>,
    ) -> (r: Self)
        ensures
            r@ == (ScaffolderView {
                ai_client,
                current_dir: current_dir@,
                modified_files: seq![],
                built_in_templates: seq![template::cli_template()],
                user_templates: template::template_views(user_templates@),
            }),
            r@.wf(),
    {
        let r = Scaffolder {
            ai_client,
            current_dir,
            modified_files: Vec::new(),
            built_in_templates: template::load_built_in_templates(),
            user_templates,
        };
        assert(r@.modified_files =~= seq![]);
        r
    }

    /// Finds a template by name: a built-in one first.
    pub fn find_template(&self, name: &str) -> (r: Option<ProjectTemplate>)
        ensures
            match r {
                Some(t) => template::template_named(
                    self@.built_in_templates + self@.user_templates,
                    name@,
                ) == Some(t@),
                None => template::template_named(
                    self@.built_in_templates + self@.user_templates,
                    name@,
                ) is None,
            },
    {
        proof {
            lemma_named_in_two(self@.built_in_templates, self@.user_templates, name@);
        }
        match template::find_among(&self.built_in_templates, name) {
            Some(t) => Some(t),
            None => template::find_among(&self.user_templates, name),
        }
    }

    /// The request for a project scaffold from a description.
    pub fn generate_scaffold(&self, description: &str) -> (r: ai::Request)
        ensures
            r@ == ai::told(
                self.ai_client.config.model@,
                ai::SCAFFOLD_PROMPT@,
                description@,
                3,
                Some(4000i64),
                true,
            ),
    {
        let (_, request) = self.ai_client.generate_scaffold(description);
        request
    }

    /// Sets the current working directory.
    pub fn set_working_directory(&mut self, path: &str, exists: bool, is_dir: bool) -> (r: Result<
        (),
        ScaffoldError,
    >)
        ensures
            match r {
                Ok(_) => exists && is_dir && final(self)@ == (ScaffolderView {
                    current_dir: path@,
                    ..old(self)@
                }),
                Err(e) => final(self)@ == old(self)@ && match e {
                    ScaffoldError::DirectoryMissing(p) => !exists && p@ == path@,
                    ScaffoldError::NotADirectory(p) => exists && !is_dir && p@ == path@,
                    _ => false,
                },
            },
    {
        if !exists {
            return Err(ScaffoldError::DirectoryMissing(path.to_owned()));
        }
        if !is_dir {
            return Err(ScaffoldError::NotADirectory(path.to_owned()));
        }
        self.current_dir = path.to_owned();
        Ok(())
    }

    /// The path before its parent is looked up: taken from the working
    /// directory where it is not absolute.
    pub fn full_path(&self, path: &str) -> (r: String)
        ensures
            r@ == resolved(self@.current_dir, path@, None),
    {
        if paths::path_is_absolute(path) {
            path.to_owned()
        } else {
            paths::join_paths(self.current_dir.as_str(), path)
        }
    }

    /// Resolves a path, with its parent as it really is where that is known,
    /// and validates that it is within the working directory, wherever its `..`
    /// lead.
    pub fn resolve_and_validate_path(&self, path: &str, canon_parent: Option<&str>) -> (r: Result<
        String,
        ScaffoldError,
    >)
        ensures
            match r {
                Ok(full) => full@ == resolved(self@.current_dir, path@, canon_parent)
                    && allowed(full@, self@.current_dir),
                Err(e) => match e {
                    ScaffoldError::OutsideDirectory(full) => full@ == resolved(
                        self@.current_dir,
                        path@,
                        canon_parent,
                    ) && !allowed(full@, self@.current_dir),
                    _ => false,
                },
            },
    {
        let plain = self.full_path(path);
        let full = match (paths::parent_of(plain.as_str()), canon_parent) {
            (Some(_), Some(canon)) => {
                let name = match paths::file_name_of(plain.as_str()) {
                    Some(n) => n,
                    None => String::new(),
                };
                paths::join_paths(canon, name.as_str())
            },
            _ => plain,
        };
        if !paths::path_starts_with(full.as_str(), self.current_dir.as_str())
            || !paths::path_within(full.as_str(), self.current_dir.as_str()) {
            return Err(ScaffoldError::OutsideDirectory(full));
        }
        Ok(full)
    }

    /// The template and the directory for a project: the directory named, or
    /// one with the name of the project in the working directory.
    pub fn generate_from_template(
        &self,
        template_name: &str,
        project_name: &str,
        destination: Option<(&str, Option<&str>)>,
    ) -> (r: Result<(ProjectTemplate, String), ScaffoldError>)
        ensures
            match r {
                Ok((t, target)) => {
                    &&& template::template_named(
                        self@.built_in_templates + self@.user_templates,
                        template_name@,
                    ) == Some(t@)
                    &&& match destination {
                        Some((path, canon)) => target@ == resolved(
                            self@.current_dir,
                            path@,
                            canon,
                        ) && allowed(target@, self@.current_dir),
                        None => target@ == paths::join(self@.current_dir, project_name@),
                    }
                },
                Err(ScaffoldError::TemplateNotFound(n)) => n@ == template_name@
                    && template::template_named(
                    self@.built_in_templates + self@.user_templates,
                    template_name@,
                ) is None,
                Err(ScaffoldError::OutsideDirectory(p)) => {
                    &&& template::template_named(
                        self@.built_in_templates + self@.user_templates,
                        template_name@,
                    ) is Some
                    &&& match destination {
                        Some((path, canon)) => p@ == resolved(self@.current_dir, path@, canon)
                            && !allowed(p@, self@.current_dir),
                        None => false,
                    }
                },
                Err(_) => false,
            },
    {
        let t = match self.find_template(template_name) {
            Some(t) => t,
            None => return Err(ScaffoldError::TemplateNotFound(template_name.to_owned())),
        };
        let target = match destination {
            Some((path, canon)) => match self.resolve_and_validate_path(path, canon) {
                Ok(p) => p,
                Err(e) => return Err(e),
            },
            None => paths::join_paths(self.current_dir.as_str(), project_name),
        };
        Ok((t, target))
    }

    /// Refuses to read a file that does not exist.
    pub fn read_file(full_path: &str, exists: bool) -> (r: Result<(), ScaffoldError>)
        ensures
            match r {
                Ok(_) => exists,
                Err(e) => !exists && match e {
                    ScaffoldError::FileMissing(p) => p@ == full_path@,
                    _ => false,
                },
            },
    {
        if !exists {
            return Err(ScaffoldError::FileMissing(full_path.to_owned()));
        }
        Ok(())
    }

    /// Whether what was found at a path is a file.
    pub fn file_exists(exists: bool, is_file: bool) -> (r: bool)
        ensures
            r == (exists && is_file),
    {
        exists && is_file
    }

    /// Whether what was found at a path is a directory.
    pub fn directory_exists(exists: bool, is_dir: bool) -> (r: bool)
        ensures
            r == (exists && is_dir),
    {
        exists && is_dir
    }

    /// Refuses to list what is not a directory.
    pub fn list_directory(full_path: &str, exists: bool, is_dir: bool) -> (r: Result<
        (),
        ScaffoldError,
    >)
        ensures
            match r {
                Ok(_) => exists && is_dir,
                Err(ScaffoldError::DirectoryMissing(p)) => !exists && p@ == full_path@,
                Err(ScaffoldError::NotADirectory(p)) => exists && !is_dir && p@ == full_path@,
                Err(_) => false,
            },
    {
        if !exists {
            return Err(ScaffoldError::DirectoryMissing(full_path.to_owned()));
        }
        if !is_dir {
            return Err(ScaffoldError::NotADirectory(full_path.to_owned()));
        }
        Ok(())
    }

    /// Where to copy a file before it is modified: beside it, with the local
    /// time in its name.
    pub fn backup_file(full_path: &str, exists: bool, is_file: bool) -> (r: Result<
        String,
        ScaffoldError,
    >)
        ensures
            match r {
                Ok(p) => exists && is_file && exists|stamp: Seq<char>|
                    time::is_stamp(stamp) && p@ == #[trigger] backup_path(full_path@, stamp),
                Err(ScaffoldError::FileMissing(p)) => !exists && p@ == full_path@,
                Err(ScaffoldError::NotAFile(p)) => exists && !is_file && p@ == full_path@,
                Err(_) => false,
            },
    {
        if !exists {
            return Err(ScaffoldError::FileMissing(full_path.to_owned()));
        }
        if !is_file {
            return Err(ScaffoldError::NotAFile(full_path.to_owned()));
        }
        let stamp = time::local_stamp();
        Ok(backup_path_at(full_path, stamp.as_str()))
    }

    /// Whether a file holds what it should.
    pub fn verify_file(content: &str, expected_content: &str) -> (r: bool)
        ensures
            r == (content@ == expected_content@),
    {
        text::same_text(content, expected_content)
    }

    /// Notes the end of writing a file.
    fn note_written(
        &mut self,
        full_path: &str,
        change_type: ChangeType,
        written: Result<(), String>,
    ) -> (r: AppliedChange)
        ensures
            match written {
                Ok(_) => r@ == changes::change_made(full_path@, change_type) && final(self)@
                    == old(self)@.noting(full_path@),
                Err(e) => r@ == changes::change_failed(
                    full_path@,
                    change_type,
                    "Failed to write file: "@ + e@,
                ) && final(self)@ == old(self)@,
            },
            old(self)@.wf() ==> final(self)@.wf(),
    {
        match written {
            Ok(_) => {
                proof {
                    if self@.wf() {
                        changes::lemma_with_path_differs(self@.modified_files, full_path@);
                    }
                }
                changes::put_path(&mut self.modified_files, full_path.to_owned());
                changes::make_change(full_path.to_owned(), change_type)
            },
            Err(e) => changes::fail_change(
                full_path.to_owned(),
                change_type,
                "Failed to write file: ".to_owned().concat(e.as_str()),
            ),
        }
    }

    /// The change that applying a diff made to a file, from how the writing of
    /// the patched text ended.
    pub fn apply_diff(&mut self, full_path: &str, written: Result<(), String>) -> (r: AppliedChange)
        ensures
            match written {
                Ok(_) => r@ == changes::change_made(full_path@, ChangeType::ApplyDiff) && final(self)@
                    == old(self)@.noting(full_path@),
                Err(e) => r@ == changes::change_failed(
                    full_path@,
                    ChangeType::ApplyDiff,
                    "Failed to write file: "@ + e@,
                ) && final(self)@ == old(self)@,
            },
            old(self)@.wf() ==> final(self)@.wf(),
    {
        self.note_written(full_path, ChangeType::ApplyDiff, written)
    }

    /// The change that creating a file made, from whether it was there before
    /// and how the writing ended.
    pub fn create_file(
        &mut self,
        full_path: &str,
        existed: bool,
        written: Result<(), String>,
    ) -> (r: AppliedChange)
        ensures
            ({
                let change_type = if existed {
                    ChangeType::Modify
                } else {
                    ChangeType::Create
                };
                match written {
                    Ok(_) => r@ == changes::change_made(full_path@, change_type) && final(self)@
                        == old(self)@.noting(full_path@),
                    Err(e) => r@ == changes::change_failed(
                        full_path@,
                        change_type,
                        "Failed to write file: "@ + e@,
                    ) && final(self)@ == old(self)@,
                }
            }),
            old(self)@.wf() ==> final(self)@.wf(),
    {
        let change_type = if existed {
            ChangeType::Modify
        } else {
            ChangeType::Create
        };
        self.note_written(full_path, change_type, written)
    }

    /// The change that creating a directory made, from how it ended.
    pub fn create_directory(full_path: &str, made: Result<(), String>) -> (r: AppliedChange)
        ensures
            r@ == match made {
                Ok(_) => changes::change_made(full_path@, ChangeType::CreateDir),
                Err(e) => changes::change_failed(
                    full_path@,
                    ChangeType::CreateDir,
                    "Failed to create directory: "@ + e@,
                ),
            },
    {
        match made {
            Ok(_) => changes::make_change(full_path.to_owned(), ChangeType::CreateDir),
            Err(e) => changes::fail_change(
                full_path.to_owned(),
                ChangeType::CreateDir,
                "Failed to create directory: ".to_owned().concat(e.as_str()),
            ),
        }
    }

    /// The change to report in place of deleting what is not a file; none
    /// where it may be deleted.
    pub fn refuse_delete(full_path: &str, exists: bool, is_file: bool) -> (r: Option<AppliedChange>)
        ensures
            match r {
                Some(c) => !(exists && is_file) && c@ == changes::change_failed(
                    full_path@,
                    ChangeType::Modify,
                    if exists {
                        "Path is not a file"@
                    } else {
                        "File does not exist"@
                    },
                ),
                None => exists && is_file,
            },
    {
        if !exists {
            return Some(
                changes::fail_change(
                    full_path.to_owned(),
                    ChangeType::Modify,
                    "File does not exist".to_owned(),
                ),
            );
        }
        if !is_file {
            return Some(
                changes::fail_change(
                    full_path.to_owned(),
                    ChangeType::Modify,
                    "Path is not a file".to_owned(),
                ),
            );
        }
        None
    }

    /// The change that deleting a file made, from how it ended.
    pub fn delete_file(&mut self, full_path: &str, removed: Result<(), String>) -> (r: AppliedChange)
        ensures
            match removed {
                Ok(_) => r@ == changes::change_made(full_path@, ChangeType::Modify) && final(self)@
                    == old(self)@.forgetting(full_path@),
                Err(e) => r@ == changes::change_failed(
                    full_path@,
                    ChangeType::Modify,
                    "Failed to delete file: "@ + e@,
                ) && final(self)@ == old(self)@,
            },
            old(self)@.wf() ==> final(self)@.wf(),
    {
        match removed {
            Ok(_) => {
                let ghost all = text::views(self.modified_files@);
                let ghost other = |p: Seq<char>| !changes::same_path(p, full_path@);
                let mut kept: Vec<String> = Vec::new();
                let mut i: usize = 0;
                proof {
                    reveal(Seq::filter);
                    assert(all.take(0) =~= seq![]);
                    assert(text::views(kept@) =~= all.take(0).filter(other));
                }
                while i < self.modified_files.len()
                    invariant
                        i <= self.modified_files@.len(),
                        all == text::views(self.modified_files@),
                        other == (|p: Seq<char>| !changes::same_path(p, full_path@)),
                        text::views(kept@) == all.take(i as int).filter(other),
                        self@ == old(self)@,
                    decreases self.modified_files@.len() - i,
                {
                    let ghost before = text::views(kept@);
                    let ghost p = self.modified_files@[i as int]@;
                    proof {
                        reveal(Seq::filter);
                        assert(all.take(i + 1).drop_last() =~= all.take(i as int));
                        assert(all.take(i + 1).last() == p);
                    }
                    if !changes::is_same_path(self.modified_files[i].as_str(), full_path) {
                        kept.push(self.modified_files[i].clone());
                        assert(text::views(kept@) =~= before.push(p));
                    }
                    i += 1;
                }
                assert(all.take(i as int) =~= all);
                proof {
                    if old(self)@.wf() {
                        lemma_filter_differs(all, other);
                    }
                }
                self.modified_files = kept;
                changes::make_change(full_path.to_owned(), ChangeType::Modify)
            },
            Err(e) => changes::fail_change(
                full_path.to_owned(),
                ChangeType::Modify,
                "Failed to delete file: ".to_owned().concat(e.as_str()),
            ),
        }
    }

    /// Whether two texts can be compared line by line.
    pub fn can_diff(original: &str, modified: &str) -> (r: bool)
        ensures
            r == diff::can_number_lines(original@, modified@),
    {
        let a: u128 = diff::count_line_ends(original) as u128;
        let b: u128 = diff::count_line_ends(modified) as u128;
        a + b + 2 <= u32::MAX as u128
    }

    /// Generates a diff between two texts. Applied to the first, it gives the
    /// second.
    pub fn generate_diff(original: &str, modified: &str) -> (r: String)
        requires
            diff::can_number_lines(original@, modified@),
        ensures
            r@ == diff::diff_text(diff::line_changes(original@, modified@)),
            diff::first_side(diff::line_changes(original@, modified@)) == original@,
            diff::second_side(diff::line_changes(original@, modified@)) == modified@,
            diff::are_lines(diff::line_changes(original@, modified@)),
            original@ == modified@ ==> diff::all_equal(diff::line_changes(original@, modified@)),
            diff::patched(original@, r@) == modified@,
    {
        let changes = diff::diff_lines(original, modified);
        proof {
            diff::law_diff_is_applied(original@, diff::line_changes(original@, modified@));
        }
        diff::write_diff(&changes)
    }

    /// Formats an error message for display.
    pub fn format_error_message(error: &str) -> (r: String)
        ensures
            r@ == "⚠️ File operation error: "@ + error@,
    {
        "⚠️ File operation error: ".to_owned().concat(error)
    }

    /// Formats a success message for display.
    pub fn format_success_message(message: &str) -> (r: String)
        ensures
            r@ == "✅ "@ + message@,
    {
        "✅ ".to_owned().concat(message)
    }

    /// The files modified during this session.
    pub fn get_modified_files(&self) -> (r: Vec<String>)
        ensures
            text::views(r@) == self@.modified_files,
    {
        table::copy_strings(&self.modified_files)
    }

    /// Resets the list of modified files.
    pub fn reset_modified_files(&mut self)
        ensures
            final(self)@ == (ScaffolderView { modified_files: seq![], ..old(self)@ }),
            final(self)@.wf(),
    {
        self.modified_files = Vec::new();
        assert(self@.modified_files =~= seq![]);
    }
}

/// The first template with a name in one list or else in another.
proof fn lemma_named_in_two(
    a: Seq<template::TemplateView>,
    b: Seq<template::TemplateView>,
    name: Seq<char>,
)
    ensures
        template::template_named(a + b, name) == match template::template_named(a, name) {
            Some(t) => Some(t),
            None => template::template_named(b, name),
        },
    decreases a.len(),
{
    if a.len() == 0 {
        assert(a + b =~= b);
    } else {
        assert((a + b).first() == a.first());
        assert((a + b).drop_first() =~= a.drop_first() + b);
        lemma_named_in_two(a.drop_first(), b, name);
    }
}

/// Different paths stay different when some are left out.
proof fn lemma_filter_differs(v: Seq<Seq<char>>, f: spec_fn(Seq<char>) -> bool)
    requires
        changes::paths_differ(v),
    ensures
        changes::paths_differ(v.filter(f)),
        forall|q: Seq<char>| changes::among(v.filter(f), q) ==> changes::among(v, q),
    decreases v.len(),
{
    reveal(Seq::filter);
    if v.len() > 0 {
        let rest = v.drop_last();
        let kept = rest.filter(f);
        assert forall|i: int, j: int| 0 <= i < j < rest.len() implies !changes::same_path(
            #[trigger] rest[i],
            #[trigger] rest[j],
        ) by {
            assert(!changes::same_path(v[i], v[j]));
        }
        lemma_filter_differs(rest, f);
        assert forall|q: Seq<char>| changes::among(rest, q) implies changes::among(v, q) by {
            let i = choose|i: int| 0 <= i < rest.len() && changes::same_path(#[trigger] rest[i], q);
            assert(v[i] == rest[i]);
        }
        if f(v.last()) {
            let w = kept.push(v.last());
            assert(!changes::among(rest, v.last())) by {
                if changes::among(rest, v.last()) {
                    let i = choose|i: int|
                        0 <= i < rest.len() && changes::same_path(#[trigger] rest[i], v.last());
                    assert(!changes::same_path(v[i], v[v.len() - 1]));
                }
            }
            assert forall|i: int, j: int| 0 <= i < j < w.len() implies !changes::same_path(
                #[trigger] w[i],
                #[trigger] w[j],
            ) by {
                if j == kept.len() {
                    if changes::same_path(kept[i], v.last()) {
                        assert(changes::among(kept, v.last()));
                    }
                } else {
                    assert(!changes::same_path(kept[i], kept[j]));
                }
            }
            assert forall|q: Seq<char>| changes::among(w, q) implies changes::among(v, q) by {
                let i = choose|i: int| 0 <= i < w.len() && changes::same_path(#[trigger] w[i], q);
                if i < kept.len() {
                    assert(changes::same_path(kept[i], q));
                    assert(changes::among(kept, q));
                } else {
                    assert(changes::same_path(v[v.len() - 1], q));
                }
            }
        }
    }
}

// Laws of the scaffolder.

/// A file that was noted is found among the modified files, under any text of
/// its path, and noting it again changes nothing.
pub proof fn law_noting_is_idempotent(s: ScaffolderView, path: Seq<char>)
    ensures
        changes::among(s.noting(path).modified_files, path),
        s.noting(path).noting(path) == s.noting(path),
        s.wf() ==> s.noting(path).wf(),
{
    let v = s.modified_files;
    if !changes::among(v, path) {
        assert(changes::same_path(v.push(path)[v.len() as int], path));
    }
    if s.wf() {
        changes::lemma_with_path_differs(v, path);
    }
}

/// A file that was forgotten is not among the modified files.
pub proof fn law_forgotten_is_gone(s: ScaffolderView, path: Seq<char>)
    ensures
        !changes::among(s.forgetting(path).modified_files, path),
        s.wf() ==> s.forgetting(path).wf(),
{
    let f = |p: Seq<char>| !changes::same_path(p, path);
    let kept = s.modified_files.filter(f);
    if changes::among(kept, path) {
        let i = choose|i: int| 0 <= i < kept.len() && changes::same_path(#[trigger] kept[i], path);
        s.modified_files.lemma_filter_pred(f, i);
    }
    if s.wf() {
        lemma_filter_differs(s.modified_files, f);
    }
}

/// A relative path without a parent to look up and without `..` may be touched.
pub proof fn law_relative_path_resolves_inside(dir: Seq<char>, path: Seq<char>)
    requires
        !paths::is_absolute(path),
        forall|i: int|
            0 <= i < paths::components(path).len() ==> !paths::is_up(
                #[trigger] paths::components(path)[i],
            ),
    ensures
        allowed(resolved(dir, path, None), dir),
{
    paths::law_joined_path_is_under_base(dir, path);
}

// Scaffolds that the assistant proposes.

/// Files with those of another list added whose paths are new.
pub open spec fn merged(
    files: Seq<(Seq<char>, Seq<char>)>,
    more: Seq<(Seq<char>, Seq<char>)>,
) -> Seq<(Seq<char>, Seq<char>)>
    decreases more.len(),
{
    if more.len() == 0 {
        files
    } else {
        let before = merged(files, more.drop_last());
        if table::lookup(before, more.last().0) is Some {
            before
        } else {
            before.push(more.last())
        }
    }
}

/// Adds the files whose paths are new.
pub fn merge_files(files: &mut Vec<(String, String)>, more: Vec<(String, String)>)
    ensures
        table::entries(final(files)@) == merged(
            table::entries(old(files)@),
            table::entries(more@),
        ),
{
    let ghost all = table::entries(more@);
    let mut i: usize = 0;
    assert(all.take(0) =~= seq![]);
    while i < more.len()
        invariant
            i <= more@.len(),
            all == table::entries(more@),
            table::entries(files@) == merged(
                table::entries(old(files)@),
                all.take(i as int),
            ),
        decreases more@.len() - i,
    {
        let ghost before = table::entries(files@);
        let ghost f = (more@[i as int].0@, more@[i as int].1@);
        proof {
            assert(all.take(i + 1).drop_last() =~= all.take(i as int));
            assert(all.take(i + 1).last() == f);
        }
        if table::find(files, more[i].0.as_str()).is_none() {
            files.push((more[i].0.clone(), more[i].1.clone()));
            assert(table::entries(files@) =~= before.push(f));
        }
        i += 1;
    }
    assert(all.take(i as int) =~= all);
}

/// What was received of a scaffold.
#[derive(Debug)]
pub struct ScaffoldReply {
    /// The text so far.
    pub response: String,
    /// The files found in it, as paths and contents.
    pub files: Vec<(String, String)>,
}

/// Whether files are looked for once a chunk has come.
pub open spec fn looks_for_files(chunk: ai::ResponseView, response: Seq<char>) -> bool {
    chunk.response_type == ResponseType::Scaffold && text::contains(response, "}"@)
}

/// The files found once a chunk has come, where `doc` is the JSON object in
/// the text.
pub open spec fn files_after(
    files: Seq<(Seq<char>, Seq<char>)>,
    doc: Option<json::JsonView>,
) -> Seq<(Seq<char>, Seq<char>)> {
    match doc {
        Some(d) => merged(files, ai::scaffold_files(d)),
        None => files,
    }
}

impl ScaffoldReply {
    /// Before the first chunk.
    pub fn new() -> (r: Self)
        ensures
            r.response@.len() == 0,
            r.files@.len() == 0,
    {
        ScaffoldReply { response: String::new(), files: Vec::new() }
    }

    /// Whether the text with a chunk added ends its JSON object no earlier
    /// than it begins it, if files are looked for.
    pub fn can_take(&self, chunk: &AiResponse) -> (r: bool)
        ensures
            r == (looks_for_files(chunk@, self.response@ + chunk.content@) ==> ai::has_json_span(
                self.response@ + chunk.content@,
            )),
    {
        let response = self.response.clone().concat(chunk.content.as_str());
        if chunk.response_type == ResponseType::Scaffold && text::str_contains(
            response.as_str(),
            "}",
        ) {
            AiClient::holds_json_span(response.as_str())
        } else {
            true
        }
    }

    /// Takes in a chunk, and the files that can be found with it.
    pub fn take(&mut self, chunk: &AiResponse)
        requires
            looks_for_files(chunk@, old(self).response@ + chunk.content@) ==> ai::has_json_span(
                old(self).response@ + chunk.content@,
            ),
        ensures
            final(self).response@ == old(self).response@ + chunk.content@,
            table::entries(final(self).files@) == if looks_for_files(
                chunk@,
                old(self).response@ + chunk.content@,
            ) {
                files_after(
                    table::entries(old(self).files@),
                    json::json_document(
                        ai::json_span(old(self).response@ + chunk.content@),
                    ),
                )
            } else {
                table::entries(old(self).files@)
            },
    {
        self.response.append(chunk.content.as_str());
        if chunk.response_type == ResponseType::Scaffold && text::str_contains(
            self.response.as_str(),
            "}",
        ) {
            if let Ok(more) = AiClient::parse_scaffold_data(self.response.as_str()) {
                merge_files(&mut self.files, more);
            }
        }
    }
}

/// A proposed file, below the working directory.
pub fn planned_file(current_dir: &str, path: &str, content: &str, exists: bool) -> (r: ScaffoldFile)
    ensures
        r.path@ == paths::join(current_dir@, path@),
        r.content@ == content@,
        r.exists == exists,
{
    ScaffoldFile {
        path: paths::join_paths(current_dir, path),
        content: content.to_owned(),
        exists,
    }
}

/// What follows the question whether to make the proposed files.
#[derive(Debug, Clone, Copy, PartialEq, Eq, Structural)]
pub enum Confirmation {
    /// The files are made, and what came of it is told.
    MakeFiles,
    /// No file is made, and that is told.
    Cancel,
    /// Nobody is left to answer or to tell.
    Leave,
}

/// What follows an answer; there is none where the question was dropped.
pub fn after_confirmation(answer: Option<bool>) -> (r: Confirmation)
    ensures
        r == match answer {
            Some(true) => Confirmation::MakeFiles,
            Some(false) => Confirmation::Cancel,
            None => Confirmation::Leave,
        },
{
    match answer {
        Some(true) => Confirmation::MakeFiles,
        Some(false) => Confirmation::Cancel,
        None => Confirmation::Leave,
    }
}

/// What is said when the proposed files were made.
pub open spec fn scaffold_summary(changes: Seq<ChangeView>) -> Seq<char> {
    if changes::changes_made(changes) == changes.len() {
        "✅ Successfully scaffolded project: "@ + text::decimal(changes.len())
            + " files created/modified"@
    } else {
        "⚠️ Partial success in project scaffolding: "@ + text::decimal(changes::changes_made(changes))
            + " of "@ + text::decimal(changes.len()) + " files processed"@
    }
}

/// The message when the proposed files were made.
pub fn scaffold_message(result: &ScaffoldResult) -> (r: AiResponse)
    requires
        changes::is_result(*result, changes::change_views(result.changes@)),
    ensures
        r@ == ai::complete(
            scaffold_summary(changes::change_views(result.changes@)),
            ResponseType::Scaffold,
        ),
{
    let total: usize = result.changes.len();
    let content = if result.success {
        "✅ Successfully scaffolded project: ".to_owned().concat(
            text::decimal_of(total as u64).as_str(),
        ).concat(" files created/modified")
    } else {
        let made: usize = changes::count_made(&result.changes);
        "⚠️ Partial success in project scaffolding: ".to_owned().concat(
            text::decimal_of(made as u64).as_str(),
        ).concat(" of ").concat(text::decimal_of(total as u64).as_str()).concat(" files processed")
    };
    AiResponse { content, is_chunk: false, response_type: ResponseType::Scaffold, tokens: None }
}

/// The message when the user does not want the proposed files.
pub fn cancel_message() -> (r: AiResponse)
    ensures
        r@ == ai::complete("Project scaffolding cancelled by user."@, ResponseType::General),
{
    AiResponse {
        content: "Project scaffolding cancelled by user.".to_owned(),
        is_chunk: false,
        response_type: ResponseType::General,
        tokens: None,
    }
}

/// A name that stands nowhere in a table is not found there after a pair with
/// another name is added.
proof fn lemma_lookup_push(
    t: Seq<(Seq<char>, Seq<char>)>,
    f: (Seq<char>, Seq<char>),
    name: Seq<char>,
)
    ensures
        table::lookup(t.push(f), name) == match table::lookup(t, name) {
            Some(v) => Some(v),
            None => if f.0 == name {
                Some(f.1)
            } else {
                None
            },
        },
    decreases t.len(),
{
    reveal_with_fuel(table::lookup, 2);
    if t.len() == 0 {
        assert(t.push(f).first() == f);
        assert(t.push(f).drop_first() =~= seq![]);
    } else {
        assert(t.push(f).first() == t.first());
        assert(t.push(f).drop_first() =~= t.drop_first().push(f));
        lemma_lookup_push(t.drop_first(), f, name);
    }
}

/// A name that is not found in a table stands at none of its places.
proof fn lemma_lookup_none(t: Seq<(Seq<char>, Seq<char>)>, name: Seq<char>, i: int)
    requires
        table::lookup(t, name) is None,
        0 <= i < t.len(),
    ensures
        t[i].0 != name,
    decreases t.len(),
{
    if i > 0 {
        lemma_lookup_none(t.drop_first(), name, i - 1);
    }
}

/// No path is proposed twice; a file that was found stays as it was found
/// first; and every path of a later list is there.
pub proof fn law_first_proposal_stays(
    files: Seq<(Seq<char>, Seq<char>)>,
    more: Seq<(Seq<char>, Seq<char>)>,
    path: Seq<char>,
)
    requires
        table::distinct(files),
    ensures
        table::distinct(merged(files, more)),
        table::lookup(files, path) is Some ==> table::lookup(merged(files, more), path)
            == table::lookup(files, path),
        forall|i: int|
            0 <= i < more.len() ==> table::lookup(
                merged(files, more),
                (#[trigger] more[i]).0,
            ) is Some,
    decreases more.len(),
{
    if more.len() > 0 {
        let rest = more.drop_last();
        let before = merged(files, rest);
        let f = more.last();
        law_first_proposal_stays(files, rest, path);
        let now = merged(files, more);
        if table::lookup(before, f.0) is None {
            lemma_lookup_push(before, f, path);
            assert forall|i: int, j: int| 0 <= i < j < now.len() implies #[trigger] now[i].0
                != #[trigger] now[j].0 by {
                if j == before.len() {
                    lemma_lookup_none(before, f.0, i);
                } else {
                    assert(before[i].0 != before[j].0);
                }
            }
        }
        assert forall|i: int| 0 <= i < more.len() implies table::lookup(
            now,
            (#[trigger] more[i]).0,
        ) is Some by {
            if i < rest.len() {
                assert(rest[i] == more[i]);
            }
            lemma_lookup_push(before, f, more[i].0);
        }
    }
}

/// Files that were found stay in front; a path that is new has the content under
/// which it is proposed first; and what is proposed under new paths, each once, comes
/// whole and in order.
pub proof fn law_new_proposals_are_added(
    files: Seq<(Seq<char>, Seq<char>)>,
    more: Seq<(Seq<char>, Seq<char>)>,
    path: Seq<char>,
)
    ensures
        files.is_prefix_of(merged(files, more)),
        table::lookup(files, path) is None ==> table::lookup(merged(files, more), path)
            == table::lookup(more, path),
        table::distinct(files + more) ==> merged(files, more) == files + more,
    decreases more.len(),
{
    if more.len() == 0 {
        assert(files =~= files.subrange(0, files.len() as int));
        assert(files + more =~= files);
    } else {
        let rest = more.drop_last();
        let f = more.last();
        let before = merged(files, rest);
        law_new_proposals_are_added(files, rest, path);
        law_new_proposals_are_added(files, rest, f.0);
        assert(files =~= before.subrange(0, files.len() as int));
        assert(files =~= before.push(f).subrange(0, files.len() as int));
        assert(more =~= rest.push(f));
        lemma_lookup_push(rest, f, path);
        lemma_lookup_push(before, f, path);
        if table::distinct(files + more) {
            let all = files + more;
            assert forall|i: int, j: int| 0 <= i < j < (files + rest).len() implies #[trigger] (
            files + rest)[i].0 != #[trigger] (files + rest)[j].0 by {
                assert((files + rest)[i] == all[i] && (files + rest)[j] == all[j]);
            }
            if table::lookup(before, f.0) is Some {
                let i = lemma_lookup_some(before, f.0);
                assert(all[i].0 != all[all.len() - 1].0);
            }
            assert(before.push(f) =~= files + more);
        }
    }
}

/// A name that is found stands somewhere.
proof fn lemma_lookup_some(t: Seq<(Seq<char>, Seq<char>)>, name: Seq<char>) -> (i: int)
    requires
        table::lookup(t, name) is Some,
    ensures
        0 <= i < t.len(),
        t[i].0 == name,
    decreases t.len(),
{
    if t.first().0 == name {
        0
    } else {
        1 + lemma_lookup_some(t.drop_first(), name)
    }
}

/// Noting a file changes nothing but the modified files: it puts the file behind them
/// if it is not among them. Forgetting one takes that file out and leaves the others.
pub proof fn law_only_that_file_is_noted(s: ScaffolderView, path: Seq<char>, other: Seq<char>)
    ensures
        !changes::among(s.modified_files, path) ==> s.noting(path).modified_files
            == s.modified_files.push(path),
        changes::among(s.modified_files, path) ==> s.noting(path) == s,
        s.noting(path).current_dir == s.current_dir,
        s.noting(path).built_in_templates == s.built_in_templates,
        s.noting(path).user_templates == s.user_templates,
        s.noting(path).ai_client == s.ai_client,
        s.forgetting(path).current_dir == s.current_dir,
        s.forgetting(path).built_in_templates == s.built_in_templates,
        s.forgetting(path).user_templates == s.user_templates,
        s.forgetting(path).ai_client == s.ai_client,
        !changes::same_path(other, path) ==> (changes::among(
            s.forgetting(path).modified_files,
            other,
        ) <==> changes::among(s.modified_files, other)),
        !changes::among(s.modified_files, path) ==> s.forgetting(path).modified_files
            == s.modified_files,
        !changes::among(s.modified_files, path) ==> s.noting(path).forgetting(path).modified_files
            == s.modified_files,
{
    let v = s.modified_files;
    let f = |p: Seq<char>| !changes::same_path(p, path);
    lemma_others_stay(v, path, other);
    if !changes::among(v, path) {
        reveal(Seq::filter);
        assert(v.push(path).drop_last() =~= v);
        assert(v.push(path).filter(f) =~= v.filter(f));
    }
}

/// The files that are not the same as one.
proof fn lemma_others_stay(v: Seq<Seq<char>>, path: Seq<char>, other: Seq<char>)
    ensures
        ({
            let left = v.filter(|p: Seq<char>| !changes::same_path(p, path));
            &&& !changes::same_path(other, path) ==> (changes::among(left, other)
                <==> changes::among(v, other))
            &&& !changes::among(v, path) ==> left == v
        }),
    decreases v.len(),
{
    reveal(Seq::filter);
    let f = |p: Seq<char>| !changes::same_path(p, path);
    if v.len() == 0 {
        assert(v.filter(f) =~= v);
    } else {
        let rest = v.drop_last();
        let last = v.last();
        lemma_others_stay(rest, path, other);
        assert(v =~= rest.push(last));
        lemma_among_push(rest, last, other);
        lemma_among_push(rest, last, path);
        lemma_among_push(rest.filter(f), last, other);
        if f(last) {
            assert(v.filter(f) =~= rest.filter(f).push(last));
        } else {
            assert(v.filter(f) =~= rest.filter(f));
        }
    }
}

/// A path is among some paths and one more where it is among them or the same as it.
proof fn lemma_among_push(v: Seq<Seq<char>>, last: Seq<char>, p: Seq<char>)
    ensures
        changes::among(v.push(last), p) <==> changes::among(v, p) || changes::same_path(last, p),
{
    let w = v.push(last);
    if changes::among(w, p) {
        let i = choose|i: int| 0 <= i < w.len() && changes::same_path(#[trigger] w[i], p);
        if i < v.len() {
            assert(changes::same_path(v[i], p));
        }
    }
    if changes::among(v, p) {
        let i = choose|i: int| 0 <= i < v.len() && changes::same_path(#[trigger] v[i], p);
        assert(changes::same_path(w[i], p));
    }
    if changes::same_path(last, p) {
        assert(changes::same_path(w[v.len() as int], p));
    }
}

/// A relative path is taken from the working directory and an absolute one as it
/// stands; where the parent is known as it really is, the file is looked for there.
pub proof fn law_paths_are_resolved(
    dir: Seq<char>,
    path: Seq<char>,
    parent: Seq<char>,
    name: Seq<char>,
    canon: &str,
)
    requires
        dir.len() > 0,
        dir.last() != '/',
        paths::is_name(name),
        parent.len() > 0,
        parent[0] == '/',
        parent.last() != '/',
        parent.last() != '.',
        canon@.len() > 0,
        canon@.last() != '/',
    ensures
        path.len() > 0 && path[0] == '/' ==> resolved(dir, path, None) == path,
        path.len() == 0 || path[0] != '/' ==> resolved(dir, path, None) == dir.push('/') + path,
        resolved(dir, parent.push('/') + name, Some(canon)) == canon@.push('/') + name,
        resolved(dir, parent.push('/') + name, None) == parent.push('/') + name,
{
    let full = parent.push('/') + name;
    assert(full[0] == '/');
    paths::law_parent_and_file_name(parent, name);
    assert(name[0] != '/') by {
        if name[0] == '/' {
            assert(name.contains('/'));
        }
    }
}

/// A name in the working directory may be touched, and so may what lies deeper. What
/// lies beside the directory may not, nor the directory above it, whether it is
/// reached by its path or by `..` from inside.
pub proof fn law_nothing_outside_is_allowed(
    base: Seq<char>,
    dir: Seq<char>,
    name: Seq<char>,
    other: Seq<char>,
)
    requires
        base.len() > 0,
        paths::is_name(dir),
        paths::is_name(name),
        paths::is_name(other),
        other != dir,
    ensures
        allowed((base.push('/') + dir).push('/') + name, base.push('/') + dir),
        !allowed(base.push('/') + other, base.push('/') + dir),
        !allowed(base, base.push('/') + dir),
        !allowed((base.push('/') + dir).push('/') + seq!['.', '.'], base.push('/') + dir),
        !allowed(
            ((base.push('/') + dir).push('/') + seq!['.', '.']).push('/') + other,
            base.push('/') + dir,
        ),
{
    let d = base.push('/') + dir;
    paths::law_paths_lead_in_or_out(base, dir, name, other);
    paths::law_paths_begin_by_component(d, name, name, d);
}

/// A backup stands beside the file, with the name of the file, the stamp and `.bak`.
pub proof fn law_backup_stands_beside(dir: Seq<char>, name: Seq<char>, stamp: Seq<char>)
    requires
        paths::is_name(name),
        dir.len() > 0,
        dir.last() != '/',
        dir.last() != '.',
    ensures
        backup_path(dir.push('/') + name, stamp) == dir.push('/') + (name + "."@ + stamp
            + ".bak"@),
        backup_path(name, stamp) == name + "."@ + stamp + ".bak"@,
{
    paths::law_parent_and_file_name(dir, name);
    let b = name + "."@ + stamp + ".bak"@;
    assert(b[0] == name[0]);
    assert(name[0] != '/') by {
        if name[0] == '/' {
            assert(name.contains('/'));
        }
    }
    assert(Seq::<char>::empty() + b =~= b);
}

/// What is said of the proposed files: how many there were where all were made, and
/// how many of how many where not.
pub proof fn law_scaffold_is_summed_up(v: Seq<ChangeView>)
    ensures
        (forall|i: int| 0 <= i < v.len() ==> #[trigger] v[i].success) ==> scaffold_summary(v)
            == "✅ Successfully scaffolded project: "@ + text::decimal(v.len())
            + " files created/modified"@,
        (exists|i: int| 0 <= i < v.len() && !(#[trigger] v[i]).success) ==> scaffold_summary(v)
            == "⚠️ Partial success in project scaffolding: "@ + text::decimal(
            changes::changes_made(v),
        ) + " of "@ + text::decimal(v.len()) + " files processed"@,
{
    changes::law_success_means_every_change(v);
}

/// Files are looked for in a scaffold once a brace was closed, and in no other reply;
/// where the text is no document, those found before stay.
pub proof fn law_files_are_looked_for(
    content: Seq<char>,
    response: Seq<char>,
    files: Seq<(Seq<char>, Seq<char>)>,
    items: Seq<json::JsonView>,
)
    ensures
        looks_for_files(
            ai::complete(content, ResponseType::Scaffold),
            response.push('}'),
        ),
        !response.contains('}') ==> !looks_for_files(
            ai::complete(content, ResponseType::Scaffold),
            response,
        ),
        !looks_for_files(ai::complete(content, ResponseType::General), response),
        !looks_for_files(ai::complete(content, ResponseType::Code), response),
        files_after(files, None) == files,
        files_after(
            seq![],
            Some(json::JsonView::Object(seq![("files"@, json::JsonView::Array(items))])),
        ) == merged(seq![], ai::item_files(items)),
{
    reveal_strlit("}");
    assert("}"@ =~= seq!['}']);
    let s = response.push('}');
    assert(s.subrange(response.len() as int, s.len() as int) =~= seq!['}']);
    assert(text::occurs_at(s, "}"@, response.len() as int));
    if text::contains(response, "}"@) {
        let i = choose|i: int| text::occurs_at(response, "}"@, i);
        assert(response.subrange(i, i + 1)[0] == '}');
        assert(response.contains('}'));
    }
    ai::law_items_are_files(seq![], seq![], items, seq![], json::JsonView::Null);
}

} // verus!
