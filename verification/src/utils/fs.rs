//! Paths and files.

use vstd::prelude::*;
use crate::paths;
use crate::scaffold;
use crate::session;
use crate::text;
use crate::time;

verus! {

/// Why a file operation was refused.
#[derive(Debug)]
pub enum FileError {
    /// The file is not there.
    Missing(String),
    /// The file was modified later than now.
    FromTheFuture,
}

impl FileError {
    /// The message for an error.
    pub open spec fn text(self) -> Seq<char> {
        match self {
            FileError::Missing(path) => "File does not exist: "@ + path@,
            FileError::FromTheFuture => "Failed to calculate file age"@,
        }
    }

    /// The message for an error.
    pub fn message(&self) -> (r: String)
        ensures
            r@ == self.text(),
    {
        match self {
            FileError::Missing(path) => "File does not exist: ".to_owned().concat(path.as_str()),
            FileError::FromTheFuture => "Failed to calculate file age".to_owned(),
        }
    }
}

/// Checks if a path is a child of another path, where both are given as they
/// really are, if that is known.
pub fn is_child_path(parent: Option<&str>, child: Option<&str>) -> (r: bool)
    ensures
        r == match (parent, child) {
            (Some(p), Some(c)) => paths::starts_with(c@, p@),
            _ => false,
        },
{
    match (parent, child) {
        (Some(p), Some(c)) => paths::path_starts_with(c, p),
        _ => false,
    }
}

/// The pattern for files below a directory.
pub fn find_files(dir: &str, pattern: &str) -> (r: String)
    ensures
        r@ == dir@ + "/"@ + pattern@,
{
    dir.to_owned().concat("/").concat(pattern)
}

/// The paths of the directories among what was found.
pub open spec fn directories_among(found: Seq<(String, bool)>) -> Seq<Seq<char>>
    decreases found.len(),
{
    if found.len() == 0 {
        seq![]
    } else if found.last().1 {
        directories_among(found.drop_last()).push(found.last().0@)
    } else {
        directories_among(found.drop_last())
    }
}

/// Finds the directories among what was found: paths, each with whether it is
/// a directory.
pub fn find_directories(found: &Vec<(String, bool)>) -> (r: Vec<String>)
    ensures
        text::views(r@) == directories_among(found@),
{
    let mut out: Vec<String> = Vec::new();
    let mut i: usize = 0;
    assert(found@.take(0) =~= seq![]);
    assert(text::views(out@) =~= directories_among(found@.take(0)));
    while i < found.len()
        invariant
            i <= found@.len(),
            text::views(out@) == directories_among(found@.take(i as int)),
        decreases found@.len() - i,
    {
        let ghost before = text::views(out@);
        proof {
            assert(found@.take(i + 1).drop_last() =~= found@.take(i as int));
            assert(found@.take(i + 1).last() == found@[i as int]);
        }
        if found[i].1 {
            out.push(found[i].0.clone());
            assert(text::views(out@) =~= before.push(found@[i as int].0@));
        }
        i += 1;
    }
    assert(found@.take(i as int) =~= found@);
    out
}

/// Gets the file extension as a string.
pub fn get_file_extension(path: &str) -> (r: Option<String>)
    ensures
        session::opt_view(r) == paths::extension(path@),
{
    paths::extension_of(path)
}

/// Checks if a file is older than a given duration. All times are in
/// nanoseconds, those of the file and of now since the same moment.
pub fn is_file_older_than(modified: u128, now: u128, duration: u128) -> (r: Result<bool, FileError>)
    ensures
        match r {
            Ok(older) => modified <= now && older == (now - modified > duration),
            Err(e) => modified > now && e is FromTheFuture,
        },
{
    if modified > now {
        return Err(FileError::FromTheFuture);
    }
    Ok(now - modified > duration)
}

/// Where to back up a file: beside it, with the local time in its name.
pub fn backup_file(path: &str, exists: bool) -> (r: Result<String, FileError>)
    ensures
        match r {
            Ok(p) => exists && exists|stamp: Seq<char>|
                time::is_stamp(stamp) && p@ == #[trigger] scaffold::backup_path(path@, stamp),
            Err(FileError::Missing(p)) => !exists && p@ == path@,
            Err(_) => false,
        },
{
    if !exists {
        return Err(FileError::Missing(path.to_owned()));
    }
    let stamp = time::local_stamp();
    Ok(scaffold::backup_path_at(path, stamp.as_str()))
}

/// The directory that has to be there before a file can be made.
pub fn create_file_with_parents(path: &str) -> (r: Option<String>)
    ensures
        session::opt_view(r) == paths::parent(path@),
{
    paths::parent_of(path)
}

/// The directories among two lists are those of the first and then those of the
/// second; of one thing found, its path where it is a directory.
pub proof fn law_directories_are_picked_out(
    a: Seq<(String, bool)>,
    b: Seq<(String, bool)>,
    path: String,
)
    ensures
        directories_among(a + b) == directories_among(a) + directories_among(b),
        directories_among(seq![(path, true)]) == seq![path@],
        directories_among(seq![(path, false)]).len() == 0,
        directories_among(seq![]).len() == 0,
    decreases b.len(),
{
    reveal_with_fuel(directories_among, 2);
    assert(seq![(path, true)].drop_last() =~= seq![]);
    assert(seq![(path, false)].drop_last() =~= seq![]);
    assert(directories_among(seq![(path, true)]) =~= seq![path@]);
    if b.len() == 0 {
        assert(a + b =~= a);
        assert(directories_among(a) + directories_among(b) =~= directories_among(a));
    } else {
        law_directories_are_picked_out(a, b.drop_last(), path);
        assert((a + b).drop_last() =~= a + b.drop_last());
        assert((a + b).last() == b.last());
        assert(directories_among(a + b) =~= directories_among(a) + directories_among(b));
    }
}

/// A missing file is named.
pub proof fn law_missing_file_is_named(path: String)
    ensures
        FileError::Missing(path).text() == "File does not exist: "@ + path@,
        FileError::FromTheFuture.text() == "Failed to calculate file age"@,
{
}

} // verus!
