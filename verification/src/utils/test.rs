//! Stand-ins for commands and files, and a small project to test with.

use vstd::prelude::*;
use vstd::slice::slice_to_vec;
use vstd::utf8::*;
use crate::paths;
use crate::table;
use crate::text;
use crate::utils::fs::FileError;

verus! {

/// The manifest of the test project.
pub const TEST_MANIFEST: &'static str = "[package]\nname = \"test_project\"\nversion = \"0.1.0\"\nedition = \"2021\"\n\n[dependencies]\n";

/// The program of the test project.
pub const TEST_MAIN: &'static str = "fn main() {\n    println!(\"Hello, world!\");\n}\n";

/// The library of the test project.
pub const TEST_LIB: &'static str = "pub fn add(a: i32, b: i32) -> i32 {\n    a + b\n}\n\n#[cfg(test)]\nmod tests {\n    use super::*;\n    \n    #[test]\n    fn test_add() {\n        assert_eq!(add(2, 2), 4);\n    }\n}\n";

/// The integration test of the test project.
pub const TEST_INTEGRATION: &'static str = "#[test]\nfn test_integration() {\n    assert_eq!(2 + 2, 4);\n}\n";

/// Where a test file stands.
pub fn create_test_file(dir: &str, name: &str) -> (r: String)
    ensures
        r@ == paths::join(dir@, name@),
{
    paths::join_paths(dir, name)
}

/// The directories of the test project.
pub open spec fn test_directories(dir: Seq<char>) -> Seq<Seq<char>> {
    seq![paths::join(dir, "src"@), paths::join(dir, "tests"@)]
}

/// The files of the test project, with their contents.
pub open spec fn test_files(dir: Seq<char>) -> Seq<(Seq<char>, Seq<char>)> {
    seq![
        (paths::join(dir, "Cargo.toml"@), TEST_MANIFEST@),
        (paths::join(dir, "src/main.rs"@), TEST_MAIN@),
        (paths::join(dir, "src/lib.rs"@), TEST_LIB@),
        (paths::join(dir, "tests/integration_test.rs"@), TEST_INTEGRATION@),
    ]
}

/// The directories and files to make for a test project.
pub fn create_test_project(dir: &str) -> (r: (Vec<String>, Vec<(String, String)>))
    ensures
        text::views(r.0@) == test_directories(dir@),
        table::entries(r.1@) == test_files(dir@),
{
    let mut dirs: Vec<String> = Vec::new();
    dirs.push(paths::join_paths(dir, "src"));
    dirs.push(paths::join_paths(dir, "tests"));
    let mut files: Vec<(String, String)> = Vec::new();
    files.push((create_test_file(dir, "Cargo.toml"), TEST_MANIFEST.to_owned()));
    files.push((create_test_file(dir, "src/main.rs"), TEST_MAIN.to_owned()));
    files.push((create_test_file(dir, "src/lib.rs"), TEST_LIB.to_owned()));
    files.push((create_test_file(dir, "tests/integration_test.rs"), TEST_INTEGRATION.to_owned()));
    assert(text::views(dirs@) =~= test_directories(dir@));
    assert(table::entries(files@) =~= test_files(dir@));
    (dirs, files)
}

/// Mock command execution for testing.
#[derive(Debug)]
pub struct MockCommand {
    /// The command being mocked.
    pub command: String,
    /// The arguments passed to the command.
    pub args: Vec<String>,
    /// The stdout output to return.
    pub stdout: String,
    /// The stderr output to return.
    pub stderr: String,
    /// The exit code to return.
    pub exit_code: i32,
}

/// What a `MockCommand` holds.
pub struct MockView {
    pub command: Seq<char>,
    pub args: Seq<Seq<char>>,
    pub stdout: Seq<char>,
    pub stderr: Seq<char>,
    pub exit_code: i32,
}

impl View for MockCommand {
    type V = MockView;

    open spec fn view(&self) -> MockView {
        MockView {
            command: self.command@,
            args: text::views(self.args@),
            stdout: self.stdout@,
            stderr: self.stderr@,
            exit_code: self.exit_code,
        }
    }
}

/// What a mock command returns.
#[derive(Debug)]
pub struct MockOutput {
    /// The status as the system has it for a process that has exited: the exit
    /// code, of which the system keeps eight bits, stands above the lowest
    /// eight bits.
    pub status: i32,
    pub stdout: Vec<u8>,
    pub stderr: Vec<u8>,
}

impl Default for MockCommand {
    fn default() -> (r: Self)
        ensures
            r@ == (MockView {
                command: seq![],
                args: seq![],
                stdout: seq![],
                stderr: seq![],
                exit_code: 0,
            }),
    {
        let r = MockCommand {
            command: String::new(),
            args: Vec::new(),
            stdout: String::new(),
            stderr: String::new(),
            exit_code: 0,
        };
        assert(r@.args =~= seq![]);
        assert(r@.command =~= seq![]);
        r
    }
}

impl MockCommand {
    /// Creates a new MockCommand.
    pub fn new(command: &str) -> (r: Self)
        ensures
            r@ == (MockView {
                command: command@,
                args: seq![],
                stdout: seq![],
                stderr: seq![],
                exit_code: 0,
            }),
    {
        let mut r = MockCommand::default();
        r.command = command.to_owned();
        r
    }

    /// Sets the arguments for the command.
    pub fn with_args(self, args: &[&str]) -> (r: Self)
        ensures
            r@ == (MockView { args: args@.map_values(|a: &str| a@), ..self@ }),
    {
        let ghost f = |a: &str| a@;
        let mut list: Vec<String> = Vec::new();
        let mut i: usize = 0;
        assert(text::views(list@) =~= args@.take(0).map_values(f));
        while i < args.len()
            invariant
                i <= args@.len(),
                f == (|a: &str| a@),
                text::views(list@) == args@.take(i as int).map_values(f),
            decreases args@.len() - i,
        {
            let ghost before = text::views(list@);
            list.push(args[i].to_owned());
            proof {
                assert(text::views(list@) =~= before.push(f(args@[i as int])));
                assert(args@.take(i + 1).map_values(f) =~= before.push(f(args@[i as int])));
            }
            i += 1;
        }
        assert(args@.take(i as int) =~= args@);
        let mut r = self;
        r.args = list;
        r
    }

    /// Sets the stdout output.
    pub fn with_stdout(self, stdout: &str) -> (r: Self)
        ensures
            r@ == (MockView { stdout: stdout@, ..self@ }),
    {
        let mut r = self;
        r.stdout = stdout.to_owned();
        r
    }

    /// Sets the stderr output.
    pub fn with_stderr(self, stderr: &str) -> (r: Self)
        ensures
            r@ == (MockView { stderr: stderr@, ..self@ }),
    {
        let mut r = self;
        r.stderr = stderr.to_owned();
        r
    }

    /// Sets the exit code.
    pub fn with_exit_code(self, code: i32) -> (r: Self)
        ensures
            r@ == (MockView { exit_code: code, ..self@ }),
    {
        let mut r = self;
        r.exit_code = code;
        r
    }

    /// Executes the mock command and returns the output.
    pub fn execute(&self) -> (r: MockOutput)
        ensures
            r.status == (self@.exit_code % 256) * 256,
            r.stdout@ == encode_utf8(self@.stdout),
            r.stderr@ == encode_utf8(self@.stderr),
    {
        let code: i64 = (self.exit_code as i64 + 0x1_0000_0000) % 256;
        MockOutput {
            status: (code * 256) as i32,
            stdout: slice_to_vec(self.stdout.as_str().as_bytes()),
            stderr: slice_to_vec(self.stderr.as_str().as_bytes()),
        }
    }
}

/// Mock file for testing.
#[derive(Debug)]
pub struct MockFile {
    /// Path to the mock file.
    pub path: String,
    /// Content of the mock file.
    pub content: String,
    /// Whether the file exists.
    pub exists: bool,
}

impl MockFile {
    /// What can be read from the file; nothing where it does not exist.
    pub open spec fn readable(self) -> Option<Seq<char>> {
        if self.exists {
            Some(self.content@)
        } else {
            None
        }
    }

    /// Creates a new MockFile.
    pub fn new(path: &str, content: &str, exists: bool) -> (r: Self)
        ensures
            r.path@ == path@,
            r.content@ == content@,
            r.exists == exists,
    {
        MockFile { path: path.to_owned(), content: content.to_owned(), exists }
    }

    /// Reads the content of the mock file.
    pub fn read(&self) -> (r: Result<String, FileError>)
        ensures
            match r {
                Ok(content) => self.readable() == Some(content@),
                Err(FileError::Missing(p)) => self.readable() is None && p@ == self.path@,
                Err(_) => false,
            },
    {
        if !self.exists {
            return Err(FileError::Missing(self.path.clone()));
        }
        Ok(self.content.clone())
    }

    /// Writes content to the mock file, which is there from then on: a read
    /// gives back what was written.
    pub fn write(&mut self, content: &str)
        ensures
            final(self).path == old(self).path,
            final(self).readable() == Some(content@),
    {
        self.content = content.to_owned();
        self.exists = true;
    }
}

/// The test project has a manifest, a program, a library and a test, each with its
/// content, and the directories that they need.
pub proof fn law_test_project_is_complete(dir: Seq<char>)
    ensures
        test_directories(dir).len() == 2,
        test_directories(dir)[0] == paths::join(dir, "src"@),
        test_directories(dir)[1] == paths::join(dir, "tests"@),
        test_files(dir).len() == 4,
        test_files(dir)[0] == (paths::join(dir, "Cargo.toml"@), TEST_MANIFEST@),
        test_files(dir)[1] == (paths::join(dir, "src/main.rs"@), TEST_MAIN@),
        test_files(dir)[2] == (paths::join(dir, "src/lib.rs"@), TEST_LIB@),
        test_files(dir)[3] == (paths::join(dir, "tests/integration_test.rs"@), TEST_INTEGRATION@),
{
}

/// A file can be read where it exists, and gives its content then.
pub proof fn law_existing_file_is_readable(f: MockFile)
    ensures
        f.exists ==> f.readable() == Some(f.content@),
        !f.exists ==> f.readable() is None,
{
}

} // verus!
