//! Core data model: build tasks, captured tool output, and the error kinds
//! the library raises.

use vstd::prelude::*;

verus! {

/// One command invocation that forms a node of the build graph.
#[derive(Clone, Debug)]
pub struct BuildTask {
    /// Human label for progress output.
    pub title: String,
    /// Program path of the tool to invoke.
    pub program: String,
    /// Ordered raw argument strings; may contain `$(NAME)` references.
    pub args: Vec<String>,
    /// Directory to run the command in.
    pub working_dir: String,
    /// Environment for the invocation (replaces the inherited environment).
    pub env: Vec<(String, String)>,
}

/// Captured result of running one tool: its stdio and exit status.
#[derive(Clone, Debug)]
pub struct OutputInfo {
    pub stdout: Vec<u8>,
    pub stderr: Vec<u8>,
    /// `None` means the process was terminated by a signal.
    pub status: Option<i32>,
}

impl OutputInfo {
    /// A run succeeded exactly when it exited with status zero.
    pub open spec fn spec_success(self) -> bool {
        self.status == Some(0i32)
    }

    pub fn success(&self) -> (r: bool)
        ensures
            r == self.spec_success(),
    {
        match self.status {
            Some(code) => code == 0,
            None => false,
        }
    }
}

/// The error kinds the core raises.
#[derive(Clone, Copy, Debug, PartialEq, Eq, Structural)]
pub enum BuildError {
    /// The dependency graph has a cycle; detected before execution begins.
    GraphCycle,
    /// No manifest files were found among the command-line arguments.
    NoTasks,
    /// The preprocessor exited with a non-zero status.
    PreprocessorFailed,
    /// The post-filter could not parse the preprocessor's output.
    PreprocessedUnparseable,
    /// The compile subprocess exited with a non-zero status.
    CompileFailed,
    /// A wire frame was truncated or malformed.
    MalformedFrame,
    /// The builder transport failed; callers fall back to a local compile.
    RemoteUnavailable,
    /// The builder answered with its error variant; callers fall back.
    RemoteCompileError,
}

impl BuildError {
    /// A short description, for the driver's diagnostics.
    pub fn message(&self) -> &'static str {
        match self {
            BuildError::GraphCycle => "Found cycles in build dependencies",
            BuildError::NoTasks => "Build task files not found",
            BuildError::PreprocessorFailed => "Invalid preprocessor exit code",
            BuildError::PreprocessedUnparseable => "Can't parse preprocessed file",
            BuildError::CompileFailed => "Compilation failed",
            BuildError::MalformedFrame => "Malformed wire frame",
            BuildError::RemoteUnavailable => "Remote builder is unavailable",
            BuildError::RemoteCompileError => "Remote builder reported an error",
        }
    }
}

/// The decimal digit for a value below ten.
pub open spec fn dec_digit(n: int) -> char {
    if n == 0 {
        '0'
    } else if n == 1 {
        '1'
    } else if n == 2 {
        '2'
    } else if n == 3 {
        '3'
    } else if n == 4 {
        '4'
    } else if n == 5 {
        '5'
    } else if n == 6 {
        '6'
    } else if n == 7 {
        '7'
    } else if n == 8 {
        '8'
    } else {
        '9'
    }
}

/// A number in decimal, most significant digit first.
pub open spec fn dec_spec(n: int) -> Seq<char>
    decreases n,
{
    if n < 10 {
        seq![dec_digit(n)]
    } else {
        dec_spec(n / 10).push(dec_digit(n % 10))
    }
}

fn dec_digit_char(n: u8) -> (c: char)
    requires
        n < 10,
    ensures
        c == dec_digit(n as int),
{
    if n == 0 {
        '0'
    } else if n == 1 {
        '1'
    } else if n == 2 {
        '2'
    } else if n == 3 {
        '3'
    } else if n == 4 {
        '4'
    } else if n == 5 {
        '5'
    } else if n == 6 {
        '6'
    } else if n == 7 {
        '7'
    } else if n == 8 {
        '8'
    } else {
        '9'
    }
}

/// Render a number in decimal.
pub fn usize_to_string(n: usize) -> (r: String)
    ensures
        r@ == dec_spec(n as int),
    decreases n,
{
    if n < 10 {
        let mut s = String::new();
        s.push(dec_digit_char(n as u8));
        proof {
            assert(s@ =~= dec_spec(n as int));
        }
        s
    } else {
        let mut s = usize_to_string(n / 10);
        s.push(dec_digit_char((n % 10) as u8));
        s
    }
}

/// The progress line the scheduler prints for each ingested result:
/// `#<worker> <done>/<total>: <title>`.
pub open spec fn progress_line_spec(w: int, done: int, total: int, title: Seq<char>) -> Seq<char> {
    seq!['#'] + dec_spec(w) + seq![' '] + dec_spec(done) + seq!['/'] + dec_spec(total) + seq![
        ':',
        ' ',
    ] + title
}

/// Format one progress line.
pub fn progress_line(worker: usize, done: usize, total: usize, title: &str) -> (r: String)
    ensures
        r@ == progress_line_spec(worker as int, done as int, total as int, title@),
{
    let mut s = String::new();
    proof {
        reveal_strlit("#");
        reveal_strlit(" ");
        reveal_strlit("/");
        reveal_strlit(": ");
        assert("#"@ =~= seq!['#']);
        assert(" "@ =~= seq![' ']);
        assert("/"@ =~= seq!['/']);
        assert(": "@ =~= seq![':', ' ']);
    }
    s.append("#");
    let w = usize_to_string(worker);
    s.append(w.as_str());
    s.append(" ");
    let d = usize_to_string(done);
    s.append(d.as_str());
    s.append("/");
    let t = usize_to_string(total);
    s.append(t.as_str());
    s.append(": ");
    s.append(title);
    proof {
        assert(s@ =~= progress_line_spec(worker as int, done as int, total as int, title@));
    }
    s
}

} // verus!
