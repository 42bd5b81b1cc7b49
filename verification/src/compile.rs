//! Compiling submissions on the remote host: the outcome of a compile, the
//! parsing of what the remote shell sends back, and the commands to run.

use vstd::prelude::*;
use vstd::utf8::{valid_utf8, decode_utf8};
use crate::paint::{bold, green, yellow, red, cyan, bold_spec, green_spec, yellow_spec, red_spec, cyan_spec};
use crate::text::{
    lines_of, lines_spec, texts, starts_with, parse_i32, parse_i32_spec, is_blank, is_blank_spec,
    chars_of, string_from, i32_decimal, int_decimal, last_index_in,
    last_index_of, lemma_last_index_of_bounds, push_char, printed, plain_line, lemma_lines_of_printed,
    lemma_parse_i32_decimal, white_space,
};
use crate::paths::{file_name, file_name_spec};
use crate::table::{Table, shaped, fitted_widths, cells};

verus! {

/// How a compile went.
#[derive(Debug, Clone, Copy, PartialEq, Eq, Structural)]
pub enum Status {
    Success,
    Warning,
    Fail,
}

pub open spec fn status_name(s: Status) -> Seq<char> {
    match s {
        Status::Success => "success"@,
        Status::Warning => "warning"@,
        Status::Fail => "fail"@,
    }
}

/// The status name in bold: green, yellow or red.
pub open spec fn status_pretty_text(s: Status) -> Seq<char> {
    match s {
        Status::Success => bold_spec(green_spec("success"@)),
        Status::Warning => bold_spec(yellow_spec("warning"@)),
        Status::Fail => bold_spec(red_spec("fail"@)),
    }
}

impl Status {
    /// The status as text (`success`, `warning`, `fail`).
    pub fn text(&self) -> (r: String)
        ensures
            r@ == status_name(*self),
    {
        match self {
            Status::Success => String::from_str("success"),
            Status::Warning => String::from_str("warning"),
            Status::Fail => String::from_str("fail"),
        }
    }
}

/// A status shown in colour.
pub struct StatusPretty(pub Status);

impl StatusPretty {
    /// The status name in bold and in its colour.
    pub fn text(&self) -> (r: String)
        ensures
            r@ == status_pretty_text(self.0),
    {
        match self.0 {
            Status::Success => bold(green("success").as_str()),
            Status::Warning => bold(yellow("warning").as_str()),
            Status::Fail => bold(red("fail").as_str()),
        }
    }
}

/// What compiling one file gave.
pub struct CompileResult {
    pub file: String,
    pub stdout: String,
    pub stderr: String,
    pub exit_code: i32,
}

/// Success when the compiler exited with 0 and printed nothing but white
/// space, a warning when it exited with 0 and printed something, else a
/// failure.
pub open spec fn status_spec(exit_code: i32, stdout: Seq<char>) -> Status {
    if exit_code == 0 {
        if is_blank_spec(stdout) {
            Status::Success
        } else {
            Status::Warning
        }
    } else {
        Status::Fail
    }
}

/// A compile that exited with a non-zero code failed, whatever it printed;
/// one that exited with 0 is a success when its output holds nothing but
/// white space, and a warning when it holds anything else.
pub proof fn lemma_status_classes(exit_code: i32, stdout: Seq<char>)
    ensures
        exit_code != 0 ==> status_spec(exit_code, stdout) == Status::Fail,
        status_spec(exit_code, stdout) == Status::Fail ==> exit_code != 0,
        status_spec(exit_code, stdout) == Status::Warning <==> (exit_code == 0 && exists|i: int|
            0 <= i < stdout.len() && !white_space(#[trigger] stdout[i])),
        status_spec(exit_code, stdout) == Status::Success <==> (exit_code == 0 && forall|i: int|
            0 <= i < stdout.len() ==> white_space(#[trigger] stdout[i])),
{
}

impl CompileResult {
    pub fn status(&self) -> (r: Status)
        ensures
            r == status_spec(self.exit_code, self.stdout@),
            self.exit_code != 0 ==> r == Status::Fail,
            r == Status::Warning <==> (self.exit_code == 0 && exists|i: int|
                0 <= i < self.stdout@.len() && !white_space(#[trigger] self.stdout@[i])),
            r == Status::Success <==> (self.exit_code == 0 && forall|i: int|
                0 <= i < self.stdout@.len() ==> white_space(#[trigger] self.stdout@[i])),
    {
        proof {
            lemma_status_classes(self.exit_code, self.stdout@);
        }
        if self.exit_code == 0 {
            if is_blank(self.stdout.as_str()) {
                Status::Success
            } else {
                Status::Warning
            }
        } else {
            Status::Fail
        }
    }

    pub fn status_pretty(&self) -> (r: StatusPretty)
        ensures
            r.0 == status_spec(self.exit_code, self.stdout@),
    {
        StatusPretty(self.status())
    }
}

/// What a command run on the remote host printed, and how it exited.
pub struct RemoteOutput {
    pub stdout: String,
    pub stderr: String,
    pub exit_code: i32,
}

/// Why compiling a file could not be done.
#[derive(Debug, PartialEq, Eq)]
pub enum CompileError {
    /// The file is not under the workspace root.
    NotInWorkspace,
    /// The path below the workspace root is not `<class>/<assignment>/<file>.c`.
    InvalidPath(String),
    /// The file name does not hold a student name followed by `-`.
    NoStudentName(String),
    /// The remote output carried no exit status.
    NoExitCode,
}

pub open spec fn compile_error_message(e: CompileError) -> Seq<char> {
    match e {
        CompileError::NotInWorkspace => "file is not in the 'ta' directory"@,
        CompileError::InvalidPath(p) => "invalid path: '"@ + p@
            + "'\nshould have the format ta/<class>/<assignment>/<file>.c"@,
        CompileError::NoStudentName(f) => "cannot tell the student from file name '"@ + f@ + "'"@,
        CompileError::NoExitCode => "could not determine remote exit code"@,
    }
}

impl CompileError {
    /// The text shown to the user.
    pub fn message(&self) -> (r: String)
        ensures
            r@ == compile_error_message(*self),
    {
        match self {
            CompileError::NotInWorkspace => String::from_str("file is not in the 'ta' directory"),
            CompileError::InvalidPath(p) => {
                let mut r = String::from_str("invalid path: '");
                r.append(p.as_str());
                r.append("'\nshould have the format ta/<class>/<assignment>/<file>.c");
                r
            },
            CompileError::NoStudentName(f) => {
                let mut r = String::from_str("cannot tell the student from file name '");
                r.append(f.as_str());
                r.append("'");
                r
            },
            CompileError::NoExitCode => String::from_str("could not determine remote exit code"),
        }
    }
}

/// The tag the remote shell prints before the exit status.
pub open spec fn exit_tag() -> Seq<char> {
    "exit:"@
}

/// Reading the remote output line by line: a line starting with `exit:`
/// sets the exit status to what follows (nothing when that is not an
/// `i32`); every other line goes to the output, with a newline.
pub open spec fn collect_output(lines: Seq<Seq<char>>) -> (Option<i32>, Seq<char>)
    decreases lines.len(),
{
    if lines.len() == 0 {
        (None, seq![])
    } else {
        let (code, out) = collect_output(lines.drop_last());
        let l = lines.last();
        if exit_tag().len() <= l.len() && l.subrange(0, exit_tag().len() as int) == exit_tag() {
            (parse_i32_spec(l.subrange(exit_tag().len() as int, l.len() as int)), out)
        } else {
            (code, out + l + seq!['\n'])
        }
    }
}

/// The remote output of a command run by `remote_command`: its printed lines
/// and the exit status the last `exit:` line gives.
pub open spec fn remote_output_spec(raw: Seq<char>) -> Option<(Seq<char>, i32)> {
    let (code, out) = collect_output(lines_spec(raw));
    match code {
        Some(c) => Some((out, c)),
        None => None,
    }
}

/// A line the remote command printed that does not start with `exit:`.
pub open spec fn output_line(l: Seq<char>) -> bool {
    plain_line(l) && !starts_with_spec(l, exit_tag())
}

proof fn lemma_collect_plain(lines: Seq<Seq<char>>)
    requires
        forall|i: int| 0 <= i < lines.len() ==> output_line(#[trigger] lines[i]),
    ensures
        collect_output(lines) == (None::<i32>, printed(lines)),
    decreases lines.len(),
{
    if lines.len() > 0 {
        let prev = lines.drop_last();
        assert forall|i: int| 0 <= i < prev.len() implies output_line(#[trigger] prev[i]) by {
            assert(prev[i] == lines[i]);
        }
        lemma_collect_plain(prev);
        assert(output_line(lines[lines.len() - 1]));
    }
}

/// What a command printed (lines that do not start with `exit:`), followed
/// by the `exit:` line with its exit status, reads back as that output and
/// that status.
pub proof fn lemma_remote_output_roundtrip(lines: Seq<Seq<char>>, code: i32)
    requires
        forall|i: int| 0 <= i < lines.len() ==> output_line(#[trigger] lines[i]),
    ensures
        remote_output_spec(printed(lines) + exit_tag() + int_decimal(code as int) + seq!['\n'])
            == Some((printed(lines), code)),
{
    reveal_strlit("exit:");
    let x = exit_tag() + int_decimal(code as int);
    let all = lines.push(x);
    lemma_parse_i32_decimal(code);
    crate::text::lemma_decimal_digits(if code < 0 { (-code) as nat } else { code as nat });
    assert(plain_line(x)) by {
        let d = int_decimal(code as int);
        assert forall|i: int| 0 <= i < x.len() implies x[i] != '\n' by {
            if i >= 5 {
                assert(x[i] == d[i - 5]);
                if code < 0 && i == 5 {
                } else if code < 0 {
                    assert(d[i - 5] == crate::text::nat_decimal((-code) as nat)[i - 6]);
                    assert(crate::text::ascii_digit(crate::text::nat_decimal((-code) as nat)[i - 6]));
                } else {
                    assert(crate::text::ascii_digit(crate::text::nat_decimal(code as nat)[i - 5]));
                }
            }
        }
        let last = x.len() - 1;
        if code < 0 {
            let nd = crate::text::nat_decimal((-code) as nat);
            assert(x[last] == nd[nd.len() - 1]);
            assert(crate::text::ascii_digit(nd[nd.len() - 1]));
        } else {
            let nd = crate::text::nat_decimal(code as nat);
            assert(x[last] == nd[nd.len() - 1]);
            assert(crate::text::ascii_digit(nd[nd.len() - 1]));
        }
    }
    assert forall|i: int| 0 <= i < all.len() implies plain_line(#[trigger] all[i]) by {
        if i < lines.len() {
            assert(all[i] == lines[i]);
            assert(output_line(lines[i]));
        }
    }
    lemma_lines_of_printed(all);
    assert(printed(all) =~= printed(lines) + exit_tag() + int_decimal(code as int) + seq!['\n']) by {
        assert(all.drop_last() =~= lines);
    }
    assert(all.drop_last() =~= lines);
    lemma_collect_plain(lines);
    assert(x.subrange(0, 5) =~= exit_tag());
    assert(x.subrange(5, x.len() as int) =~= int_decimal(code as int));
}

/// The command run on the remote host for `cmd`: its error output merged
/// into its output, then its exit status after `exit:`.
pub fn remote_command(cmd: &str) -> (r: String)
    ensures
        r@ == cmd@ + " 2>&1; echo \"exit:$?\""@,
{
    let mut r = cmd.to_owned();
    r.append(" 2>&1; echo \"exit:$?\"");
    r
}

/// What `String::from_utf8_lossy` returns for `bytes` (invalid sequences
/// replaced by U+FFFD).
pub uninterp spec fn utf8_lossy(bytes: Seq<u8>) -> Seq<char>;

/// `String::from_utf8_lossy`; its result is named by `utf8_lossy`, and on
/// valid UTF-8 it is the decoded text.
#[verifier::external_body]
fn from_utf8_lossy(bytes: &[u8]) -> (r: String)
    ensures
        r@ == utf8_lossy(bytes@),
        valid_utf8(bytes@) ==> r@ == decode_utf8(bytes@),
{
    String::from_utf8_lossy(bytes).into_owned()
}

/// The output and exit status in the text the remote shell sent back.
pub fn parse_remote_output(raw_stdout: &str, stderr: String) -> (r: Result<RemoteOutput, CompileError>)
    ensures
        match remote_output_spec(raw_stdout@) {
            Some((out, code)) => r matches Ok(o) && o.stdout@ == out && o.stderr == stderr
                && o.exit_code == code,
            None => r == Err::<RemoteOutput, CompileError>(CompileError::NoExitCode),
        },
{
    let lines = lines_of(raw_stdout);
    let ghost ls = texts(lines@);
    let mut exit_code: Option<i32> = None;
    let mut stdout = String::new();
    let tag = "exit:";
    proof {
        reveal_strlit("exit:");
    }
    for i in 0..lines.len()
        invariant
            ls == texts(lines@),
            ls == lines_spec(raw_stdout@),
            tag@ == exit_tag(),
            tag@.len() == 5,
            (exit_code, stdout@) == collect_output(ls.subrange(0, i as int)),
    {
        let line = lines[i].as_str();
        assert(ls.subrange(0, i + 1).drop_last() =~= ls.subrange(0, i as int));
        assert(ls[i as int] == line@);
        if starts_with(line, tag) {
            let v = chars_of(line);
            let rest = string_from(&v, 5, v.len());
            exit_code = parse_i32(rest.as_str());
        } else {
            stdout.append(line);
            stdout.append("\n");
            proof {
                reveal_strlit("\n");
                assert("\n"@ =~= seq!['\n']);
            }
        }
    }
    assert(ls.subrange(0, lines@.len() as int) =~= ls);
    match exit_code {
        Some(code) => Ok(RemoteOutput { stdout, stderr, exit_code: code }),
        None => Err(CompileError::NoExitCode),
    }
}

/// The output of a remote run from the bytes it wrote: both streams read as
/// UTF-8 (invalid sequences replaced), then parsed by `parse_remote_output`.
pub fn ssh_output(stdout: &[u8], stderr: &[u8]) -> (r: Result<RemoteOutput, CompileError>)
    ensures
        match remote_output_spec(utf8_lossy(stdout@)) {
            Some((out, code)) => r matches Ok(o) && o.stdout@ == out && o.stderr@ == utf8_lossy(stderr@)
                && o.exit_code == code,
            None => r == Err::<RemoteOutput, CompileError>(CompileError::NoExitCode),
        },
{
    let raw = from_utf8_lossy(stdout);
    let err = from_utf8_lossy(stderr);
    parse_remote_output(raw.as_str(), err)
}


/// The flags `%GCC_FLAGS` stands for.
pub open spec fn gcc_flags() -> Seq<char> {
    "-Wall -Wextra -pedantic -fdiagnostics-color=always"@
}

pub open spec fn starts_with_spec(t: Seq<char>, p: Seq<char>) -> bool {
    p.len() <= t.len() && t.subrange(0, p.len() as int) == p
}

/// The compile command from `template`, read from left to right: each
/// `%REMOTE_PATH` replaced by `path`, each `%REMOTE_BUILD` by `build`, each
/// `%GCC_FLAGS` by the gcc flags; all other text kept.
pub open spec fn expand_spec(t: Seq<char>, path: Seq<char>, build: Seq<char>) -> Seq<char>
    decreases t.len(),
{
    if t.len() == 0 {
        seq![]
    } else if starts_with_spec(t, "%REMOTE_PATH"@) && "%REMOTE_PATH"@.len() > 0 {
        path + expand_spec(t.subrange("%REMOTE_PATH"@.len() as int, t.len() as int), path, build)
    } else if starts_with_spec(t, "%REMOTE_BUILD"@) && "%REMOTE_BUILD"@.len() > 0 {
        build + expand_spec(t.subrange("%REMOTE_BUILD"@.len() as int, t.len() as int), path, build)
    } else if starts_with_spec(t, "%GCC_FLAGS"@) && "%GCC_FLAGS"@.len() > 0 {
        gcc_flags() + expand_spec(t.subrange("%GCC_FLAGS"@.len() as int, t.len() as int), path, build)
    } else {
        seq![t[0]] + expand_spec(t.drop_first(), path, build)
    }
}

/// A template without `%` is its own command.
pub proof fn lemma_expand_plain(t: Seq<char>, path: Seq<char>, build: Seq<char>)
    requires
        forall|i: int| 0 <= i < t.len() ==> t[i] != '%',
    ensures
        expand_spec(t, path, build) == t,
    decreases t.len(),
{
    reveal_strlit("%REMOTE_PATH");
    reveal_strlit("%REMOTE_BUILD");
    reveal_strlit("%GCC_FLAGS");
    if t.len() > 0 {
        assert(t[0] != '%');
        assert(!starts_with_spec(t, "%REMOTE_PATH"@)) by {
            if starts_with_spec(t, "%REMOTE_PATH"@) {
                assert(t.subrange(0, 12)[0] == t[0]);
            }
        }
        assert(!starts_with_spec(t, "%REMOTE_BUILD"@)) by {
            if starts_with_spec(t, "%REMOTE_BUILD"@) {
                assert(t.subrange(0, 13)[0] == t[0]);
            }
        }
        assert(!starts_with_spec(t, "%GCC_FLAGS"@)) by {
            if starts_with_spec(t, "%GCC_FLAGS"@) {
                assert(t.subrange(0, 10)[0] == t[0]);
            }
        }
        let rest = t.drop_first();
        assert forall|i: int| 0 <= i < rest.len() implies rest[i] != '%' by {
            assert(rest[i] == t[i + 1]);
        }
        lemma_expand_plain(rest, path, build);
        assert(seq![t[0]] + rest =~= t);
    }
}

/// Whether `pat` occurs in `v` at `i`.
fn occurs_at(v: &Vec<char>, i: usize, pat: &Vec<char>) -> (r: bool)
    requires
        i <= v.len(),
    ensures
        r == starts_with_spec(v@.subrange(i as int, v@.len() as int), pat@),
{
    let ghost t = v@.subrange(i as int, v@.len() as int);
    let m = v.len();
    if pat.len() > m - i {
        return false;
    }
    for j in 0..pat.len()
        invariant
            m == v@.len(),
            i + pat@.len() <= m,
            t == v@.subrange(i as int, v@.len() as int),
            forall|k: int| 0 <= k < j ==> t[k] == #[trigger] pat@[k],
    {
        assert(t[j as int] == v@[i + j]);
        if v[i + j] != pat[j] {
            assert(t.subrange(0, pat@.len() as int)[j as int] != pat@[j as int]);
            return false;
        }
    }
    assert(t.subrange(0, pat@.len() as int) =~= pat@);
    true
}

/// The compile command: `template` with its placeholders filled in.
pub fn expand_command(template: &str, remote_path: &str, remote_build: &str) -> (r: String)
    ensures
        r@ == expand_spec(template@, remote_path@, remote_build@),
{
    let v = chars_of(template);
    let p_path = chars_of("%REMOTE_PATH");
    let p_build = chars_of("%REMOTE_BUILD");
    let p_flags = chars_of("%GCC_FLAGS");
    proof {
        reveal_strlit("%REMOTE_PATH");
        reveal_strlit("%REMOTE_BUILD");
        reveal_strlit("%GCC_FLAGS");
    }
    let n = v.len();
    let mut out = String::new();
    let mut i: usize = 0;
    assert(v@.subrange(0, n as int) =~= v@);
    while i < n
        invariant
            n == v@.len(),
            i <= n,
            p_path@ == "%REMOTE_PATH"@,
            p_build@ == "%REMOTE_BUILD"@,
            p_flags@ == "%GCC_FLAGS"@,
            p_path@.len() == 12,
            p_build@.len() == 13,
            p_flags@.len() == 10,
            expand_spec(template@, remote_path@, remote_build@) == out@ + expand_spec(
                v@.subrange(i as int, n as int),
                remote_path@,
                remote_build@,
            ),
        decreases n - i,
    {
        let ghost t = v@.subrange(i as int, n as int);
        let ghost before = out@;
        if occurs_at(&v, i, &p_path) {
            out.append(remote_path);
            assert(t.subrange(12, t.len() as int) =~= v@.subrange(i + 12, n as int));
            i += 12;
        } else if occurs_at(&v, i, &p_build) {
            out.append(remote_build);
            assert(t.subrange(13, t.len() as int) =~= v@.subrange(i + 13, n as int));
            i += 13;
        } else if occurs_at(&v, i, &p_flags) {
            out.append("-Wall -Wextra -pedantic -fdiagnostics-color=always");
            assert(t.subrange(10, t.len() as int) =~= v@.subrange(i + 10, n as int));
            i += 10;
        } else {
            let c = v[i];
            crate::text::push_char(&mut out, c);
            assert(t[0] == c);
            assert(t.drop_first() =~= v@.subrange(i + 1, n as int));
            assert(out@ =~= before + seq![t[0]]);
            i += 1;
        }
    }
    assert(v@.subrange(n as int, n as int) =~= Seq::<char>::empty());
    assert(out@ + Seq::<char>::empty() =~= out@);
    out
}


/// The number of times `c` occurs in `s`.
pub open spec fn count_char(s: Seq<char>, c: char) -> nat
    decreases s.len(),
{
    if s.len() == 0 {
        0
    } else {
        count_char(s.drop_last(), c) + if s.last() == c {
            1nat
        } else {
            0nat
        }
    }
}

/// The position of the first `c` in `s`, or -1.
pub open spec fn first_index_of(s: Seq<char>, c: char) -> int
    decreases s.len(),
{
    if s.len() == 0 {
        -1
    } else if s[0] == c {
        0
    } else if first_index_of(s.drop_first(), c) < 0 {
        -1
    } else {
        first_index_of(s.drop_first(), c) + 1
    }
}

/// The position of the second `-` in a file name, or -1.
pub open spec fn second_dash(name: Seq<char>) -> int {
    let a = first_index_of(name, '-');
    if a < 0 {
        -1
    } else {
        let b = first_index_of(name.subrange(a + 1, name.len() as int), '-');
        if b < 0 {
            -1
        } else {
            a + 1 + b
        }
    }
}

/// The workspace root as a prefix of the files in it: with a final `/`.
pub open spec fn root_prefix(root: Seq<char>) -> Seq<char> {
    if root.len() > 0 && root.last() == '/' {
        root
    } else {
        root + seq!['/']
    }
}

/// A path below the workspace root of the form `<class>/<assignment>/<file>.c`.
pub open spec fn valid_rel(rel: Seq<char>) -> bool {
    count_char(rel, '/') == 2 && starts_with_spec(
        rel.subrange(rel.len() - 2, rel.len() as int),
        ".c"@,
    ) && rel.len() >= 2
}

/// The remote directory below `~/Desktop/ta/` that receives the file with
/// path `rel` below the workspace root: the file's own directory, and with
/// separate directories the student's directory within it, named by the
/// file name up to its second `-`.
pub open spec fn remote_dir_spec(rel: Seq<char>, separate: bool) -> Option<Seq<char>> {
    let k = last_index_of(rel, '/');
    let parent = rel.subrange(0, k);
    let name = rel.subrange(k + 1, rel.len() as int);
    if !separate {
        Some(parent)
    } else if second_dash(name) < 0 {
        None
    } else {
        Some(parent + seq!['/'] + name.subrange(0, second_dash(name)))
    }
}

/// The file name of the path `rel`.
pub open spec fn rel_name(rel: Seq<char>) -> Seq<char> {
    rel.subrange(last_index_of(rel, '/') + 1, rel.len() as int)
}

/// Without separate directories, a file goes to the same path below
/// `~/Desktop/ta/` as it has below the workspace root.
pub proof fn lemma_remote_path_mirrors(rel: Seq<char>)
    requires
        valid_rel(rel),
    ensures
        remote_dir_spec(rel, false) matches Some(dir) && dir + seq!['/'] + rel_name(rel) == rel,
{
    let k = last_index_of(rel, '/');
    lemma_last_index_of_bounds(rel, '/');
    if k < 0 {
        crate::text::lemma_last_index_of_at(rel, '/', -1);
        lemma_count_without(rel, '/');
    }
    assert(rel.subrange(0, k) + seq!['/'] + rel.subrange(k + 1, rel.len() as int) =~= rel);
}

/// Where things go on the remote host for one file.
pub struct CompilePlan {
    /// Creates the remote directory.
    pub mkdir_command: String,
    /// The remote path of the uploaded file.
    pub remote_path: String,
    /// The remote path of the compiled program.
    pub remote_build: String,
    /// The `scp` destination.
    pub scp_target: String,
    /// The compile command.
    pub compile_command: String,
}

pub open spec fn remote_base() -> Seq<char> {
    "~/Desktop/ta/"@
}

/// The plan for the file at `rel` below the workspace root, once its remote
/// directory `dir` is known.
pub open spec fn plan_matches(p: CompilePlan, rel: Seq<char>, dir: Seq<char>, template: Seq<char>) -> bool {
    let remote = remote_base() + dir + seq!['/'] + rel_name(rel);
    let build = remote.subrange(0, remote.len() - 2);
    &&& p.mkdir_command@ == "mkdir -p "@ + remote_base() + dir
    &&& p.remote_path@ == remote
    &&& p.remote_build@ == build
    &&& p.scp_target@ == "wwu:"@ + remote
    &&& p.compile_command@ == expand_spec(template, remote, build)
}

/// The commands to upload and compile the file `file` (an absolute path):
/// it must lie in the workspace `root`, at `<class>/<assignment>/<file>.c`.
pub fn plan_compile(file: &str, root: &str, template: &str, separate: bool) -> (r: Result<CompilePlan, CompileError>)
    ensures
        !starts_with_spec(file@, root_prefix(root@)) ==> r == Err::<CompilePlan, CompileError>(CompileError::NotInWorkspace),
        starts_with_spec(file@, root_prefix(root@)) ==> {
            let rel = file@.subrange(root_prefix(root@).len() as int, file@.len() as int);
            if !valid_rel(rel) {
                r matches Err(e) && e matches CompileError::InvalidPath(p) && p@ == rel
            } else {
                match remote_dir_spec(rel, separate) {
                    None => r matches Err(e) && e matches CompileError::NoStudentName(n) && n@ == rel_name(rel),
                    Some(dir) => r matches Ok(p) && plan_matches(p, rel, dir, template@),
                }
            }
        },
        separate ==> (r matches Ok(p) ==> {
            let rel = file@.subrange(root_prefix(root@).len() as int, file@.len() as int);
            let parent = rel.subrange(0, last_index_of(rel, '/'));
            exists|d: int| {
                &&& 0 < d < rel_name(rel).len()
                &&& #[trigger] rel_name(rel)[d] == '-'
                &&& exists|a: int| 0 <= a < d && #[trigger] rel_name(rel)[a] == '-' && forall|j: int|
                    0 <= j < d && j != a ==> rel_name(rel)[j] != '-'
                &&& p.mkdir_command@ == "mkdir -p "@ + remote_base() + parent + seq!['/'] + rel_name(
                    rel,
                ).subrange(0, d)
                &&& p.remote_path@ == remote_base() + parent + seq!['/'] + rel_name(rel).subrange(0, d)
                    + seq!['/'] + rel_name(rel)
            }
        }),
{
    let rv = chars_of(root);
    let fv = chars_of(file);
    let mut prefix: Vec<char> = rv.clone();
    let rn = rv.len();
    if !(rn > 0 && rv[rn - 1] == '/') {
        prefix.push('/');
    }
    assert(prefix@ == root_prefix(root@)) by {
        assert(rv@ =~= root@);
    }
    let pn = prefix.len();
    let fnn = fv.len();
    if pn > fnn || !same_prefix(&fv, &prefix) {
        return Err(CompileError::NotInWorkspace);
    }
    let ghost rel = file@.subrange(pn as int, fnn as int);
    let relv = string_from(&fv, pn, fnn);
    let rc = chars_of(relv.as_str());
    assert(rc@ == rel);
    let n = rc.len();
    let slashes = count_of(&rc, '/');
    let c_ext = n >= 2 && rc[n - 2] == '.' && rc[n - 1] == 'c';
    proof {
        reveal_strlit(".c");
        if n >= 2 {
            let sub = rel.subrange(n - 2, n as int);
            assert(".c"@.len() == 2 && ".c"@[0] == '.' && ".c"@[1] == 'c');
            assert(sub[0] == rc@[n - 2] && sub[1] == rc@[n - 1]);
            if c_ext {
                assert(sub.subrange(0, 2) =~= ".c"@);
            } else if starts_with_spec(sub, ".c"@) {
                assert(sub.subrange(0, 2) == ".c"@);
                assert(sub.subrange(0, 2)[0] == sub[0] && sub.subrange(0, 2)[1] == sub[1]);
            }
        }
    }
    if !(slashes == 2 && c_ext) {
        return Err(CompileError::InvalidPath(relv));
    }
    let k = match last_index_in(&rc, n, '/') {
        Some(k) => k,
        None => {
            proof {
                assert(rc@.subrange(0, n as int) =~= rc@);
                lemma_count_without(rel, '/');
            }
            return Err(CompileError::InvalidPath(relv));
        },
    };
    assert(rc@.subrange(0, n as int) =~= rc@);
    proof {
        lemma_last_index_of_bounds(rel, '/');
    }
    let name = string_from(&rc, k + 1, n);
    let nv = chars_of(name.as_str());
    assert(k == last_index_of(rel, '/'));
    assert(name@ == rel_name(rel));
    let mut dir = string_from(&rc, 0, k);
    if separate {
        let d = match second_dash_exec(&nv) {
            None => return Err(CompileError::NoStudentName(name)),
            Some(d) => d,
        };
        proof {
            lemma_second_dash_bound(nv@);
        }
        push_char(&mut dir, '/');
        let student = string_from(&nv, 0, d);
        dir.append(student.as_str());
    }
    assert(rel.subrange(0, k as int) =~= rc@.subrange(0, k as int));
    assert(remote_dir_spec(rel, separate) == Some(dir@));
    let mut remote = String::from_str("~/Desktop/ta/");
    remote.append(dir.as_str());
    push_char(&mut remote, '/');
    remote.append(name.as_str());
    let remote_v = chars_of(remote.as_str());
    assert(remote_v@.len() >= 2) by {
        reveal_strlit("~/Desktop/ta/");
    }
    let build = string_from(&remote_v, 0, remote_v.len() - 2);
    let mut mkdir = String::from_str("mkdir -p ");
    mkdir.append("~/Desktop/ta/");
    mkdir.append(dir.as_str());
    let mut scp = String::from_str("wwu:");
    scp.append(remote.as_str());
    let cmd = expand_command(template, remote.as_str(), build.as_str());
    assert(remote@ == remote_base() + dir@ + seq!['/'] + rel_name(rel));
    assert(mkdir@ == "mkdir -p "@ + remote_base() + dir@);
    let plan = CompilePlan {
        mkdir_command: mkdir,
        remote_path: remote,
        remote_build: build,
        scp_target: scp,
        compile_command: cmd,
    };
    proof {
        if separate {
            lemma_plan_student_dir(plan, rel, dir@, template@);
        }
    }
    Ok(plan)
}

/// A plan made with separate directories puts the file in the directory
/// named by its file name up to the second `-`.
proof fn lemma_plan_student_dir(p: CompilePlan, rel: Seq<char>, dir: Seq<char>, template: Seq<char>)
    requires
        valid_rel(rel),
        remote_dir_spec(rel, true) == Some(dir),
        plan_matches(p, rel, dir, template),
    ensures
        exists|d: int| {
            &&& 0 < d < rel_name(rel).len()
            &&& #[trigger] rel_name(rel)[d] == '-'
            &&& exists|a: int| 0 <= a < d && #[trigger] rel_name(rel)[a] == '-' && forall|j: int|
                0 <= j < d && j != a ==> rel_name(rel)[j] != '-'
            &&& p.mkdir_command@ == "mkdir -p "@ + remote_base() + rel.subrange(0, last_index_of(rel, '/'))
                + seq!['/'] + rel_name(rel).subrange(0, d)
            &&& p.remote_path@ == remote_base() + rel.subrange(0, last_index_of(rel, '/')) + seq!['/']
                + rel_name(rel).subrange(0, d) + seq!['/'] + rel_name(rel)
        },
{
    lemma_student_dir(rel);
    let name = rel_name(rel);
    let parent = rel.subrange(0, last_index_of(rel, '/'));
    let d = choose|d: int| {
        &&& 0 < d < rel_name(rel).len()
        &&& #[trigger] rel_name(rel)[d] == '-'
        &&& dir == rel.subrange(0, last_index_of(rel, '/')) + seq!['/'] + rel_name(rel).subrange(0, d)
        &&& exists|a: int| 0 <= a < d && #[trigger] rel_name(rel)[a] == '-' && forall|j: int|
            0 <= j < d && j != a ==> rel_name(rel)[j] != '-'
    };
    assert("mkdir -p "@ + remote_base() + dir =~= "mkdir -p "@ + remote_base() + parent + seq!['/']
        + name.subrange(0, d));
    assert(remote_base() + dir + seq!['/'] + name =~= remote_base() + parent + seq!['/'] + name.subrange(0, d)
        + seq!['/'] + name);
}

proof fn lemma_second_dash_bound(name: Seq<char>)
    ensures
        -1 <= second_dash(name) < name.len(),
{
    lemma_first_index_bound(name, '-');
    let a = first_index_of(name, '-');
    if a >= 0 {
        lemma_first_index_bound(name.subrange(a + 1, name.len() as int), '-');
    }
}

/// The first `c` in `s`: the position of a `c` with none before it, or -1
/// when `s` holds no `c`.
pub proof fn lemma_first_index_of(s: Seq<char>, c: char)
    ensures
        first_index_of(s, c) == -1 ==> forall|j: int| 0 <= j < s.len() ==> s[j] != c,
        first_index_of(s, c) != -1 ==> 0 <= first_index_of(s, c) < s.len() && s[first_index_of(s, c)] == c
            && forall|j: int| 0 <= j < first_index_of(s, c) ==> s[j] != c,
    decreases s.len(),
{
    if s.len() > 0 {
        let t = s.drop_first();
        lemma_first_index_of(t, c);
        if s[0] != c {
            assert forall|j: int| 0 < j < s.len() implies s[j] == t[j - 1] by {}
            if first_index_of(t, c) >= 0 {
                assert forall|j: int| 0 <= j < first_index_of(s, c) implies s[j] != c by {
                    if j > 0 {
                        assert(s[j] == t[j - 1]);
                    }
                }
            } else {
                assert forall|j: int| 0 <= j < s.len() implies s[j] != c by {
                    if j > 0 {
                        assert(s[j] == t[j - 1]);
                    }
                }
            }
        }
    }
}

/// The second `-` of a name: a `-` with exactly one `-` before it; and
/// none (-1) when the name holds fewer than two.
pub proof fn lemma_second_dash(name: Seq<char>)
    ensures
        second_dash(name) >= 0 ==> {
            let d = second_dash(name);
            &&& d < name.len()
            &&& name[d] == '-'
            &&& exists|a: int| {
                &&& 0 <= a < d
                &&& #[trigger] name[a] == '-'
                &&& forall|j: int| 0 <= j < d && j != a ==> name[j] != '-'
            }
        },
        second_dash(name) < 0 ==> forall|i: int, j: int|
            0 <= i < j < name.len() ==> !(#[trigger] name[i] == '-' && #[trigger] name[j] == '-'),
{
    lemma_first_index_of(name, '-');
    let a = first_index_of(name, '-');
    if a >= 0 {
        let t = name.subrange(a + 1, name.len() as int);
        lemma_first_index_of(t, '-');
        let b = first_index_of(t, '-');
        if b >= 0 {
            let d = a + 1 + b;
            assert(name[d] == t[b]);
            assert(name[a] == '-');
            assert forall|j: int| 0 <= j < d && j != a implies name[j] != '-' by {
                if j > a {
                    assert(name[j] == t[j - a - 1]);
                }
            }
        } else {
            assert forall|i: int, j: int|
                0 <= i < j < name.len() implies !(#[trigger] name[i] == '-' && #[trigger] name[j] == '-') by {
                if name[i] == '-' && name[j] == '-' {
                    assert(i >= a);
                    assert(name[j] == t[j - a - 1]);
                }
            }
        }
    }
}

/// With separate directories, the student's directory is named by the file
/// name up to its second `-`: a prefix that holds exactly one `-` and is
/// followed by a `-`. A name with fewer than two `-` gives no directory.
pub proof fn lemma_student_dir(rel: Seq<char>)
    requires
        valid_rel(rel),
    ensures
        remote_dir_spec(rel, true) matches Some(dir) ==> exists|d: int| {
            &&& 0 < d < rel_name(rel).len()
            &&& #[trigger] rel_name(rel)[d] == '-'
            &&& dir == rel.subrange(0, last_index_of(rel, '/')) + seq!['/'] + rel_name(rel).subrange(0, d)
            &&& exists|a: int| 0 <= a < d && #[trigger] rel_name(rel)[a] == '-' && forall|j: int|
                0 <= j < d && j != a ==> rel_name(rel)[j] != '-'
        },
        remote_dir_spec(rel, true) is None ==> forall|i: int, j: int|
            0 <= i < j < rel_name(rel).len() ==> !(#[trigger] rel_name(rel)[i] == '-'
                && #[trigger] rel_name(rel)[j] == '-'),
{
    let name = rel_name(rel);
    lemma_second_dash(name);
    if second_dash(name) >= 0 {
        let d = second_dash(name);
        let a = choose|a: int| {
            &&& 0 <= a < d
            &&& #[trigger] name[a] == '-'
            &&& forall|j: int| 0 <= j < d && j != a ==> name[j] != '-'
        };
        assert(name[a] == '-');
        assert(name[d] == '-');
    }
}

proof fn lemma_count_without(s: Seq<char>, c: char)
    requires
        last_index_of(s, c) == -1,
    ensures
        count_char(s, c) == 0,
    decreases s.len(),
{
    if s.len() > 0 {
        lemma_count_without(s.drop_last(), c);
    }
}

/// Whether `v` begins with `p`.
fn same_prefix(v: &Vec<char>, p: &Vec<char>) -> (r: bool)
    requires
        p.len() <= v.len(),
    ensures
        r == (v@.subrange(0, p@.len() as int) == p@),
{
    for j in 0..p.len()
        invariant
            p@.len() <= v@.len(),
            forall|k: int| 0 <= k < j ==> v@[k] == #[trigger] p@[k],
    {
        if v[j] != p[j] {
            assert(v@.subrange(0, p@.len() as int)[j as int] != p@[j as int]);
            return false;
        }
    }
    assert(v@.subrange(0, p@.len() as int) =~= p@);
    true
}

/// The number of times `c` occurs in `v`.
fn count_of(v: &Vec<char>, c: char) -> (r: usize)
    ensures
        r == count_char(v@, c),
{
    let mut r: usize = 0;
    for i in 0..v.len()
        invariant
            r == count_char(v@.subrange(0, i as int), c),
            r <= i,
    {
        assert(v@.subrange(0, i + 1).drop_last() =~= v@.subrange(0, i as int));
        if v[i] == c {
            r += 1;
        }
    }
    assert(v@.subrange(0, v@.len() as int) =~= v@);
    r
}

/// The position of the first `c` in `v[from..]`, counted from `from`.
fn first_index_from(v: &Vec<char>, from: usize, c: char) -> (r: Option<usize>)
    requires
        from <= v.len(),
    ensures
        match r {
            Some(k) => first_index_of(v@.subrange(from as int, v@.len() as int), c) == k,
            None => first_index_of(v@.subrange(from as int, v@.len() as int), c) == -1,
        },
{
    let n = v.len();
    let mut i = from;
    assert(v@.subrange(from as int, n as int) =~= v@.subrange(from as int, n as int));
    while i < n
        invariant
            from <= i <= n == v@.len(),
            first_index_of(v@.subrange(from as int, n as int), c) == if first_index_of(
                v@.subrange(i as int, n as int),
                c,
            ) < 0 {
                -1
            } else {
                first_index_of(v@.subrange(i as int, n as int), c) + (i - from)
            },
        decreases n - i,
    {
        let ghost t = v@.subrange(i as int, n as int);
        assert(t.drop_first() =~= v@.subrange(i + 1, n as int));
        assert(t[0] == v@[i as int]);
        if v[i] == c {
            return Some(i - from);
        }
        i += 1;
    }
    assert(v@.subrange(n as int, n as int).len() == 0);
    None
}

proof fn lemma_first_index_bound(s: Seq<char>, c: char)
    ensures
        -1 <= first_index_of(s, c) < s.len(),
    decreases s.len(),
{
    if s.len() > 0 {
        lemma_first_index_bound(s.drop_first(), c);
    }
}

/// `second_dash` on a name held as characters.
fn second_dash_exec(v: &Vec<char>) -> (r: Option<usize>)
    ensures
        match r {
            Some(k) => second_dash(v@) == k,
            None => second_dash(v@) == -1,
        },
{
    assert(v@.subrange(0, v@.len() as int) =~= v@);
    let n = v.len();
    let a = match first_index_from(v, 0, '-') {
        None => return None,
        Some(a) => a,
    };
    proof {
        lemma_first_index_bound(v@, '-');
    }
    assert(a < n);
    let b = match first_index_from(v, a + 1, '-') {
        None => return None,
        Some(b) => b,
    };
    proof {
        lemma_first_index_bound(v@.subrange(a + 1, v@.len() as int), '-');
    }
    Some(a + 1 + b)
}


/// The report printed for one compiled file: a bold cyan title with the
/// file name, the compiler output and error output when they hold more than
/// white space, the status, and the exit code when it is not 0; then an
/// empty line.
pub open spec fn result_report(name: Seq<char>, r: CompileResult) -> Seq<char> {
    bold_spec(cyan_spec("== "@ + name + " =="@)) + "\n"@ + (if !is_blank_spec(r.stdout@) {
        r.stdout@
    } else {
        seq![]
    }) + (if !is_blank_spec(r.stderr@) {
        r.stderr@
    } else {
        seq![]
    }) + status_pretty_text(status_spec(r.exit_code, r.stdout@)) + (if r.exit_code != 0 {
        ": exit code "@ + bold_spec(red_spec(int_decimal(r.exit_code as int))) + "\n"@
    } else {
        seq![]
    }) + "\n"@
}

/// The report for `result`.
pub fn result_text(result: &CompileResult) -> (r: String)
    requires
        file_name_spec(result.file@) is Some,
    ensures
        r@ == result_report(file_name_spec(result.file@)->Some_0, *result),
{
    let name = file_name(result.file.as_str()).unwrap();
    let mut title = String::from_str("== ");
    title.append(name.as_str());
    title.append(" ==");
    let mut r = bold(cyan(title.as_str()).as_str());
    r.append("\n");
    if !is_blank(result.stdout.as_str()) {
        r.append(result.stdout.as_str());
    }
    if !is_blank(result.stderr.as_str()) {
        r.append(result.stderr.as_str());
    }
    r.append(result.status_pretty().text().as_str());
    if result.exit_code != 0 {
        r.append(": exit code ");
        let code = i32_decimal(result.exit_code);
        r.append(bold(red(code.as_str()).as_str()).as_str());
        r.append("\n");
    }
    r.append("\n");
    proof {
        assert(r@ =~= result_report(name@, *result));
    }
    r
}

/// The status column for a compile: the coloured status, or `internal
/// error` in red when the compile could not be run.
pub fn status_cell(result: &Result<CompileResult, String>) -> (r: String)
    ensures
        r@ == match result {
            Ok(c) => status_pretty_text(status_spec(c.exit_code, c.stdout@)),
            Err(_) => red_spec("internal error"@),
        },
{
    match result {
        Ok(c) => c.status_pretty().text(),
        Err(_) => red("internal error"),
    }
}

/// The line reporting that `file` could not be compiled, and why.
pub fn compile_error_line(file: &str, message: &str) -> (r: String)
    ensures
        r@ == bold_spec(red_spec("error"@)) + " compiling '"@ + file@ + "': "@ + message@,
{
    let mut r = bold(red("error").as_str());
    r.append(" compiling '");
    r.append(file);
    r.append("': ");
    r.append(message);
    r
}


/// The table of files being compiled: each file's name, then `...` until
/// its status is known.
pub fn compile_table(paths: &Vec<String>) -> (r: Option<Table>)
    ensures
        (forall|k: int| 0 <= k < paths@.len() ==> file_name_spec((#[trigger] paths@[k])@) is Some) ==> (
        r matches Some(t) && t@.headers == seq!["File"@, "Status"@] && t@.rows.len() == paths@.len() && (
        forall|k: int|
            0 <= k < paths@.len() ==> #[trigger] t@.rows[k] == seq![
                file_name_spec(paths@[k]@)->Some_0,
                "..."@,
            ]) && shaped(t@) && t@.widths == fitted_widths(t@.headers, t@.rows)),
        (exists|k: int| 0 <= k < paths@.len() && file_name_spec((#[trigger] paths@[k])@) is None) ==> r
            is None,
{
    let mut rows: Vec<Vec<String>> = Vec::new();
    for k in 0..paths.len()
        invariant
            rows@.len() == k,
            forall|j: int| 0 <= j < k ==> file_name_spec((#[trigger] paths@[j])@) is Some,
            forall|j: int| 0 <= j < k ==> cells((#[trigger] rows@[j])@) == seq![
                file_name_spec(paths@[j]@)->Some_0,
                "..."@,
            ],
            forall|j: int| 0 <= j < k ==> (#[trigger] rows@[j])@.len() == 2,
    {
        match file_name(paths[k].as_str()) {
            None => return None,
            Some(name) => {
                let mut row: Vec<String> = Vec::new();
                row.push(name);
                row.push(String::from_str("..."));
                assert(cells(row@) =~= seq![file_name_spec(paths@[k as int]@)->Some_0, "..."@]);
                rows.push(row);
            },
        }
    }
    let t = Table::with_rows(&["File", "Status"], &rows);
    proof {
        reveal_strlit("File");
        reveal_strlit("Status");
        assert(t@.headers =~= seq!["File"@, "Status"@]);
        assert forall|k: int| 0 <= k < paths@.len() implies #[trigger] t@.rows[k] == seq![
            file_name_spec(paths@[k]@)->Some_0,
            "..."@,
        ] by {
            assert(t@.rows[k] == cells(rows@[k]@));
        }
    }
    Some(t)
}

} // verus!
