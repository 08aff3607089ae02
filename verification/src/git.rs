//! Git support through the `git` command line: the arguments handed to
//! `git`, and the reading of what `git status --porcelain` and `git log`
//! print. Git is on only for a project whose root holds `.git`. Cell-level
//! diffs are not implemented yet.

use crate::constraints::concat_map;
use crate::decimal::{parse_i64, spec_parse_i64, usize_to_decimal, decimal};
use crate::text::{is_ws, lines_of, split_chars, split_on, string_of, text_lines, trim, trim_chars, trim_end, trim_start};
use vstd::prelude::*;
use vstd::string::StringExecFns;

verus! {

/// A repository: the project root that holds `.git`.
pub struct GitRepo {
    pub root: String,
}

/// A changed file, as `git status` reports it.
#[derive(Debug, Clone, PartialEq)]
pub struct FileStatus {
    pub path: String,
    pub state: FileState,
}

/// How a file changed.
#[derive(Debug, Clone, Copy, PartialEq, Eq, Structural)]
pub enum FileState {
    Modified,
    Added,
    Untracked,
    Deleted,
    Staged,
    Renamed,
}

/// One changed cell between two versions of a sheet.
#[derive(Debug, Clone, PartialEq)]
pub struct DiffCell {
    pub row: usize,
    pub col: usize,
    pub old: String,
    pub new: String,
    pub status: CellStatus,
}

/// How a cell changed.
#[derive(Debug, Clone, Copy, PartialEq, Eq, Structural)]
pub enum CellStatus {
    Modified,
    Added,
    Removed,
}

/// A commit, as `git log` reports it.
#[derive(Debug, Clone, PartialEq)]
pub struct Commit {
    pub hash: String,
    pub message: String,
    pub author: String,
    /// Seconds since the Unix epoch.
    pub timestamp: i64,
}

/// Why a git operation of the library failed.
#[derive(Debug, Clone, Copy, PartialEq, Eq, Structural)]
pub enum GitError {
    /// Cell-level diffs are not implemented yet.
    DiffNotImplemented,
    /// `git log` showed no commit right after a commit was made.
    NoCommitAfterCommit,
}

/// The number of bytes UTF-8 takes for `c`.
pub open spec fn utf8_len(c: char) -> int {
    if (c as u32) < 0x80 {
        1
    } else if (c as u32) < 0x800 {
        2
    } else if (c as u32) < 0x10000 {
        3
    } else {
        4
    }
}

/// Whether `line` is shorter than three bytes (such lines are skipped).
pub open spec fn status_line_short(line: Seq<char>) -> bool {
    ||| line.len() == 0
    ||| (line.len() == 1 && utf8_len(line[0]) <= 2)
    ||| (line.len() == 2 && utf8_len(line[0]) == 1 && utf8_len(line[1]) == 1)
}

/// The status code (bytes 0 and 1) and the path (from byte 3) of a status
/// line of three bytes or more, where bytes 2 and 3 fall on character
/// boundaries: three one-byte characters first, or a two-byte character
/// then a one-byte character.
pub open spec fn status_split(line: Seq<char>) -> Option<(Seq<char>, Seq<char>)> {
    if status_line_short(line) {
        None
    } else if line.len() >= 3 && utf8_len(line[0]) == 1 && utf8_len(line[1]) == 1 && utf8_len(line[2]) == 1 {
        Some((line.take(2), line.skip(3)))
    } else if line.len() >= 2 && utf8_len(line[0]) == 2 && utf8_len(line[1]) == 1 {
        Some((line.take(1), line.skip(2)))
    } else {
        None
    }
}

/// Whether the status line can be read: it is short, or cutting it at
/// bytes 2 and 3 falls on character boundaries.
pub open spec fn status_line_ok(line: Seq<char>) -> bool {
    status_line_short(line) || status_split(line) is Some
}

/// The state a two-letter status code stands for.
pub open spec fn state_of(code: Seq<char>) -> FileState {
    let t = trim(code);
    if t == seq!['?', '?'] {
        FileState::Untracked
    } else if t.len() > 0 && t[0] == 'A' {
        FileState::Added
    } else if t.len() > 0 && t[0] == 'D' {
        FileState::Deleted
    } else if t.len() > 0 && t[0] == 'R' {
        FileState::Renamed
    } else if t.len() > 0 && t[0] == 'M' && code.len() > 0 && code[0] == 'M' {
        FileState::Staged
    } else {
        FileState::Modified
    }
}

/// A status code whose first letter (after trimming) is `A` reports a file
/// added to the index, whatever follows it: a line `A<c> <path>` (with `c`
/// a one-byte character, `M` or `D` or a space among them) and a line
/// ` A <path>` both report `path` as added.
pub proof fn law_added_status(c: char, path: Seq<char>)
    requires
        (c as u32) < 0x80,
    ensures
        status_entry(seq!['A', c, ' '] + path) == seq![(path, FileState::Added)],
        status_entry(seq![' ', 'A', ' '] + path) == seq![(path, FileState::Added)],
{
    let line = seq!['A', c, ' '] + path;
    assert(line[0] == 'A' && line[1] == c && line[2] == ' ');
    assert(line.take(2) =~= seq!['A', c]);
    assert(line.skip(3) =~= path);
    let code = seq!['A', c];
    assert(trim_start(code) == code);
    assert(code.drop_last() =~= seq!['A']);
    assert(trim_end(seq!['A']) == seq!['A']);
    assert(trim(code)[0] == 'A');
    let line2 = seq![' ', 'A', ' '] + path;
    assert(line2[0] == ' ' && line2[1] == 'A' && line2[2] == ' ');
    assert(line2.take(2) =~= seq![' ', 'A']);
    assert(line2.skip(3) =~= path);
    let code2 = seq![' ', 'A'];
    assert(code2.drop_first() =~= seq!['A']);
    assert(trim_start(seq!['A']) == seq!['A']);
    assert(trim_start(code2) == seq!['A']);
    assert(trim(code2) == seq!['A']);
}

/// The state of a status line `<x><c> <path>` (one-byte `x` and `c`, `x`
/// not white space) goes by its first letter `x`: `A` added, `D` deleted,
/// `R` renamed, `M` staged; `??` untracked; any other code modified. A line
/// ` <c> <path>` (a change only in the work tree) goes by `c`: `A` added,
/// `D` deleted, `R` renamed, anything else (`M` among them) modified.
pub proof fn law_status_codes(x: char, c: char, path: Seq<char>)
    requires
        (x as u32) < 0x80,
        (c as u32) < 0x80,
    ensures
        !is_ws(x) ==> status_entry(seq![x, c, ' '] + path) == seq![(path, if x == 'A' {
            FileState::Added
        } else if x == 'D' {
            FileState::Deleted
        } else if x == 'R' {
            FileState::Renamed
        } else if x == 'M' {
            FileState::Staged
        } else if x == '?' && c == '?' {
            FileState::Untracked
        } else {
            FileState::Modified
        })],
        !is_ws(c) ==> status_entry(seq![' ', c, ' '] + path) == seq![(path, if c == 'A' {
            FileState::Added
        } else if c == 'D' {
            FileState::Deleted
        } else if c == 'R' {
            FileState::Renamed
        } else {
            FileState::Modified
        })],
{
    let line = seq![x, c, ' '] + path;
    assert(line[0] == x && line[1] == c && line[2] == ' ');
    assert(line.take(2) =~= seq![x, c]);
    assert(line.skip(3) =~= path);
    let code = seq![x, c];
    if !is_ws(x) {
        assert(trim_start(code) == code);
        assert(code.drop_last() =~= seq![x]);
        assert(trim_end(seq![x]) == seq![x]);
        assert(trim(code)[0] == x);
        if !(x == '?' && c == '?') {
            assert(trim(code) != seq!['?', '?']);
        }
    }
    let line2 = seq![' ', c, ' '] + path;
    assert(line2[0] == ' ' && line2[1] == c && line2[2] == ' ');
    assert(line2.take(2) =~= seq![' ', c]);
    assert(line2.skip(3) =~= path);
    let code2 = seq![' ', c];
    if !is_ws(c) {
        assert(code2.drop_first() =~= seq![c]);
        assert(trim_start(seq![c]) == seq![c]);
        assert(trim_start(code2) == seq![c]);
        assert(trim_end(seq![c]) == seq![c]);
        assert(trim(code2) == seq![c]);
        assert(trim(code2) != seq!['?', '?']);
    }
}

/// What a status line reports: nothing for a short line, else its path and state.
pub open spec fn status_entry(line: Seq<char>) -> Seq<(Seq<char>, FileState)> {
    match status_split(line) {
        Some((code, path)) => seq![(path, state_of(code))],
        None => Seq::empty(),
    }
}

/// `status_entry` as a function value.
pub open spec fn status_entry_fn() -> spec_fn(Seq<char>) -> Seq<(Seq<char>, FileState)> {
    |line: Seq<char>| status_entry(line)
}

/// The changed files that `git status --porcelain` output `out` reports.
pub open spec fn spec_parse_status(out: Seq<char>) -> Seq<(Seq<char>, FileState)> {
    concat_map(text_lines(out), status_entry_fn())
}

/// The views of a list of file statuses.
pub open spec fn statuses_view(v: Seq<FileStatus>) -> Seq<(Seq<char>, FileState)> {
    v.map_values(|f: FileStatus| (f.path@, f.state))
}

/// What a commit holds.
pub struct CommitModel {
    pub hash: Seq<char>,
    pub message: Seq<char>,
    pub author: Seq<char>,
    pub timestamp: i64,
}

impl Commit {
    /// What the commit holds.
    pub open spec fn model(&self) -> CommitModel {
        CommitModel { hash: self.hash@, message: self.message@, author: self.author@, timestamp: self.timestamp }
    }
}

/// The field separator of the log format (`%x1f`).
pub open spec fn unit_separator() -> char {
    '\u{1f}'
}

/// What a log line reports: a commit when it holds exactly four fields
/// separated by U+001F (hash, subject, author, time; a time that does not
/// read as an `i64` counts as 0), else nothing.
pub open spec fn log_entry(line: Seq<char>) -> Seq<CommitModel> {
    let parts = split_on(line, unit_separator());
    if parts.len() == 4 {
        seq![CommitModel {
            hash: parts[0],
            message: parts[1],
            author: parts[2],
            timestamp: match spec_parse_i64(parts[3]) {
                Some(t) => t,
                None => 0,
            },
        }]
    } else {
        Seq::empty()
    }
}

/// `log_entry` as a function value.
pub open spec fn log_entry_fn() -> spec_fn(Seq<char>) -> Seq<CommitModel> {
    |line: Seq<char>| log_entry(line)
}

/// The commits that `git log` output `out` (in the library's format) reports.
pub open spec fn spec_parse_log(out: Seq<char>) -> Seq<CommitModel> {
    concat_map(text_lines(out), log_entry_fn())
}

/// The models of a list of commits.
pub open spec fn commits_view(v: Seq<Commit>) -> Seq<CommitModel> {
    v.map_values(|c: Commit| c.model())
}

/// The views of a list of strings.
pub open spec fn strings_view(v: Seq<String>) -> Seq<Seq<char>> {
    v.map_values(|s: String| s@)
}

/// The `git log` format: hash, subject, author and time, separated by U+001F.
pub open spec fn log_format() -> Seq<char> {
    "--pretty=format:%H%x1f%s%x1f%an%x1f%at"@
}

/// A `String` holding the characters of `s`.
fn owned(s: &str) -> (r: String)
    ensures
        r@ == s@,
{
    String::from_str(s)
}

impl GitRepo {
    /// The arguments of `git status --porcelain`.
    pub fn status_args() -> (r: Vec<String>)
        ensures
            strings_view(r@) == seq!["status"@, "--porcelain"@],
    {
        let r = vec![owned("status"), owned("--porcelain")];
        assert(strings_view(r@) =~= seq!["status"@, "--porcelain"@]);
        r
    }

    /// The arguments of `git add -- <paths>`; none when there is nothing to add.
    pub fn add_args(paths: &[String]) -> (r: Option<Vec<String>>)
        ensures
            match r {
                Some(a) => paths@.len() > 0 && strings_view(a@) == seq!["add"@, "--"@] + strings_view(paths@),
                None => paths@.len() == 0,
            },
    {
        if paths.len() == 0 {
            return None;
        }
        let mut a = vec![owned("add"), owned("--")];
        let ghost head = strings_view(a@);
        assert(head =~= seq!["add"@, "--"@]);
        let mut i: usize = 0;
        while i < paths.len()
            invariant
                i <= paths@.len(),
                strings_view(a@) == head + strings_view(paths@).take(i as int),
            decreases paths@.len() - i,
        {
            let ghost before = strings_view(a@);
            let p = owned(paths[i].as_str());
            a.push(p);
            assert(strings_view(a@) =~= before.push(p@));
            assert(strings_view(paths@).take(i + 1) =~= strings_view(paths@).take(i as int).push(paths@[i as int]@));
            i = i + 1;
        }
        assert(strings_view(paths@).take(paths@.len() as int) =~= strings_view(paths@));
        Some(a)
    }

    /// The arguments of `git commit -m <message>`.
    pub fn commit_args(message: &str) -> (r: Vec<String>)
        ensures
            strings_view(r@) == seq!["commit"@, "-m"@, message@],
    {
        let r = vec![owned("commit"), owned("-m"), owned(message)];
        assert(strings_view(r@) =~= seq!["commit"@, "-m"@, message@]);
        r
    }

    /// The arguments of `git log` for the latest `limit` commits, in the
    /// format that `parse_log` reads.
    pub fn log_args(limit: usize) -> (r: Vec<String>)
        ensures
            strings_view(r@) == seq!["log"@, "-"@ + decimal(limit as nat), log_format()],
    {
        let mut count = owned("-");
        let digits = usize_to_decimal(limit);
        count.append(digits.as_str());
        let r = vec![owned("log"), count, owned("--pretty=format:%H%x1f%s%x1f%an%x1f%at")];
        assert(strings_view(r@) =~= seq!["log"@, "-"@ + decimal(limit as nat), log_format()]);
        r
    }

    /// Reads the output of `git status --porcelain`: for each line of three
    /// bytes or more, the path from byte 3 and the state its two-byte code
    /// stands for.
    pub fn parse_status(out: &str) -> (r: Vec<FileStatus>)
        requires
            forall|i: int| 0 <= i < text_lines(out@).len() ==> status_line_ok(#[trigger] text_lines(out@)[i]),
        ensures
            statuses_view(r@) == spec_parse_status(out@),
    {
        let lines = lines_of(out);
        let ghost ls = text_lines(out@);
        let ghost f = status_entry_fn();
        let mut r: Vec<FileStatus> = Vec::new();
        let mut i: usize = 0;
        while i < lines.len()
            invariant
                i <= lines@.len(),
                lines@.len() == ls.len(),
                ls == text_lines(out@),
                f == status_entry_fn(),
                forall|k: int| 0 <= k < lines@.len() ==> #[trigger] lines@[k]@ == ls[k],
                forall|k: int| 0 <= k < ls.len() ==> status_line_ok(#[trigger] ls[k]),
                statuses_view(r@) == concat_map(ls.take(i as int), f),
            decreases lines@.len() - i,
        {
            proof {
                crate::constraints::lemma_concat_map_step(ls, f, i as int);
            }
            let line = &lines[i];
            let ghost l = line@;
            assert(l == ls[i as int]);
            assert(status_line_ok(l));
            let ghost before = statuses_view(r@);
            let n = line.len();
            let short = n == 0 || (n == 1 && (line[0] as u32) < 0x800)
                || (n == 2 && (line[0] as u32) < 0x80 && (line[1] as u32) < 0x80);
            if !short {
                let three = n >= 3 && (line[0] as u32) < 0x80 && (line[1] as u32) < 0x80 && (line[2] as u32) < 0x80;
                let (code_len, path_from): (usize, usize) = if three { (2, 3) } else { (1, 2) };
                let mut code: Vec<char> = Vec::new();
                let mut j: usize = 0;
                while j < code_len
                    invariant
                        j <= code_len <= n,
                        n == l.len(),
                        l == line@,
                        code@ == l.take(j as int),
                    decreases code_len - j,
                {
                    code.push(line[j]);
                    j = j + 1;
                    assert(code@ =~= l.take(j as int));
                }
                let mut path: Vec<char> = Vec::new();
                let mut j: usize = path_from;
                while j < n
                    invariant
                        path_from <= j <= n,
                        n == l.len(),
                        l == line@,
                        path@ == l.subrange(path_from as int, j as int),
                    decreases n - j,
                {
                    path.push(line[j]);
                    j = j + 1;
                    assert(path@ =~= l.subrange(path_from as int, j as int));
                }
                assert(l.skip(path_from as int) =~= l.subrange(path_from as int, n as int));
                assert(status_split(l) == Some((code@, path@)));
                let state = state_from_code(&code);
                r.push(FileStatus { path: string_of(&path), state });
                assert(statuses_view(r@) =~= before + f(l));
            } else {
                assert(status_line_short(l));
                assert(statuses_view(r@) =~= before + f(l));
            }
            i = i + 1;
        }
        assert(ls.take(i as int) =~= ls);
        r
    }

    /// Reads the output of `git log` in the library's format: a commit for
    /// each line of exactly four U+001F-separated fields.
    pub fn parse_log(out: &str) -> (r: Vec<Commit>)
        ensures
            commits_view(r@) == spec_parse_log(out@),
    {
        let lines = lines_of(out);
        let ghost ls = text_lines(out@);
        let ghost f = log_entry_fn();
        let mut r: Vec<Commit> = Vec::new();
        let mut i: usize = 0;
        while i < lines.len()
            invariant
                i <= lines@.len(),
                lines@.len() == ls.len(),
                ls == text_lines(out@),
                f == log_entry_fn(),
                forall|k: int| 0 <= k < lines@.len() ==> #[trigger] lines@[k]@ == ls[k],
                commits_view(r@) == concat_map(ls.take(i as int), f),
            decreases lines@.len() - i,
        {
            proof {
                crate::constraints::lemma_concat_map_step(ls, f, i as int);
            }
            let ghost l = ls[i as int];
            assert(lines@[i as int]@ == l);
            let ghost before = commits_view(r@);
            let parts = split_chars(lines[i].as_slice(), '\u{1f}');
            if parts.len() == 4 {
                let timestamp = match parse_i64(&parts[3]) {
                    Some(t) => t,
                    None => 0,
                };
                let c = Commit {
                    hash: string_of(&parts[0]),
                    message: string_of(&parts[1]),
                    author: string_of(&parts[2]),
                    timestamp,
                };
                r.push(c);
                assert(commits_view(r@) =~= before + f(l));
            } else {
                assert(commits_view(r@) =~= before + f(l));
            }
            i = i + 1;
        }
        assert(ls.take(i as int) =~= ls);
        r
    }

    /// The commit just made, from the output of `git log` for the latest
    /// commit: its last entry; an error when there is none.
    pub fn made_commit(log: Vec<Commit>) -> (r: Result<Commit, GitError>)
        ensures
            match r {
                Ok(c) => log@.len() > 0 && c == log@.last(),
                Err(e) => log@.len() == 0 && e == GitError::NoCommitAfterCommit,
            },
    {
        let mut log = log;
        match log.pop() {
            Some(c) => Ok(c),
            None => Err(GitError::NoCommitAfterCommit),
        }
    }

    /// Cell-level diff of sheet `sheet_id` against the previous commit: not
    /// implemented yet, so it always fails.
    pub fn diff_cells(&self, sheet_id: &str) -> (r: Result<Vec<DiffCell>, GitError>)
        ensures
            r == Err::<Vec<DiffCell>, GitError>(GitError::DiffNotImplemented),
    {
        Err(GitError::DiffNotImplemented)
    }
}

/// The state a status code stands for.
fn state_from_code(code: &Vec<char>) -> (s: FileState)
    ensures
        s == state_of(code@),
{
    let t = trim_chars(code.as_slice());
    if t.len() == 2 && t[0] == '?' && t[1] == '?' {
        assert(t@ =~= seq!['?', '?']);
        FileState::Untracked
    } else if t.len() > 0 && t[0] == 'A' {
        FileState::Added
    } else if t.len() > 0 && t[0] == 'D' {
        FileState::Deleted
    } else if t.len() > 0 && t[0] == 'R' {
        FileState::Renamed
    } else if t.len() > 0 && t[0] == 'M' && code.len() > 0 && code[0] == 'M' {
        FileState::Staged
    } else {
        FileState::Modified
    }
}

} // verus!
