//! The git integration's logic: what to ask `git` and how to read its
//! answers. Running the `git` command is the caller's part.

use vstd::prelude::*;
use vstd::utf8::encode_utf8;
use crate::import::{lemma_char_width, lemma_encode_concat};
use crate::order::strs_view;
use crate::text::{
    chars_of, decimal, index_of, lemma_index_of_bound, lines, lines_of, push_decimal, str_eq,
    string_of, trim, trimmed, find_char,
};

verus! {

broadcast use vstd::string::group_string_axioms;

/// Worktree state of one file, in display priority order.
#[derive(Clone, Copy, Debug, PartialEq, Eq, Structural)]
pub enum FileState {
    Conflicted,
    Modified,
    Staged,
    Untracked,
}

/// The one-letter badge of a state.
pub open spec fn spec_badge(s: FileState) -> Seq<char> {
    match s {
        FileState::Conflicted => "!"@,
        FileState::Modified => "M"@,
        FileState::Staged => "A"@,
        FileState::Untracked => "U"@,
    }
}

impl FileState {
    /// One-letter badge for the file tree.
    pub fn badge(self) -> (r: &'static str)
        ensures
            r@ == spec_badge(self),
    {
        match self {
            FileState::Conflicted => "!",
            FileState::Modified => "M",
            FileState::Staged => "A",
            FileState::Untracked => "U",
        }
    }
}

// ---------------------------------------------------------------- paths

/// What `Path::join` gives for `base` and `rel`.
pub uninterp spec fn path_join(base: Seq<char>, rel: Seq<char>) -> Seq<char>;

/// What `Path::parent` gives for `p`.
pub uninterp spec fn path_parent(p: Seq<char>) -> Option<Seq<char>>;

/// What `Path::starts_with` says of `p` and `base` (whole components).
pub uninterp spec fn path_starts_with(p: Seq<char>, base: Seq<char>) -> bool;

/// Whether `Path::new(a) == Path::new(b)`: the same components, so that
/// `/r/docs/`, `/r/./docs` and `/r//docs` all name `/r/docs`.
pub uninterp spec fn path_eq(a: Seq<char>, b: Seq<char>) -> bool;

/// `Path::new(a) == Path::new(b)`.
/// Trusted: the result is std's component-wise comparison, which holds of
/// two equal strings.
#[verifier::external_body]
pub(crate) fn same_path(a: &str, b: &str) -> (r: bool)
    ensures
        r == path_eq(a@, b@),
        a@ == b@ ==> r,
{
    std::path::Path::new(a) == std::path::Path::new(b)
}

/// `Path::new(base).join(rel)` as a string.
/// Trusted: the result is std's join of the two paths.
#[verifier::external_body]
pub(crate) fn joined(base: &str, rel: &str) -> (r: String)
    ensures
        r@ == path_join(base@, rel@),
{
    std::path::Path::new(base).join(rel).to_string_lossy().into_owned()
}

/// `Path::new(p).parent()` as a string.
/// Trusted: the result is std's parent of `p`, which (the path without its
/// final component) is shorter than `p`.
#[verifier::external_body]
fn parent_of(p: &str) -> (r: Option<String>)
    ensures
        r matches Some(q) ==> path_parent(p@) == Some(q@) && q@.len() < p@.len(),
        r is None ==> path_parent(p@) is None,
{
    std::path::Path::new(p).parent().map(|q| q.to_string_lossy().into_owned())
}

/// `Path::new(p).starts_with(base)`.
/// Trusted: the result is std's component-wise prefix test.
#[verifier::external_body]
fn starts_with_path(p: &str, base: &str) -> (r: bool)
    ensures
        r == path_starts_with(p@, base@),
{
    std::path::Path::new(p).starts_with(base)
}

// ---------------------------------------------------------------- status model

/// A snapshot of a repository's status, keyed by absolute paths.
pub struct RepoStatus {
    /// Repository root; `None` when the folder isn't inside a git repo.
    pub root: Option<String>,
    /// Current branch name ("HEAD" while detached).
    pub branch: Option<String>,
    /// All local branch names.
    pub branches: Vec<String>,
    /// The state of each changed file.
    pub files: Vec<(String, FileState)>,
    /// Directories containing at least one changed file (for tree dots).
    pub dirty_dirs: Vec<String>,
}

/// The file states held in a list of (path, state) pairs.
pub open spec fn files_map(f: Seq<(String, FileState)>) -> Map<Seq<char>, FileState>
    decreases f.len(),
{
    if f.len() == 0 {
        Map::empty()
    } else {
        files_map(f.drop_last()).insert(f.last().0@, f.last().1)
    }
}

/// The paths of a list of (path, state) pairs.
pub open spec fn file_keys(f: Seq<(String, FileState)>) -> Seq<Seq<char>> {
    f.map_values(|p: (String, FileState)| p.0@)
}

proof fn lemma_files_map(f: Seq<(String, FileState)>)
    requires
        file_keys(f).no_duplicates(),
    ensures
        forall|i: int| 0 <= i < f.len() ==> #[trigger] files_map(f).contains_key(f[i].0@)
            && files_map(f)[f[i].0@] == f[i].1,
        forall|k: Seq<char>| files_map(f).contains_key(k) ==> file_keys(f).contains(k),
    decreases f.len(),
{
    if f.len() > 0 {
        let d = f.drop_last();
        assert(file_keys(d) =~= file_keys(f).drop_last());
        lemma_files_map(d);
        assert forall|i: int| 0 <= i < f.len() implies #[trigger] files_map(f).contains_key(f[i].0@)
            && files_map(f)[f[i].0@] == f[i].1 by {
            if i < f.len() - 1 {
                assert(d[i] == f[i]);
                assert(files_map(d).contains_key(d[i].0@));
                assert(file_keys(f)[i] != file_keys(f)[f.len() - 1]);
                assert(file_keys(f)[i] == f[i].0@);
            }
        }
        assert forall|k: Seq<char>| files_map(f).contains_key(k) implies file_keys(f).contains(k) by {
            if k != f.last().0@ {
                assert(file_keys(d).contains(k));
                let j = choose|j: int| 0 <= j < file_keys(d).len() && file_keys(d)[j] == k;
                assert(file_keys(f)[j] == k);
            } else {
                assert(file_keys(f)[f.len() - 1] == k);
            }
        }
    }
}

impl Default for RepoStatus {
    /// The status of a folder outside any repository.
    fn default() -> (r: RepoStatus)
        ensures
            r.root is None,
            r.branch is None,
            r.branches@.len() == 0,
            r.files@.len() == 0,
            r.dirty_dirs@.len() == 0,
    {
        RepoStatus::empty()
    }
}

impl RepoStatus {
    /// The status of a folder outside any repository.
    pub fn empty() -> (r: RepoStatus)
        ensures
            r.root is None,
            r.branch is None,
            r.branches@.len() == 0,
            r.files@.len() == 0,
            r.dirty_dirs@.len() == 0,
    {
        RepoStatus {
            root: None,
            branch: None,
            branches: Vec::new(),
            files: Vec::new(),
            dirty_dirs: Vec::new(),
        }
    }

    /// The state recorded for `path`, if it changed: paths are compared as
    /// `Path`s (by components), and the first matching entry answers.
    pub fn state_of(&self, path: &str) -> (r: Option<FileState>)
        ensures
            r matches Some(s) ==> exists|i: int|
                0 <= i < self.files@.len() && path_eq(#[trigger] self.files@[i].0@, path@)
                    && self.files@[i].1 == s && forall|j: int|
                    0 <= j < i ==> !path_eq(#[trigger] self.files@[j].0@, path@),
            r is None ==> forall|i: int|
                0 <= i < self.files@.len() ==> !path_eq(#[trigger] self.files@[i].0@, path@),
    {
        let mut i: usize = 0;
        while i < self.files.len()
            invariant
                i <= self.files@.len(),
                forall|j: int| 0 <= j < i ==> !path_eq(#[trigger] self.files@[j].0@, path@),
            decreases self.files@.len() - i,
        {
            if same_path(self.files[i].0.as_str(), path) {
                return Some(self.files[i].1);
            }
            i += 1;
        }
        None
    }

    /// Whether `path` is a directory containing a changed file (compared as
    /// a `Path`, by components).
    pub fn dir_is_dirty(&self, path: &str) -> (r: bool)
        ensures
            r == exists|i: int| 0 <= i < self.dirty_dirs@.len() && path_eq(#[trigger] self.dirty_dirs@[i]@, path@),
    {
        let mut i: usize = 0;
        while i < self.dirty_dirs.len()
            invariant
                i <= self.dirty_dirs@.len(),
                forall|j: int| 0 <= j < i ==> !path_eq(#[trigger] self.dirty_dirs@[j]@, path@),
            decreases self.dirty_dirs@.len() - i,
        {
            if same_path(self.dirty_dirs[i].as_str(), path) {
                return true;
            }
            i += 1;
        }
        false
    }
}

// ---------------------------------------------------------------- log

/// One entry of a file's commit history.
pub struct LogEntry {
    pub hash: String,
    pub date: String,
    pub subject: String,
}

/// A log line `hash<TAB>date<TAB>subject` as (hash, date, subject); lines
/// without a tab are not entries, and a missing subject is empty.
pub open spec fn parse_log_line(line: Seq<char>) -> Option<(Seq<char>, Seq<char>, Seq<char>)> {
    let i = index_of(line, '\t');
    if i >= line.len() {
        None
    } else {
        let rest = line.skip(i + 1int);
        let j = index_of(rest, '\t');
        Some(
            (
                line.take(i as int),
                rest.take(j as int),
                if j < rest.len() {
                    rest.skip(j + 1int)
                } else {
                    seq![]
                },
            ),
        )
    }
}

/// The entries of `git log` output, newest first, one per well-formed line.
pub open spec fn log_entries(ls: Seq<Seq<char>>) -> Seq<(Seq<char>, Seq<char>, Seq<char>)>
    decreases ls.len(),
{
    if ls.len() == 0 {
        seq![]
    } else {
        log_entries(ls.drop_last()) + match parse_log_line(ls.last()) {
            Some(e) => seq![e],
            None => seq![],
        }
    }
}

/// The (hash, date, subject) content of log entries.
pub open spec fn log_view(v: Seq<LogEntry>) -> Seq<(Seq<char>, Seq<char>, Seq<char>)> {
    v.map_values(|e: LogEntry| (e.hash@, e.date@, e.subject@))
}

/// The arguments for `git log` over `file`'s recent history: at most `limit`
/// commits, each as short hash, date and subject separated by tabs.
pub fn file_log_args(file: &str, limit: usize) -> (args: Vec<String>)
    ensures
        args@.len() == 6,
        args@[0]@ == "log"@,
        args@[1]@ == "-n"@ + decimal(limit as nat),
        args@[2]@ == "--format=%h%x09%ad%x09%s"@,
        args@[3]@ == "--date=short"@,
        args@[4]@ == "--"@,
        args@[5]@ == file@,
{
    let mut n = "-n".to_owned();
    push_decimal(&mut n, limit);
    let mut args: Vec<String> = Vec::new();
    args.push("log".to_owned());
    args.push(n);
    args.push("--format=%h%x09%ad%x09%s".to_owned());
    args.push("--date=short".to_owned());
    args.push("--".to_owned());
    args.push(file.to_owned());
    args
}

/// Recent commits touching a file (newest first), read from the output of
/// `git log` run with [`file_log_args`]; a failed run passes its error on.
pub fn file_log(output: Result<String, String>) -> (r: Result<Vec<LogEntry>, String>)
    ensures
        match output {
            Ok(out) => r matches Ok(v) && log_view(v@) == log_entries(lines(out@)),
            Err(e) => r == Err::<Vec<LogEntry>, String>(e),
        },
{
    let out = match output {
        Ok(out) => out,
        Err(e) => return Err(e),
    };
    let ls = lines_of(out.as_str());
    let mut v: Vec<LogEntry> = Vec::new();
    let mut i: usize = 0;
    let ghost all = lines(out@);
    while i < ls.len()
        invariant
            i <= ls@.len(),
            ls@.len() == all.len(),
            forall|k: int| 0 <= k < ls@.len() ==> #[trigger] ls@[k]@ == all[k],
            log_view(v@) == log_entries(all.take(i as int)),
        decreases ls@.len() - i,
    {
        assert(all.take(i + 1int).drop_last() =~= all.take(i as int));
        assert(all.take(i + 1int).last() == ls@[i as int]@);
        let ghost before = log_view(v@);
        let lv = chars_of(ls[i].as_str());
        let n = lv.len();
        let t1 = find_char(&lv, 0, n, '\t');
        assert(lv@.subrange(0, n as int) =~= lv@);
        proof {
            lemma_index_of_bound(lv@, '\t');
        }
        if t1 < n {
            let t2 = find_char(&lv, t1 + 1, n, '\t');
            let ghost rest = lv@.skip(t1 + 1int);
            assert(lv@.subrange(t1 + 1int, n as int) =~= rest);
            proof {
                lemma_index_of_bound(rest, '\t');
            }
            let hash = string_of(&lv, 0, t1);
            let date = string_of(&lv, t1 + 1, t1 + 1 + t2);
            let subject = if t1 + 1 + t2 < n {
                string_of(&lv, t1 + 2 + t2, n)
            } else {
                String::new()
            };
            assert(hash@ =~= lv@.take(t1 as int));
            assert(date@ =~= rest.take(t2 as int));
            assert(subject@ =~= (if t2 < rest.len() { rest.skip(t2 + 1int) } else { Seq::<char>::empty() }));
            v.push(LogEntry { hash, date, subject });
            assert(log_view(v@) =~= before + seq![(hash@, date@, subject@)]);
        } else {
            assert(log_view(v@) =~= before + Seq::<(Seq<char>, Seq<char>, Seq<char>)>::empty());
        }
        i += 1;
    }
    assert(all.take(ls@.len() as int) =~= all);
    Ok(v)
}

/// The arguments for `git show` of `rel_path` at revision `rev`.
pub fn show_file_at(rev: &str, rel_path: &str) -> (args: Vec<String>)
    ensures
        args@.len() == 2,
        args@[0]@ == "show"@,
        args@[1]@ == rev@ + ":"@ + rel_path@,
{
    let mut spec_arg = rev.to_owned();
    spec_arg.append(":");
    spec_arg.append(rel_path);
    let mut args: Vec<String> = Vec::new();
    args.push("show".to_owned());
    args.push(spec_arg);
    args
}

/// git's summary line for a commit: the first line of its output, trimmed,
/// or `committed` when there is none.
pub open spec fn commit_summary(out: Seq<char>) -> Seq<char> {
    if lines(out).len() > 0 {
        trim(lines(out)[0])
    } else {
        "committed"@
    }
}

/// What committing everything does once `git add -A` has answered.
pub enum CommitStep {
    /// Staging failed: stop with this result and run no commit.
    Stop(Result<String, String>),
    /// Staging succeeded: run `git commit` and read its answer with
    /// [`commit_all`].
    RunCommit,
}

/// The decision after staging: a failed `git add -A` ends the commit with
/// its own error, and only a successful one goes on to `git commit`.
pub fn after_staging(staged: Result<String, String>) -> (r: CommitStep)
    ensures
        match staged {
            Err(e) => r matches CommitStep::Stop(res) && res == Err::<String, String>(e),
            Ok(_) => r is RunCommit,
        },
{
    match staged {
        Err(e) => CommitStep::Stop(Err(e)),
        Ok(_) => CommitStep::RunCommit,
    }
}

/// The result of committing everything: git's summary line on success, the
/// error of `git commit` otherwise. It is asked for only after
/// [`after_staging`] said to run the commit.
pub fn commit_all(commit_output: Result<String, String>) -> (r: Result<String, String>)
    ensures
        match commit_output {
            Ok(out) => r matches Ok(s) && s@ == commit_summary(out@),
            Err(e) => r == Err::<String, String>(e),
        },
{
    match commit_output {
        Ok(out) => {
            let ls = lines_of(out.as_str());
            if ls.len() > 0 {
                Ok(trimmed(ls[0].as_str()))
            } else {
                Ok("committed".to_owned())
            }
        },
        Err(e) => Err(e),
    }
}

/// What the search for the first candidate folder inside a repository
/// does after looking at one candidate's status.
pub enum StatusStep {
    /// Stop with this status.
    Done(RepoStatus),
    /// Look at the next candidate.
    Continue,
}

/// One step of the search for the first candidate folder inside a
/// repository: stop at a status inside one, go on while candidates remain
/// (`more`), and stop with the empty status after the last. Statuses of
/// later candidates are never needed once one is found.
pub fn repo_status_step(status: RepoStatus, more: bool) -> (r: StatusStep)
    ensures
        status.root is Some ==> r == StatusStep::Done(status),
        status.root is None && more ==> r is Continue,
        status.root is None && !more ==> (r matches StatusStep::Done(s) && s.root is None && s.branch is None
            && s.branches@.len() == 0 && s.files@.len() == 0 && s.dirty_dirs@.len() == 0),
{
    if status.root.is_some() {
        StatusStep::Done(status)
    } else if more {
        StatusStep::Continue
    } else {
        StatusStep::Done(RepoStatus::empty())
    }
}

/// The first candidate status that is inside a repository, else the empty
/// status.
pub fn repo_status_first(statuses: Vec<RepoStatus>) -> (r: RepoStatus)
    ensures
        r.root is Some ==> exists|i: int| 0 <= i < statuses@.len() && statuses@[i] == r && forall|j: int|
            0 <= j < i ==> statuses@[j].root is None,
        r.root is None ==> forall|j: int| 0 <= j < statuses@.len() ==> statuses@[j].root is None,
        r.root is None ==> r.branch is None && r.branches@.len() == 0 && r.files@.len() == 0 && r.dirty_dirs@.len() == 0,
{
    let mut list = statuses;
    let ghost all = list@;
    let ghost mut i: int = 0;
    while list.len() > 0
        invariant
            0 <= i <= all.len(),
            list@ == all.skip(i),
            all == statuses@,
            forall|j: int| 0 <= j < i ==> all[j].root is None,
        decreases list@.len(),
    {
        let s = list.remove(0);
        assert(s == all[i]);
        let more = list.len() > 0;
        match repo_status_step(s, more) {
            StatusStep::Done(r) => {
                proof {
                    if !more {
                        assert(list@ =~= all.skip(i + 1));
                        assert(all.len() == i + 1);
                    }
                }
                return r;
            },
            StatusStep::Continue => {},
        }
        proof {
            assert(list@ =~= all.skip(i + 1));
            i = i + 1;
        }
    }
    assert(all.skip(i).len() == 0);
    RepoStatus::empty()
}

// ---------------------------------------------------------------- status

/// The pieces of `s` between occurrences of `c`, as `str::split` yields
/// them (an empty piece after a trailing separator included).
pub open spec fn split_on(s: Seq<char>, c: char) -> Seq<Seq<char>>
    decreases s.len(),
{
    let i = index_of(s, c);
    if i >= s.len() {
        seq![s]
    } else {
        proof {
            lemma_index_of_bound(s, c);
        }
        seq![s.take(i as int)] + split_on(s.skip(i + 1int), c)
    }
}

/// The pieces of `s` between occurrences of `c` (`str::split`).
pub fn split_char(s: &str, c: char) -> (r: Vec<String>)
    ensures
        strs_view(r@) == split_on(s@, c),
{
    let v = chars_of(s);
    let n = v.len();
    let mut r: Vec<String> = Vec::new();
    let mut pos: usize = 0;
    let ghost mut done: Seq<Seq<char>> = seq![];
    assert(v@.subrange(0, n as int) =~= v@);
    loop
        invariant
            n == v@.len(),
            v@ == s@,
            pos <= n,
            strs_view(r@) == done,
            split_on(v@, c) == done + split_on(v@.subrange(pos as int, n as int), c),
        decreases n - pos,
    {
        let ghost rest = v@.subrange(pos as int, n as int);
        let k = find_char(&v, pos, n, c);
        proof {
            lemma_index_of_bound(rest, c);
        }
        if k == n - pos {
            let piece = string_of(&v, pos, n);
            r.push(piece);
            proof {
                done = done.push(rest);
            }
            assert(strs_view(r@) =~= done);
            assert(split_on(v@, c) =~= done);
            return r;
        }
        let piece = string_of(&v, pos, pos + k);
        assert(piece@ =~= rest.take(k as int));
        assert(rest.skip(k + 1int) =~= v@.subrange(pos + k + 1, n as int));
        r.push(piece);
        proof {
            done = done.push(piece@);
        }
        assert(strs_view(r@) =~= done);
        assert(split_on(v@, c) =~= done + split_on(v@.subrange(pos + k + 1, n as int), c));
        pos = pos + k + 1;
    }
}

/// The UTF-8 bytes of a token up to byte 3 end on a character boundary
/// after this many characters; `None` when byte 3 falls inside a character.
pub open spec fn boundary3(tok: Seq<char>) -> Option<nat> {
    if tok.len() >= 1 && encode_utf8(tok.take(1)).len() == 3 {
        Some(1)
    } else if tok.len() >= 2 && encode_utf8(tok.take(2)).len() == 3 {
        Some(2)
    } else if tok.len() >= 3 && encode_utf8(tok.take(3)).len() == 3 {
        Some(3)
    } else {
        None
    }
}

/// The state of a porcelain entry from its status bytes `X` and `Y`.
pub open spec fn classify(x: u8, y: u8) -> FileState {
    if x == 85 || y == 85 || (x == 68 && y == 68) || (x == 65 && y == 65) {
        FileState::Conflicted  // U, DD, AA

    } else if x == 63 && y == 63 {
        FileState::Untracked  // ??

    } else if y == 77 || y == 68 || y == 84 {
        FileState::Modified  // worktree M, D, T

    } else {
        FileState::Staged
    }
}

/// An entry that is neither a conflict (`U` on either side, `DD`, `AA`)
/// nor untracked (`??`) is Modified exactly when its worktree status `Y` is
/// `M`, `D` or `T`, whatever its index status `X` (so `MM`, `AM` and ` M`
/// are all Modified); otherwise its changes are all staged. The state of
/// such an entry depends on `Y` alone.
pub proof fn law_worktree_state(x: u8, y: u8, x2: u8)
    requires
        x != 85 && y != 85 && !(x == 68 && y == 68) && !(x == 65 && y == 65) && !(x == 63 && y == 63),
        x2 != 85 && !(x2 == 68 && y == 68) && !(x2 == 65 && y == 65) && !(x2 == 63 && y == 63),
    ensures
        (classify(x, y) == FileState::Modified) <==> (y == 77 || y == 68 || y == 84),
        (classify(x, y) == FileState::Staged) <==> !(y == 77 || y == 68 || y == 84),
        classify(x, y) == classify(x2, y),
{
}

/// Conflicts and untracked files: `U` on either side, `DD` or `AA` is a
/// conflict; `??` is untracked.
pub proof fn law_conflict_and_untracked(x: u8, y: u8)
    ensures
        (x == 85 || y == 85 || (x == 68 && y == 68) || (x == 65 && y == 65)) <==> classify(x, y)
            == FileState::Conflicted,
        (x == 63 && y == 63) <==> classify(x, y) == FileState::Untracked,
{
}

/// `s` without trailing `/`.
pub open spec fn trim_end_slashes(s: Seq<char>) -> Seq<char>
    decreases s.len(),
{
    if s.len() > 0 && s.last() == '/' {
        trim_end_slashes(s.drop_last())
    } else {
        s
    }
}

/// `dirty` with `d` and its ancestors added, walking up while the folder is
/// inside `root` and not already marked. Each step goes to the folder's
/// parent, which is shorter (std's parent drops the last component).
pub open spec fn mark_from(dirty: Set<Seq<char>>, d: Option<Seq<char>>, root: Seq<char>) -> Set<Seq<char>>
    decreases (match d {
        Some(p) => p.len(),
        None => 0,
    }),
{
    match d {
        None => dirty,
        Some(p) => if !path_starts_with(p, root) || dirty.contains(p) {
            dirty
        } else {
            match path_parent(p) {
                Some(q) => if q.len() < p.len() {
                    mark_from(dirty.insert(p), Some(q), root)
                } else {
                    dirty.insert(p)
                },
                None => dirty.insert(p),
            }
        },
    }
}

/// The parse of `git status --porcelain -z` so far.
pub struct PorcelainModel {
    pub files: Map<Seq<char>, FileState>,
    pub dirty: Set<Seq<char>>,
    /// The next token is a rename's or copy's original path.
    pub skip: bool,
}

/// The effect of one token; `None` where byte 3 of an entry is not a
/// character boundary (no status line git writes).
pub open spec fn porcelain_step(st: Option<PorcelainModel>, tok: Seq<char>, root: Seq<char>) -> Option<
    PorcelainModel,
> {
    match st {
        None => None,
        Some(s) => if s.skip {
            Some(PorcelainModel { skip: false, ..s })
        } else if encode_utf8(tok).len() < 4 {
            Some(s)
        } else {
            match boundary3(tok) {
                None => None,
                Some(k) => {
                    let b = encode_utf8(tok);
                    let path = path_join(root, trim_end_slashes(tok.skip(k as int)));
                    Some(
                        PorcelainModel {
                            files: s.files.insert(path, classify(b[0], b[1])),
                            dirty: mark_from(s.dirty, path_parent(path), root),
                            skip: b[0] == 82 || b[0] == 67,  // R, C
                        },
                    )
                },
            }
        },
    }
}

/// The parse after a list of tokens.
pub open spec fn porcelain_run(tokens: Seq<Seq<char>>, root: Seq<char>) -> Option<PorcelainModel>
    decreases tokens.len(),
{
    if tokens.len() == 0 {
        Some(PorcelainModel { files: Map::empty(), dirty: Set::empty(), skip: false })
    } else {
        porcelain_step(porcelain_run(tokens.drop_last(), root), tokens.last(), root)
    }
}

/// The UTF-8 bytes of the first `k` characters of `tok`, when these are
/// ASCII, are those characters.
proof fn lemma_ascii_prefix(tok: Seq<char>, k: int)
    requires
        0 <= k <= tok.len(),
        forall|i: int| 0 <= i < k ==> (tok[i] as u32) < 0x80,
    ensures
        encode_utf8(tok.take(k)).len() == k,
        forall|i: int| 0 <= i < k ==> #[trigger] encode_utf8(tok.take(k))[i] == (tok[i] as u32) as u8,
    decreases k,
{
    broadcast use vstd::utf8::char_is_scalar;
    if k == 0 {
        assert(tok.take(0) =~= Seq::<char>::empty());
    } else {
        lemma_ascii_prefix(tok, k - 1);
        let c = tok[k - 1];
        assert(tok.take(k) =~= tok.take(k - 1) + seq![c]);
        lemma_encode_concat(tok.take(k - 1), seq![c]);
        assert(seq![c].drop_first() =~= Seq::<char>::empty());
        let v = c as u32;
        assert(v < 0x80);
        assert(((v & 0x7F) as u8) == v as u8) by (bit_vector)
            requires
                v < 0x80,
        ;
        assert(encode_utf8(seq![c]) == vstd::utf8::encode_scalar(v) + encode_utf8(seq![c].drop_first()));
        assert(encode_utf8(Seq::<char>::empty()) =~= Seq::<u8>::empty());
        assert(vstd::utf8::encode_scalar(v) =~= seq![(v & 0x7F) as u8]);
        assert(encode_utf8(seq![c]) =~= seq![v as u8]);
        let e = encode_utf8(tok.take(k));
        assert forall|i: int| 0 <= i < k implies #[trigger] e[i] == (tok[i] as u32) as u8 by {
            if i < k - 1 {
                assert(e[i] == encode_utf8(tok.take(k - 1))[i]);
            }
        }
    }
}

/// One status entry whose first three characters are ASCII (git writes
/// `XY ` there) records its path, joined to the root, with the state that
/// its status letters `X` (first) and `Y` (second) give; a rename or copy
/// (`X` is `R`, code 82, or `C`, code 67) skips the token that follows.
pub proof fn law_porcelain_entry(tok: Seq<char>, root: Seq<char>)
    requires
        tok.len() >= 4,
        forall|i: int| 0 <= i < 3 ==> (tok[i] as u32) < 0x80,
    ensures
        porcelain_run(seq![tok], root) matches Some(m) && m.files == Map::<Seq<char>, FileState>::empty().insert(
            path_join(root, trim_end_slashes(tok.skip(3))),
            classify((tok[0] as u32) as u8, (tok[1] as u32) as u8),
        ) && m.skip == ((tok[0] as u32) == 82 || (tok[0] as u32) == 67),
{
    broadcast use vstd::utf8::char_is_scalar;
    let toks = seq![tok];
    assert(toks.drop_last() =~= Seq::<Seq<char>>::empty());
    assert(toks.last() == tok);
    lemma_ascii_prefix(tok, 1);
    lemma_ascii_prefix(tok, 2);
    lemma_ascii_prefix(tok, 3);
    assert(tok =~= tok.take(3) + tok.skip(3));
    lemma_encode_concat(tok.take(3), tok.skip(3));
    let rest = tok.skip(3);
    assert(rest =~= seq![rest[0]] + rest.drop_first());
    lemma_encode_concat(seq![rest[0]], rest.drop_first());
    lemma_char_width(rest[0]);
    assert(seq![rest[0]].drop_first() =~= Seq::<char>::empty());
    assert(encode_utf8(seq![rest[0]]) =~= vstd::utf8::encode_scalar(rest[0] as u32));
    let b = encode_utf8(tok);
    assert(b.len() >= 4);
    assert(boundary3(tok) == Some(3nat));
    assert(b[0] == encode_utf8(tok.take(3))[0]);
    assert(b[1] == encode_utf8(tok.take(3))[1]);
    assert(b[0] == (tok[0] as u32) as u8);
    assert(b[1] == (tok[1] as u32) as u8);
    let v = tok[0] as u32;
    assert(v < 0x80);
    assert((v as u8 == 82) == (v == 82) && (v as u8 == 67) == (v == 67)) by (bit_vector)
        requires
            v < 0x80,
    ;
    let e = Map::<Seq<char>, FileState>::empty();
    assert(porcelain_run(Seq::<Seq<char>>::empty(), root) == Some(
        PorcelainModel { files: e, dirty: Set::empty(), skip: false },
    ));
}

/// Every dirty folder's parent inside `root` is dirty too, except `pending`,
/// the folder about to be marked. (A parent is shorter than its folder.)
pub open spec fn closed_but(dirty: Set<Seq<char>>, root: Seq<char>, pending: Option<Seq<char>>) -> bool {
    forall|x: Seq<char>|
        #![trigger dirty.contains(x), path_parent(x)]
        dirty.contains(x) ==> match path_parent(x) {
            Some(q) => q.len() < x.len() && path_starts_with(q, root) ==> dirty.contains(q) || pending == Some(q),
            None => true,
        }
}

/// Each path of `c` after the first is the parent of the one before it.
pub open spec fn parent_chain(c: Seq<Seq<char>>) -> bool {
    forall|i: int| 0 <= i < c.len() - 1 ==> path_parent(#[trigger] c[i]) == Some(c[i + 1])
}

/// `d` is a folder above `x`: going to the parent one or more times from
/// `x` reaches `d`.
pub open spec fn is_above(d: Seq<char>, x: Seq<char>) -> bool {
    exists|c: Seq<Seq<char>>| c.len() >= 2 && c[0] == x && c.last() == d && #[trigger] parent_chain(c)
}

proof fn lemma_mark_from(dirty: Set<Seq<char>>, d: Option<Seq<char>>, root: Seq<char>)
    requires
        closed_but(dirty, root, d),
    ensures
        closed_but(mark_from(dirty, d, root), root, None),
        dirty.subset_of(mark_from(dirty, d, root)),
        d matches Some(p) ==> (path_starts_with(p, root) ==> mark_from(dirty, d, root).contains(p)),
        d matches Some(p) ==> forall|y: Seq<char>|
            #[trigger] mark_from(dirty, d, root).contains(y) && !dirty.contains(y) ==> path_starts_with(y, root)
                && exists|c: Seq<Seq<char>>| c.len() >= 1 && c[0] == p && c.last() == y && #[trigger] parent_chain(c),
    decreases (match d {
        Some(p) => p.len(),
        None => 0,
    }),
{
    match d {
        None => {},
        Some(p) => {
            if !path_starts_with(p, root) || dirty.contains(p) {
            } else {
                let s2 = dirty.insert(p);
                match path_parent(p) {
                    Some(q) => {
                        if q.len() < p.len() {
                            assert(closed_but(s2, root, Some(q))) by {
                                assert forall|x: Seq<char>| #![trigger s2.contains(x), path_parent(x)] s2.contains(x) implies match path_parent(x) {
                                    Some(r) => r.len() < x.len() && path_starts_with(r, root) ==> s2.contains(r) || Some(q) == Some(r),
                                    None => true,
                                } by {
                                    if x != p {
                                        assert(dirty.contains(x));
                                    }
                                }
                            }
                            lemma_mark_from(s2, Some(q), root);
                            let r = mark_from(s2, Some(q), root);
                            assert forall|y: Seq<char>| #[trigger] r.contains(y) && !dirty.contains(y) implies path_starts_with(y, root)
                                && exists|c: Seq<Seq<char>>| c.len() >= 1 && c[0] == p && c.last() == y && #[trigger] parent_chain(c) by {
                                if y == p {
                                    let c = seq![p];
                                    assert(parent_chain(c));
                                } else {
                                    assert(!s2.contains(y));
                                    let c0 = choose|c: Seq<Seq<char>>| c.len() >= 1 && c[0] == q && c.last() == y && #[trigger] parent_chain(c);
                                    let c = seq![p] + c0;
                                    assert(parent_chain(c)) by {
                                        assert forall|i: int| 0 <= i < c.len() - 1 implies path_parent(#[trigger] c[i]) == Some(c[i + 1]) by {
                                            if i > 0 {
                                                assert(c[i] == c0[i - 1] && c[i + 1] == c0[i]);
                                            }
                                        }
                                    }
                                    assert(c.last() == y);
                                }
                            }
                        } else {
                            assert(closed_but(s2, root, None)) by {
                                assert forall|x: Seq<char>| #![trigger s2.contains(x), path_parent(x)] s2.contains(x) implies match path_parent(x) {
                                    Some(r) => r.len() < x.len() && path_starts_with(r, root) ==> s2.contains(r),
                                    None => true,
                                } by {
                                    if x != p {
                                        assert(dirty.contains(x));
                                    }
                                }
                            }
                            assert(parent_chain(seq![p]));
                        }
                    },
                    None => {
                        assert(closed_but(s2, root, None)) by {
                            assert forall|x: Seq<char>| #![trigger s2.contains(x), path_parent(x)] s2.contains(x) implies match path_parent(x) {
                                Some(r) => r.len() < x.len() && path_starts_with(r, root) ==> s2.contains(r),
                                None => true,
                            } by {
                                if x != p {
                                    assert(dirty.contains(x));
                                }
                            }
                        }
                        assert(parent_chain(seq![p]));
                    },
                }
            }
        },
    }
}

/// The dirty folders are exactly the folders inside the repository root
/// above a changed file: each file's folder, when inside the root, is
/// dirty; a dirty folder's parent inside the root is dirty too; and every
/// dirty folder is inside the root and above some file the status lists.
pub proof fn law_dirty_folders_closed(tokens: Seq<Seq<char>>, root: Seq<char>)
    ensures
        porcelain_run(tokens, root) matches Some(m) ==> {
            &&& closed_but(m.dirty, root, None)
            &&& forall|f: Seq<char>| #[trigger] m.files.contains_key(f) ==> match path_parent(f) {
                Some(q) => path_starts_with(q, root) ==> m.dirty.contains(q),
                None => true,
            }
            &&& forall|x: Seq<char>| #[trigger] m.dirty.contains(x) ==> path_starts_with(x, root)
                && exists|f: Seq<char>| #[trigger] m.files.contains_key(f) && is_above(x, f)
        },
    decreases tokens.len(),
{
    if tokens.len() > 0 {
        let prev = porcelain_run(tokens.drop_last(), root);
        law_dirty_folders_closed(tokens.drop_last(), root);
        match prev {
            None => {},
            Some(s) => {
                let tok = tokens.last();
                if s.skip || encode_utf8(tok).len() < 4 {
                    let m = porcelain_run(tokens, root)->0;
                    assert(m.files == s.files && m.dirty == s.dirty);
                    assert forall|x: Seq<char>| #[trigger] m.dirty.contains(x) implies path_starts_with(x, root)
                        && exists|f: Seq<char>| #[trigger] m.files.contains_key(f) && is_above(x, f) by {
                        assert(s.dirty.contains(x));
                        let f = choose|f: Seq<char>| #[trigger] s.files.contains_key(f) && is_above(x, f);
                        assert(m.files.contains_key(f));
                    }
                } else {
                    match boundary3(tok) {
                        None => {},
                        Some(k) => {
                            let path = path_join(root, trim_end_slashes(tok.skip(k as int)));
                            let par = path_parent(path);
                            assert(closed_but(s.dirty, root, par));
                            lemma_mark_from(s.dirty, par, root);
                            let nd = mark_from(s.dirty, par, root);
                            let nf = s.files.insert(path, classify(encode_utf8(tok)[0], encode_utf8(tok)[1]));
                            assert forall|f: Seq<char>| #[trigger] nf.contains_key(f) implies match path_parent(f) {
                                Some(q) => path_starts_with(q, root) ==> nd.contains(q),
                                None => true,
                            } by {
                                if f != path {
                                    assert(s.files.contains_key(f));
                                }
                            }
                            assert forall|x: Seq<char>| #[trigger] nd.contains(x) implies path_starts_with(x, root)
                                && exists|f: Seq<char>| #[trigger] nf.contains_key(f) && is_above(x, f) by {
                                if s.dirty.contains(x) {
                                    let f = choose|f: Seq<char>| #[trigger] s.files.contains_key(f) && is_above(x, f);
                                    assert(nf.contains_key(f));
                                } else {
                                    let p = par->0;
                                    let c0 = choose|c: Seq<Seq<char>>| c.len() >= 1 && c[0] == p && c.last() == x && #[trigger] parent_chain(c);
                                    let c = seq![path] + c0;
                                    assert(parent_chain(c)) by {
                                        assert forall|i: int| 0 <= i < c.len() - 1 implies path_parent(#[trigger] c[i]) == Some(c[i + 1]) by {
                                            if i > 0 {
                                                assert(c[i] == c0[i - 1] && c[i + 1] == c0[i]);
                                            }
                                        }
                                    }
                                    assert(c.last() == x);
                                    assert(nf.contains_key(path));
                                    assert(is_above(x, path));
                                }
                            }
                            let m = porcelain_run(tokens, root)->0;
                            assert(m.files == nf && m.dirty == nd);
                        },
                    }
                }
            },
        }
    }
}

/// UTF-8 width of a character.
fn char_width_of(c: char) -> (w: usize)
    ensures
        w == crate::import::char_width(c),
{
    proof {
        lemma_char_width(c);
    }
    let u = c as u32;
    if u < 0x80 {
        1
    } else if u < 0x800 {
        2
    } else if u < 0x10000 {
        3
    } else {
        4
    }
}

proof fn lemma_take_width(s: Seq<char>, k: int)
    requires
        0 <= k < s.len(),
    ensures
        encode_utf8(s.take(k + 1)).len() == encode_utf8(s.take(k)).len() + crate::import::char_width(s[k]),
{
    assert(s.take(k + 1) =~= s.take(k) + seq![s[k]]);
    lemma_encode_concat(s.take(k), seq![s[k]]);
    assert(seq![s[k]].drop_first() =~= Seq::<char>::empty());
    assert(encode_utf8(seq![s[k]]) =~= vstd::utf8::encode_scalar(s[k] as u32) + encode_utf8(Seq::<char>::empty()));
}

/// Whether `dirty` holds `s`.
fn holds(list: &Vec<String>, s: &str) -> (r: bool)
    ensures
        r == strs_view(list@).contains(s@),
{
    let mut i: usize = 0;
    while i < list.len()
        invariant
            i <= list@.len(),
            forall|j: int| 0 <= j < i ==> list@[j]@ != s@,
        decreases list@.len() - i,
    {
        if str_eq(list[i].as_str(), s) {
            assert(strs_view(list@)[i as int] == s@);
            return true;
        }
        i += 1;
    }
    assert(!strs_view(list@).contains(s@)) by {
        if strs_view(list@).contains(s@) {
            let j = choose|j: int| 0 <= j < list@.len() && strs_view(list@)[j] == s@;
            assert(list@[j]@ == s@);
        }
    }
    false
}

/// Marks `path`'s folder and its ancestors inside `root` as dirty, stopping
/// at the first one already marked.
fn mark_dirty(dirty: &mut Vec<String>, path: &str, root: &str)
    requires
        strs_view(old(dirty)@).no_duplicates(),
    ensures
        strs_view(final(dirty)@).no_duplicates(),
        strs_view(final(dirty)@).to_set() == mark_from(
            strs_view(old(dirty)@).to_set(),
            path_parent(path@),
            root@,
        ),
{
    let mut d = parent_of(path);
    loop
        invariant
            strs_view(dirty@).no_duplicates(),
            mark_from(strs_view(old(dirty)@).to_set(), path_parent(path@), root@)
                == mark_from(strs_view(dirty@).to_set(), match d {
                Some(p) => Some(p@),
                None => None,
            }, root@),
        decreases (match d {
            Some(p) => p@.len() + 1,
            None => 0,
        }),
    {
        let p = match d {
            Some(p) => p,
            None => return,
        };
        if !starts_with_path(p.as_str(), root) || holds(dirty, p.as_str()) {
            return;
        }
        let ghost before = strs_view(dirty@);
        let next = parent_of(p.as_str());
        dirty.push(p);
        proof {
            assert(strs_view(dirty@) =~= before.push(p@));
            before.lemma_push_to_set_commute(p@);
            assert(strs_view(dirty@).no_duplicates()) by {
                assert forall|a: int, b: int| 0 <= a < b < strs_view(dirty@).len() implies strs_view(dirty@)[a] != strs_view(dirty@)[b] by {
                    if b == before.len() && before[a] == p@ {
                        assert(before.contains(p@));
                    }
                }
            }
        }
        d = next;
    }
}

/// Index of the first entry for `path`, or the list's length when none.
fn index_of_path(files: &Vec<(String, FileState)>, path: &str) -> (i: usize)
    ensures
        i <= files@.len(),
        i < files@.len() ==> files@[i as int].0@ == path@,
        forall|j: int| 0 <= j < i ==> files@[j].0@ != path@,
{
    let mut i: usize = 0;
    while i < files.len()
        invariant
            i <= files@.len(),
            forall|j: int| 0 <= j < i ==> files@[j].0@ != path@,
        decreases files@.len() - i,
    {
        if str_eq(files[i].0.as_str(), path) {
            return i;
        }
        i += 1;
    }
    i
}

/// Records `state` for `path`, replacing an earlier state of the same path.
fn set_state(files: &mut Vec<(String, FileState)>, path: String, state: FileState)
    requires
        file_keys(old(files)@).no_duplicates(),
    ensures
        file_keys(final(files)@).no_duplicates(),
        files_map(final(files)@) == files_map(old(files)@).insert(path@, state),
{
    let i = index_of_path(files, path.as_str());
    let ghost before = files@;
    proof {
        lemma_files_map(before);
    }
    if i < files.len() {
        files.set(i, (path, state));
        proof {
            assert(file_keys(files@) =~= file_keys(before));
            lemma_files_map(files@);
            assert forall|k: Seq<char>| #![auto] files_map(files@).contains_key(k) <==> files_map(before).insert(path@, state).contains_key(k) by {
                if files_map(files@).contains_key(k) {
                    assert(file_keys(files@).contains(k));
                    let j = choose|j: int| 0 <= j < file_keys(files@).len() && file_keys(files@)[j] == k;
                    assert(file_keys(before)[j] == k);
                    assert(files_map(before).contains_key(before[j].0@));
                }
                if files_map(before).contains_key(k) {
                    assert(file_keys(before).contains(k));
                    let j = choose|j: int| 0 <= j < file_keys(before).len() && file_keys(before)[j] == k;
                    assert(files_map(files@).contains_key(files@[j].0@));
                }
                if k == path@ {
                    assert(files_map(files@).contains_key(files@[i as int].0@));
                }
            }
            assert forall|k: Seq<char>| #![auto] files_map(files@).contains_key(k) implies files_map(files@)[k] == files_map(before).insert(path@, state)[k] by {
                assert(file_keys(files@).contains(k));
                let j = choose|j: int| 0 <= j < file_keys(files@).len() && file_keys(files@)[j] == k;
                assert(files_map(files@).contains_key(files@[j].0@));
                if j == i {
                } else {
                    assert(files_map(before).contains_key(before[j].0@));
                    assert(file_keys(before)[j] != file_keys(before)[i as int]);
                }
            }
            assert(files_map(files@) =~= files_map(before).insert(path@, state));
        }
    } else {
        files.push((path, state));
        proof {
            assert(files@.drop_last() =~= before);
            assert(file_keys(files@) =~= file_keys(before).push(path@));
            assert(!file_keys(before).contains(path@)) by {
                if file_keys(before).contains(path@) {
                    let j = choose|j: int| 0 <= j < file_keys(before).len() && file_keys(before)[j] == path@;
                    assert(before[j].0@ == path@);
                }
            }
            assert(file_keys(files@).no_duplicates()) by {
                assert forall|a: int, b: int| 0 <= a < b < file_keys(files@).len() implies file_keys(files@)[a] != file_keys(files@)[b] by {
                    if b == before.len() && file_keys(before)[a] == path@ {
                        assert(file_keys(before).contains(path@));
                    }
                }
            }
        }
    }
}

/// Per-file states and dirty folders from `git status --porcelain -z`
/// output, with paths joined onto the repository `root`. `None` where an
/// entry's byte 3 falls inside a character (git never writes such a line;
/// reading one is a defect of the caller).
pub fn parse_porcelain(root: &str, porcelain: &str) -> (r: Option<(Vec<(String, FileState)>, Vec<String>)>)
    ensures
        match r {
            Some((files, dirty)) => porcelain_run(split_on(porcelain@, '\0'), root@) matches Some(m)
                && files_map(files@) == m.files && strs_view(dirty@).to_set() == m.dirty
                && file_keys(files@).no_duplicates() && strs_view(dirty@).no_duplicates(),
            None => porcelain_run(split_on(porcelain@, '\0'), root@) is None,
        },
{
    let tokens = split_char(porcelain, '\0');
    let ghost toks = split_on(porcelain@, '\0');
    let mut files: Vec<(String, FileState)> = Vec::new();
    let mut dirty: Vec<String> = Vec::new();
    let mut skip = false;
    let mut t: usize = 0;
    assert(files_map(files@) =~= Map::<Seq<char>, FileState>::empty());
    assert(strs_view(dirty@).to_set() =~= Set::<Seq<char>>::empty());
    while t < tokens.len()
        invariant
            t <= tokens@.len(),
            strs_view(tokens@) == toks,
            toks == split_on(porcelain@, '\0'),
            porcelain_run(toks.take(t as int), root@) == Some(PorcelainModel {
                files: files_map(files@),
                dirty: strs_view(dirty@).to_set(),
                skip: skip,
            }),
            file_keys(files@).no_duplicates(),
            strs_view(dirty@).no_duplicates(),
        decreases tokens@.len() - t,
    {
        let tok = &tokens[t];
        proof {
            assert(toks.take(t + 1int).drop_last() =~= toks.take(t as int));
            assert(toks.take(t + 1int).last() == tok@);
        }
        if skip {
            skip = false;
            t += 1;
            continue;
        }
        let b = tok.as_str().as_bytes();
        if b.len() < 4 {
            t += 1;
            continue;
        }
        let cs = chars_of(tok.as_str());
        let ghost tv = tok@;
        let w0 = char_width_of(cs[0]);
        proof {
            lemma_take_width(tv, 0);
            assert(tv.take(0) =~= Seq::<char>::empty());
            assert(encode_utf8(Seq::<char>::empty()) =~= Seq::<u8>::empty());
        }
        let k: usize = if w0 == 3 {
            1
        } else if w0 < 3 && cs.len() >= 2 {
            let w1 = char_width_of(cs[1]);
            proof {
                lemma_take_width(tv, 1);
            }
            if w0 + w1 == 3 {
                2
            } else if w0 + w1 < 3 && cs.len() >= 3 {
                let w2 = char_width_of(cs[2]);
                proof {
                    lemma_take_width(tv, 2);
                }
                if w0 + w1 + w2 == 3 {
                    3
                } else {
                    0
                }
            } else {
                0
            }
        } else {
            0
        };
        proof {
            lemma_char_width(tv[0]);
            if cs.len() >= 2 {
                lemma_char_width(tv[1]);
                lemma_take_width(tv, 1);
            }
            if cs.len() >= 3 {
                lemma_char_width(tv[2]);
                lemma_take_width(tv, 2);
            }
        }
        if k == 0 {
            assert(boundary3(tv) is None);
            proof {
                assert(porcelain_run(toks.take(t + 1int), root@) is None);
                assert forall|m: int| t + 1 <= m <= toks.len() implies porcelain_run(#[trigger] toks.take(m), root@) is None by {
                    lemma_run_stays_none(toks, root@, t + 1, m);
                }
                assert(toks.take(toks.len() as int) =~= toks);
            }
            return None;
        }
        assert(boundary3(tv) == Some(k as nat));
        let x = b[0];
        let y = b[1];
        let state = if x == 85 || y == 85 || (x == 68 && y == 68) || (x == 65 && y == 65) {
            FileState::Conflicted
        } else if x == 63 && y == 63 {
            FileState::Untracked
        } else if y == 77 || y == 68 || y == 84 {
            FileState::Modified
        } else {
            FileState::Staged
        };
        let mut e = cs.len();
        while e > k && cs[e - 1] == '/'
            invariant
                k <= e <= cs@.len(),
                trim_end_slashes(tv.skip(k as int)) == trim_end_slashes(cs@.subrange(k as int, e as int)),
                cs@ == tv,
            decreases e,
        {
            assert(cs@.subrange(k as int, e as int).drop_last() =~= cs@.subrange(k as int, e - 1));
            e -= 1;
        }
        assert(tv.skip(k as int) =~= cs@.subrange(k as int, cs@.len() as int)) by {
        }
        let rel = string_of(&cs, k, e);
        assert(rel@ == trim_end_slashes(tv.skip(k as int)));
        let path = joined(root, rel.as_str());
        mark_dirty(&mut dirty, path.as_str(), root);
        set_state(&mut files, path, state);
        skip = x == 82 || x == 67;
        t += 1;
    }
    assert(toks.take(tokens@.len() as int) =~= toks);
    Some((files, dirty))
}

proof fn lemma_run_stays_none(toks: Seq<Seq<char>>, root: Seq<char>, a: int, m: int)
    requires
        0 <= a <= m <= toks.len(),
        porcelain_run(toks.take(a), root) is None,
    ensures
        porcelain_run(toks.take(m), root) is None,
    decreases m - a,
{
    if m > a {
        lemma_run_stays_none(toks, root, a, m - 1);
        assert(toks.take(m).drop_last() =~= toks.take(m - 1));
    }
}

/// The current branch from `git rev-parse --abbrev-ref HEAD`: its trimmed
/// output, unless that is empty or the command failed.
pub open spec fn spec_branch(out: Option<Seq<char>>) -> Option<Seq<char>> {
    match out {
        Some(o) => if trim(o).len() > 0 {
            Some(trim(o))
        } else {
            None
        },
        None => None,
    }
}

/// The local branches from `git branch --format=%(refname:short)`: its
/// lines, trimmed, blank ones skipped; none when the command failed.
pub open spec fn spec_branches(out: Option<Seq<char>>) -> Seq<Seq<char>> {
    match out {
        Some(o) => lines(o).map_values(|l: Seq<char>| trim(l)).filter(|l: Seq<char>| l.len() > 0),
        None => seq![],
    }
}

/// The content of a command's result: its output, or nothing for an error.
pub open spec fn output_of(r: Result<String, String>) -> Option<Seq<char>> {
    match r {
        Ok(s) => Some(s@),
        Err(_) => None,
    }
}

/// Full status snapshot from the outputs of `git rev-parse --show-toplevel`,
/// `git rev-parse --abbrev-ref HEAD`, `git branch
/// --format=%(refname:short)` and `git status --porcelain -z`, all run in
/// the same folder. Outside a repository (the first command failed) the
/// snapshot is empty. `None` exactly where the porcelain output cannot be
/// read (see [`parse_porcelain`]).
pub fn repo_status(
    toplevel: Result<String, String>,
    head: Result<String, String>,
    branch_list: Result<String, String>,
    porcelain: Result<String, String>,
) -> (r: Option<RepoStatus>)
    ensures
        toplevel is Err ==> (r matches Some(s) && s.root is None && s.branch is None
            && s.branches@.len() == 0 && s.files@.len() == 0 && s.dirty_dirs@.len() == 0),
        toplevel matches Ok(top) ==> match r {
            Some(s) => {
                &&& s.root matches Some(root) && root@ == trim(top@)
                &&& match s.branch {
                    Some(b) => spec_branch(output_of(head)) == Some(b@),
                    None => spec_branch(output_of(head)) is None,
                }
                &&& strs_view(s.branches@) == spec_branches(output_of(branch_list))
                &&& match porcelain {
                    Ok(p) => porcelain_run(split_on(p@, '\0'), trim(top@)) matches Some(m)
                        && files_map(s.files@) == m.files && strs_view(s.dirty_dirs@).to_set() == m.dirty,
                    Err(_) => s.files@.len() == 0 && s.dirty_dirs@.len() == 0,
                }
                &&& file_keys(s.files@).no_duplicates()
                &&& strs_view(s.dirty_dirs@).no_duplicates()
            },
            None => (porcelain matches Ok(p) && porcelain_run(split_on(p@, '\0'), trim(top@)) is None),
        },
{
    let top = match toplevel {
        Ok(t) => t,
        Err(_) => return Some(RepoStatus::empty()),
    };
    let root = trimmed(top.as_str());
    let branch = match head {
        Ok(h) => {
            let t = trimmed(h.as_str());
            if t.as_str().is_empty() {
                None
            } else {
                Some(t)
            }
        },
        Err(_) => None,
    };
    let mut branches: Vec<String> = Vec::new();
    match branch_list {
        Ok(out) => {
            let ls = lines_of(out.as_str());
            let ghost all = lines(out@).map_values(|l: Seq<char>| trim(l));
            let mut i: usize = 0;
            while i < ls.len()
                invariant
                    i <= ls@.len(),
                    ls@.len() == lines(out@).len(),
                    forall|k: int| 0 <= k < ls@.len() ==> #[trigger] ls@[k]@ == lines(out@)[k],
                    all == lines(out@).map_values(|l: Seq<char>| trim(l)),
                    strs_view(branches@) == all.take(i as int).filter(|l: Seq<char>| l.len() > 0),
                decreases ls@.len() - i,
            {
                let t = trimmed(ls[i].as_str());
                proof {
                    reveal(Seq::filter);
                    assert(all.take(i + 1int).drop_last() =~= all.take(i as int));
                    assert(all.take(i + 1int).last() == t@);
                }
                let ghost before = strs_view(branches@);
                if !t.as_str().is_empty() {
                    branches.push(t);
                    assert(strs_view(branches@) =~= before.push(strs_view(branches@).last()));
                }
                i += 1;
            }
            assert(all.take(ls@.len() as int) =~= all);
        },
        Err(_) => {
            assert(strs_view(branches@) =~= Seq::<Seq<char>>::empty());
        },
    }
    let (files, dirty_dirs) = match porcelain {
        Ok(p) => match parse_porcelain(root.as_str(), p.as_str()) {
            Some(parsed) => parsed,
            None => return None,
        },
        Err(_) => (Vec::new(), Vec::new()),
    };
    Some(RepoStatus { root: Some(root), branch, branches, files, dirty_dirs })
}

} // verus!
