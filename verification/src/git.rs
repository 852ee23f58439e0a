//! Asking Git, and reading what it says.

use vstd::prelude::*;

use vstd::slice::{slice_subrange, slice_to_vec};
use vstd::utf8::{decode_utf8, encode_utf8, valid_utf8};

use crate::encoding::{bytes_of, lossy, read_lossy, read_utf8, utf8_error};
use crate::errors::{failure, plain, system, Error, ErrorView};
use crate::paths;
use crate::paths::same_path;
use crate::sequences::{first, lemma_first_is, split};
use crate::session::{
    answers, ask_git, ask_unit, canonicalize, canonicalize_protocol, extends, fails, follows, git_reply, lemma_bytes, settled, steady_canonicalize,
    stop, unit_reply, GitContext, IoError, Log, Output, Request, RequestView,
    Session, Step, Stop,
};
use crate::text;
use crate::text::{cat, cut_suffix, halves, trimmed, without_prefix};

verus! {

broadcast use lemma_bytes;

/// The variables of the environment that select a repository, but for the
/// configuration given on a command line.
pub open spec fn repository_environment() -> Seq<Seq<char>> {
    seq![
        "GIT_ALTERNATE_OBJECT_DIRECTORIES"@,
        "GIT_OBJECT_DIRECTORY"@,
        "GIT_DIR"@,
        "GIT_WORK_TREE"@,
        "GIT_IMPLICIT_WORK_TREE"@,
        "GIT_GRAFT_FILE"@,
        "GIT_INDEX_FILE"@,
        "GIT_NO_REPLACE_OBJECTS"@,
        "GIT_REPLACE_REF_BASE"@,
        "GIT_PREFIX"@,
        "GIT_INTERNAL_SUPER_PREFIX"@,
        "GIT_SHALLOW_FILE"@,
        "GIT_COMMON_DIR"@,
        "GIT_NAMESPACE"@,
    ]
}

impl GitContext {
    /// The variables that a command in this context must not inherit.
    pub open spec fn withheld(self) -> Seq<Seq<char>> {
        match self {
            GitContext::Source => Seq::empty(),
            GitContext::WorktreeMutation => seq!["GIT_INDEX_FILE"@],
            GitContext::Destination => repository_environment(),
        }
    }

    /// The variables that a command in this context must not inherit. Adding and
    /// removing worktrees selects the source repository, but the checkout inside
    /// must use the index of its own worktree.
    pub fn removed_environment(self) -> (r: Vec<String>)
        ensures
            r.deep_view() == self.withheld(),
    {
        match self {
            GitContext::Source => {
                let r: Vec<String> = Vec::new();
                assert(r.deep_view() =~= self.withheld());
                r
            },
            GitContext::WorktreeMutation => {
                let r = vec!["GIT_INDEX_FILE".to_owned()];
                assert(r.deep_view() =~= self.withheld());
                r
            },
            GitContext::Destination => {
                let r = vec![
                    "GIT_ALTERNATE_OBJECT_DIRECTORIES".to_owned(),
                    "GIT_OBJECT_DIRECTORY".to_owned(),
                    "GIT_DIR".to_owned(),
                    "GIT_WORK_TREE".to_owned(),
                    "GIT_IMPLICIT_WORK_TREE".to_owned(),
                    "GIT_GRAFT_FILE".to_owned(),
                    "GIT_INDEX_FILE".to_owned(),
                    "GIT_NO_REPLACE_OBJECTS".to_owned(),
                    "GIT_REPLACE_REF_BASE".to_owned(),
                    "GIT_PREFIX".to_owned(),
                    "GIT_INTERNAL_SUPER_PREFIX".to_owned(),
                    "GIT_SHALLOW_FILE".to_owned(),
                    "GIT_COMMON_DIR".to_owned(),
                    "GIT_NAMESPACE".to_owned(),
                ];
                assert(r.deep_view() =~= self.withheld());
                r
            },
        }
    }
}

/// Runs Git, failing only where it could not be run.
pub open spec fn output_protocol(
    log: Log,
    git: GitContext,
    cwd: Seq<u8>,
    args: Seq<Seq<char>>,
) -> Step<Output> {
    git_reply(log, git, cwd, args).bind(
        |outcome: Result<Output, IoError>, log: Log|
            match outcome {
                Ok(out) => Step::Done(out, log),
                Err(error) => Step::Fail(system(error).wrap("could not execute git"@), log),
            },
    )
}

fn output_with_context<'a>(
    io: &mut Session<'a>,
    git: GitContext,
    cwd: &[u8],
    args: &Vec<String>,
) -> (r: Result<&'a Output, Stop>)
    ensures
        answers(r, final(io)@, output_protocol(old(io)@, git, cwd@, args.deep_view())),
{
    match ask_git(io, git, cwd, args)? {
        Ok(out) => Ok(out),
        Err(error) => Err(Stop::Fail(crate::errors::system_failure(error).context("could not execute git"))),
    }
}

/// Runs Git in the caller's own repository selection.
pub fn output<'a>(io: &mut Session<'a>, cwd: &[u8], args: &Vec<String>) -> (r: Result<
    &'a Output,
    Stop,
>)
    ensures
        answers(
            r,
            final(io)@,
            output_protocol(old(io)@, GitContext::Source, cwd@, args.deep_view()),
        ),
{
    output_with_context(io, GitContext::Source, cwd, args)
}

/// What a failed command says of its failure: what it wrote as diagnostics, else
/// what it wrote, else how it ended.
pub open spec fn failure_detail(out: Output) -> Seq<char> {
    let stderr = trimmed(lossy(out.stderr@));
    let stdout = trimmed(lossy(out.stdout@));
    if stderr.len() > 0 {
        stderr
    } else if stdout.len() > 0 {
        stdout
    } else {
        out.status@
    }
}

/// The command that arguments begin with.
pub open spec fn verb(args: Seq<Seq<char>>) -> Seq<char> {
    if args.len() == 0 {
        ""@
    } else {
        args[0]
    }
}

pub open spec fn checked_protocol(log: Log, out: Output, args: Seq<Seq<char>>) -> Step<Seq<u8>> {
    if !out.success {
        fails("git "@ + verb(args) + ": "@ + failure_detail(out), log)
    } else if out.stderr@.len() > 0 {
        unit_reply(log, RequestView::Report(out.stderr@)).bind(
            |outcome: Result<(), IoError>, log: Log|
                match outcome {
                    Ok(_) => Step::Done(out.stdout@, log),
                    Err(error) => Step::Fail(system(error).wrap("writing Git diagnostics"@), log),
                },
        )
    } else {
        Step::Done(out.stdout@, log)
    }
}

/// What a command wrote, once it succeeded and its diagnostics were passed on.
fn checked<'a>(io: &mut Session<'a>, out: &Output, args: &Vec<String>) -> (r: Result<Vec<u8>, Stop>)
    ensures
        follows(r, final(io)@, checked_protocol(old(io)@, *out, args.deep_view())),
{
    if !out.success {
        let stderr = text::trim(read_lossy(out.stderr.as_slice()).as_str());
        let stdout = text::trim(read_lossy(out.stdout.as_slice()).as_str());
        proof {
            assert(stderr@ =~= trimmed(lossy(out.stderr@)));
        }
        let detail = if !stderr.as_str().is_empty() {
            stderr
        } else if !stdout.as_str().is_empty() {
            stdout
        } else {
            out.status.clone()
        };
        let verb = if args.len() == 0 {
            ""
        } else {
            args[0].as_str()
        };
        let message = cat(cat("git ", verb).as_str(), cat(": ", detail.as_str()).as_str());
        assert(message@ =~= "git "@ + self::verb(args.deep_view()) + ": "@ + failure_detail(*out));
        return Err(stop(message.as_str()));
    }
    if out.stderr.len() > 0 {
        match ask_unit(io, Request::Report(slice_to_vec(out.stderr.as_slice())))? {
            Ok(_) => {},
            Err(error) => {
                return Err(
                    Stop::Fail(
                        crate::errors::system_failure(error).context("writing Git diagnostics"),
                    ),
                );
            },
        }
    }
    Ok(slice_to_vec(out.stdout.as_slice()))
}

pub open spec fn run_protocol(log: Log, git: GitContext, cwd: Seq<u8>, args: Seq<Seq<char>>) -> Step<
    Seq<u8>,
> {
    output_protocol(log, git, cwd, args).bind(
        |out: Output, log: Log| checked_protocol(log, out, args),
    )
}

/// Runs Git in the caller's own repository selection; what it wrote.
pub fn run<'a>(io: &mut Session<'a>, cwd: &[u8], args: &Vec<String>) -> (r: Result<Vec<u8>, Stop>)
    ensures
        follows(
            r,
            final(io)@,
            run_protocol(old(io)@, GitContext::Source, cwd@, args.deep_view()),
        ),
{
    let out = output(io, cwd, args)?;
    checked(io, out, args)
}

/// Runs Git to add or remove a worktree; what it wrote.
pub fn run_worktree_mutation<'a>(io: &mut Session<'a>, cwd: &[u8], args: &Vec<String>) -> (r: Result<
    Vec<u8>,
    Stop,
>)
    ensures
        follows(
            r,
            final(io)@,
            run_protocol(old(io)@, GitContext::WorktreeMutation, cwd@, args.deep_view()),
        ),
{
    let out = output_with_context(io, GitContext::WorktreeMutation, cwd, args)?;
    checked(io, out, args)
}

/// Runs Git in a worktree, whatever repository the caller selected; what it wrote.
pub fn run_in_worktree<'a>(io: &mut Session<'a>, cwd: &[u8], args: &Vec<String>) -> (r: Result<
    Vec<u8>,
    Stop,
>)
    ensures
        follows(
            r,
            final(io)@,
            run_protocol(old(io)@, GitContext::Destination, cwd@, args.deep_view()),
        ),
{
    let out = output_with_context(io, GitContext::Destination, cwd, args)?;
    checked(io, out, args)
}

/// One answer of Git as a text, without the newline at its end.
pub open spec fn answer_text(bytes: Seq<u8>) -> Result<Seq<char>, ErrorView> {
    if valid_utf8(bytes) {
        Ok(cut_suffix(decode_utf8(bytes), "\n"@))
    } else {
        Err(plain(utf8_error(bytes)).wrap("Git returned non-UTF-8 data"@))
    }
}

fn answered(bytes: &[u8]) -> (r: Result<String, Stop>)
    ensures
        forall|rest: Log| #[trigger]
            follows(r, rest, settled(answer_text(bytes@), rest)),
{
    match read_utf8(bytes) {
        Ok(value) => Ok(text::strip_suffix(value.as_str(), "\n")),
        Err(error) => Err(
            Stop::Fail(failure(error.as_str()).context("Git returned non-UTF-8 data")),
        ),
    }
}

pub open spec fn text_protocol(log: Log, git: GitContext, cwd: Seq<u8>, args: Seq<Seq<char>>) -> Step<
    Seq<char>,
> {
    run_protocol(log, git, cwd, args).bind(
        |bytes: Seq<u8>, log: Log| settled(answer_text(bytes), log),
    )
}

/// Runs Git in the caller's own repository selection; its answer as a text.
pub fn text<'a>(io: &mut Session<'a>, cwd: &[u8], args: &Vec<String>) -> (r: Result<String, Stop>)
    ensures
        follows(
            r,
            final(io)@,
            text_protocol(old(io)@, GitContext::Source, cwd@, args.deep_view()),
        ),
{
    let bytes = run(io, cwd, args)?;
    answered(bytes.as_slice())
}

/// Runs Git in a worktree, whatever repository the caller selected; its answer as
/// a text.
pub fn text_in_worktree<'a>(io: &mut Session<'a>, cwd: &[u8], args: &Vec<String>) -> (r: Result<
    String,
    Stop,
>)
    ensures
        follows(
            r,
            final(io)@,
            text_protocol(old(io)@, GitContext::Destination, cwd@, args.deep_view()),
        ),
{
    let bytes = run_in_worktree(io, cwd, args)?;
    answered(bytes.as_slice())
}

pub open spec fn optional_protocol(log: Log, cwd: Seq<u8>, args: Seq<Seq<char>>) -> Step<
    Option<Seq<char>>,
> {
    output_protocol(log, GitContext::Source, cwd, args).bind(
        |out: Output, log: Log|
            if out.code == Some(1i32) {
                Step::Done(None, log)
            } else if !out.success {
                fails("git lookup failed: "@ + lossy(out.stderr@), log)
            } else {
                match answer_text(out.stdout@) {
                    Ok(value) => Step::Done(Some(value), log),
                    Err(error) => Step::Fail(error, log),
                }
            },
    )
}

/// Looks something up that Git may not have.
pub fn optional<'a>(io: &mut Session<'a>, cwd: &[u8], args: &Vec<String>) -> (r: Result<
    Option<String>,
    Stop,
>)
    ensures
        follows(r, final(io)@, optional_protocol(old(io)@, cwd@, args.deep_view())),
{
    let out = output(io, cwd, args)?;
    if let Some(code) = out.code {
        if code == 1 {
            return Ok(None);
        }
    }
    if !out.success {
        let message = cat("git lookup failed: ", read_lossy(out.stderr.as_slice()).as_str());
        return Err(stop(message.as_str()));
    }
    let ghost rest = io@;
    let answer = answered(out.stdout.as_slice());
    assert(follows(answer, rest, settled(answer_text(out.stdout@), rest)));
    Ok(Some(answer?))
}

/// The question for the root of a working tree.
pub open spec fn toplevel_args() -> Seq<Seq<char>> {
    seq!["rev-parse"@, "--show-toplevel"@]
}

/// The question for the directory that a repository's worktrees share.
pub open spec fn common_args() -> Seq<Seq<char>> {
    seq!["rev-parse"@, "--path-format=absolute"@, "--git-common-dir"@]
}

pub(crate) fn common_question() -> (r: Vec<String>)
    ensures
        r.deep_view() == common_args(),
{
    let r = vec![
        "rev-parse".to_owned(),
        "--path-format=absolute".to_owned(),
        "--git-common-dir".to_owned(),
    ];
    assert(r.deep_view() =~= common_args());
    r
}

pub open spec fn validate_protocol(log: Log, source_cwd: Seq<u8>, path: Seq<u8>) -> Step<()> {
    text_protocol(log, GitContext::Destination, path, toplevel_args()).bind(
        |top: Seq<char>, log: Log|
            canonicalize_protocol(log, encode_utf8(top)).bind(
                |top: Seq<u8>, log: Log|
                    canonicalize_protocol(log, path).bind(
                        |here: Seq<u8>, log: Log|
                            if !same_path(top, here) {
                                fails(
                                    "Git discovered a different working tree at "@ + lossy(top),
                                    log,
                                )
                            } else {
                                same_repository_protocol(log, source_cwd, path)
                            },
                    ),
            ),
    )
}

pub open spec fn same_repository_protocol(log: Log, source_cwd: Seq<u8>, path: Seq<u8>) -> Step<()> {
    text_protocol(log, GitContext::Source, source_cwd, common_args()).bind(
        |expected: Seq<char>, log: Log|
            canonicalize_protocol(log, encode_utf8(expected)).bind(
                |expected: Seq<u8>, log: Log|
                    text_protocol(log, GitContext::Destination, path, common_args()).bind(
                        |actual: Seq<char>, log: Log|
                            canonicalize_protocol(log, encode_utf8(actual)).bind(
                                |actual: Seq<u8>, log: Log|
                                    if !same_path(actual, expected) {
                                        fails(
                                            "selected working tree belongs to a different repository"@,
                                            log,
                                        )
                                    } else {
                                        Step::Done((), log)
                                    },
                            ),
                    ),
            ),
    )
}

/// Validates a selected checkout itself, not an enclosing repository discovered
/// by Git.
pub fn validate_worktree<'a>(io: &mut Session<'a>, source_cwd: &[u8], path: &[u8]) -> (r: Result<
    (),
    Stop,
>)
    ensures
        follows(r, final(io)@, validate_protocol(old(io)@, source_cwd@, path@)),
{
    let question = vec!["rev-parse".to_owned(), "--show-toplevel".to_owned()];
    assert(question.deep_view() =~= toplevel_args());
    let top = text_in_worktree(io, path, &question)?;
    let top = canonicalize(io, bytes_of(top.as_str()).as_slice())?;
    let here = canonicalize(io, path)?;
    if !paths::same(top.as_slice(), here.as_slice()) {
        let message = cat(
            "Git discovered a different working tree at ",
            read_lossy(top.as_slice()).as_str(),
        );
        return Err(stop(message.as_str()));
    }
    let question = common_question();
    let expected = text(io, source_cwd, &question)?;
    let expected = canonicalize(io, bytes_of(expected.as_str()).as_slice())?;
    let actual = text_in_worktree(io, path, &question)?;
    let actual = canonicalize(io, bytes_of(actual.as_str()).as_slice())?;
    if !paths::same(actual.as_slice(), expected.as_slice()) {
        return Err(stop("selected working tree belongs to a different repository"));
    }
    Ok(())
}

/// The pieces of `bytes` between the occurrences of `x`.
fn pieces(bytes: &[u8], x: u8) -> (r: Vec<Vec<u8>>)
    ensures
        r.deep_view() == split(bytes@, x),
{
    let n = bytes.len();
    let mut out: Vec<Vec<u8>> = Vec::new();
    let mut start: usize = 0;
    let mut i: usize = 0;
    proof {
        assert(bytes@.skip(0) =~= bytes@);
        assert(out.deep_view() + split(bytes@, x) =~= split(bytes@, x));
    }
    while i < n
        invariant
            n == bytes@.len(),
            start <= i <= n,
            forall|j: int| start <= j < i ==> bytes@[j] != x,
            out.deep_view() + split(bytes@.skip(start as int), x) == split(bytes@, x),
        decreases n - i,
    {
        if bytes[i] == x {
            let piece = slice_to_vec(slice_subrange(bytes, start, i));
            let ghost before = out.deep_view();
            let ghost t = bytes@.skip(start as int);
            out.push(piece);
            proof {
                lemma_first_is(t, x, i - start);
                assert(t.take(i - start) =~= piece@);
                assert(t.skip(i - start + 1) =~= bytes@.skip(i + 1));
                assert(out.deep_view() =~= before.push(piece@));
                assert(out.deep_view() + split(bytes@.skip(i + 1), x) =~= before + split(t, x));
            }
            start = i + 1;
        }
        i = i + 1;
    }
    let piece = slice_to_vec(slice_subrange(bytes, start, n));
    let ghost before = out.deep_view();
    out.push(piece);
    proof {
        let t = bytes@.skip(start as int);
        assert(piece@ =~= t);
        lemma_first_is(t, x, t.len() as int);
        assert(out.deep_view() =~= before + split(t, x));
    }
    out
}

/// The paths among the pieces of a listing: those that are not empty. A piece
/// that is no text spoils the listing.
pub open spec fn listed_paths(pieces: Seq<Seq<u8>>) -> Result<Seq<Seq<u8>>, ErrorView>
    decreases pieces.len(),
{
    if pieces.len() == 0 {
        Ok(Seq::empty())
    } else {
        match listed_paths(pieces.drop_last()) {
            Err(error) => Err(error),
            Ok(paths) => {
                let piece = pieces.last();
                if piece.len() == 0 {
                    Ok(paths)
                } else if valid_utf8(piece) {
                    Ok(paths.push(piece))
                } else {
                    Err(plain(utf8_error(piece)).wrap("non-UTF-8 Git path"@))
                }
            },
        }
    }
}

/// Once a piece spoils a listing, what follows does not matter.
proof fn lemma_listed_spoiled(pieces: Seq<Seq<u8>>, k: int)
    requires
        0 <= k <= pieces.len(),
        listed_paths(pieces.take(k)) is Err,
    ensures
        listed_paths(pieces) == listed_paths(pieces.take(k)),
    decreases pieces.len(),
{
    if k == pieces.len() {
        assert(pieces.take(k) =~= pieces);
    } else {
        assert(pieces.drop_last().take(k) =~= pieces.take(k));
        lemma_listed_spoiled(pieces.drop_last(), k);
    }
}

/// The paths of a listing with a zero byte after each path.
pub fn nul_paths(bytes: &[u8]) -> (r: Result<Vec<Vec<u8>>, Error>)
    ensures
        match listed_paths(split(bytes@, 0u8)) {
            Ok(paths) => r matches Ok(v) && v.deep_view() == paths,
            Err(error) => r matches Err(e) && e.deep_view() == error,
        },
{
    let listing = pieces(bytes, 0);
    let ghost all = listing.deep_view();
    let mut out: Vec<Vec<u8>> = Vec::new();
    let mut i: usize = 0;
    assert(all.take(0) =~= Seq::<Seq<u8>>::empty());
    assert(out.deep_view() =~= Seq::<Seq<u8>>::empty());
    while i < listing.len()
        invariant
            i <= listing@.len(),
            all == listing.deep_view(),
            all == split(bytes@, 0u8),
            listed_paths(all.take(i as int)) == Ok::<Seq<Seq<u8>>, ErrorView>(out.deep_view()),
        decreases listing@.len() - i,
    {
        assert(all.take(i + 1).drop_last() =~= all.take(i as int));
        assert(all.take(i + 1).last() == listing@[i as int]@);
        let piece = listing[i].as_slice();
        if piece.len() > 0 {
            match read_utf8(piece) {
                Ok(_) => {
                    let ghost before = out.deep_view();
                    out.push(slice_to_vec(piece));
                    assert(out.deep_view() =~= before.push(piece@));
                },
                Err(error) => {
                    proof {
                        lemma_listed_spoiled(all, i + 1);
                    }
                    return Err(failure(error.as_str()).context("non-UTF-8 Git path"));
                },
            }
        }
        i = i + 1;
    }
    assert(all.take(i as int) =~= all);
    Ok(out)
}

/// A path as a text.
pub open spec fn path_text(path: Seq<u8>) -> Result<Seq<char>, ErrorView> {
    if valid_utf8(path) {
        Ok(decode_utf8(path))
    } else {
        Err(plain("non-UTF-8 path"@))
    }
}

/// A path as a text.
pub fn path_str(p: &[u8]) -> (r: Result<String, Error>)
    ensures
        match path_text(p@) {
            Ok(text) => r matches Ok(t) && t@ == text,
            Err(error) => r matches Err(e) && e.deep_view() == error,
        },
{
    match read_utf8(p) {
        Ok(text) => Ok(text),
        Err(_) => Err(failure("non-UTF-8 path")),
    }
}

/// A worktree as Git registered it.
#[derive(Debug)]
pub struct Worktree {
    pub path: Vec<u8>,
    pub branch: Option<String>,
    pub head: Option<String>,
    pub current: bool,
    pub primary: bool,
    pub detached: bool,
    pub locked: bool,
    pub lock_reason: Option<String>,
    pub prunable: bool,
    pub prune_reason: Option<String>,
    pub bare: bool,
}

/// What a [`Worktree`] says.
#[verifier::ext_equal]
pub struct WorktreeView {
    pub path: Seq<u8>,
    pub branch: Option<Seq<char>>,
    pub head: Option<Seq<char>>,
    pub current: bool,
    pub primary: bool,
    pub detached: bool,
    pub locked: bool,
    pub lock_reason: Option<Seq<char>>,
    pub prunable: bool,
    pub prune_reason: Option<Seq<char>>,
    pub bare: bool,
}

impl DeepView for Worktree {
    type V = WorktreeView;

    open spec fn deep_view(&self) -> WorktreeView {
        WorktreeView {
            path: self.path@,
            branch: self.branch.deep_view(),
            head: self.head.deep_view(),
            current: self.current,
            primary: self.primary,
            detached: self.detached,
            locked: self.locked,
            lock_reason: self.lock_reason.deep_view(),
            prunable: self.prunable,
            prune_reason: self.prune_reason.deep_view(),
            bare: self.bare,
        }
    }
}

/// A record of which nothing was read yet.
pub open spec fn blank() -> WorktreeView {
    WorktreeView {
        path: Seq::empty(),
        branch: None,
        head: None,
        current: false,
        primary: false,
        detached: false,
        locked: false,
        lock_reason: None,
        prunable: false,
        prune_reason: None,
        bare: false,
    }
}

impl Default for Worktree {
    fn default() -> (r: Worktree)
        ensures
            r.deep_view() == blank(),
    {
        Worktree {
            path: Vec::new(),
            branch: None,
            head: None,
            current: false,
            primary: false,
            detached: false,
            locked: false,
            lock_reason: None,
            prunable: false,
            prune_reason: None,
            bare: false,
        }
    }
}

/// The name of a field, and its value where it has one.
pub open spec fn field_parts(field: Seq<char>) -> (Seq<char>, Option<Seq<char>>) {
    match halves(field, ' ') {
        Some((name, value)) => (name, Some(value)),
        None => (field, None),
    }
}

/// A record with one more field.
pub open spec fn with_field(
    record: WorktreeView,
    name: Seq<char>,
    value: Option<Seq<char>>,
) -> WorktreeView {
    match value {
        Some(value) => if name == "worktree"@ {
            WorktreeView { path: encode_utf8(value), ..record }
        } else if name == "HEAD"@ {
            WorktreeView { head: Some(value), ..record }
        } else if name == "branch"@ {
            match without_prefix(value, "refs/heads/"@) {
                Some(branch) => WorktreeView { branch: Some(branch), ..record },
                None => record,
            }
        } else if name == "locked"@ {
            WorktreeView { locked: true, lock_reason: Some(value), ..record }
        } else if name == "prunable"@ {
            WorktreeView { prunable: true, prune_reason: Some(value), ..record }
        } else {
            record
        },
        None => if name == "detached"@ {
            WorktreeView { detached: true, ..record }
        } else if name == "bare"@ {
            WorktreeView { bare: true, ..record }
        } else if name == "locked"@ {
            WorktreeView { locked: true, lock_reason: None, ..record }
        } else if name == "prunable"@ {
            WorktreeView { prunable: true, prune_reason: None, ..record }
        } else {
            record
        },
    }
}

/// The records read from fields, and the record being read. An empty field ends a
/// record that has a path.
pub open spec fn records(fields: Seq<Seq<u8>>) -> Result<
    (Seq<WorktreeView>, WorktreeView),
    ErrorView,
>
    decreases fields.len(),
{
    if fields.len() == 0 {
        Ok((Seq::empty(), blank()))
    } else {
        match records(fields.drop_last()) {
            Err(error) => Err(error),
            Ok((trees, current)) => {
                let field = fields.last();
                if !valid_utf8(field) {
                    Err(plain(utf8_error(field)).wrap("non-UTF-8 worktree record"@))
                } else if decode_utf8(field).len() == 0 {
                    if current.path.len() > 0 {
                        Ok((trees.push(current), blank()))
                    } else {
                        Ok((trees, current))
                    }
                } else {
                    let (name, value) = field_parts(decode_utf8(field));
                    Ok((trees, with_field(current, name, value)))
                }
            },
        }
    }
}

/// The records, with the first one marked as the main worktree, unless the
/// repository is bare.
pub open spec fn with_primary(trees: Seq<WorktreeView>) -> Seq<WorktreeView> {
    if trees.len() == 0 {
        trees
    } else {
        trees.update(0, WorktreeView { primary: !trees[0].bare, ..trees[0] })
    }
}

/// The worktrees in a listing.
pub open spec fn listed_worktrees(bytes: Seq<u8>) -> Result<Seq<WorktreeView>, ErrorView> {
    match records(split(bytes, 0u8)) {
        Ok((trees, _)) => Ok(with_primary(trees)),
        Err(error) => Err(error),
    }
}

proof fn lemma_records_spoiled(fields: Seq<Seq<u8>>, k: int)
    requires
        0 <= k <= fields.len(),
        records(fields.take(k)) is Err,
    ensures
        records(fields) == records(fields.take(k)),
    decreases fields.len(),
{
    if k == fields.len() {
        assert(fields.take(k) =~= fields);
    } else {
        assert(fields.drop_last().take(k) =~= fields.take(k));
        lemma_records_spoiled(fields.drop_last(), k);
    }
}

impl Worktree {
    /// Notes one field of the record.
    fn note(&mut self, name: &str, value: Option<String>)
        ensures
            final(self).deep_view() == with_field(old(self).deep_view(), name@, value.deep_view()),
    {
        match value {
            Some(value) => {
                if text::same(name, "worktree") {
                    self.path = bytes_of(value.as_str());
                } else if text::same(name, "HEAD") {
                    self.head = Some(value);
                } else if text::same(name, "branch") {
                    if let Some(branch) = text::strip_prefix(value.as_str(), "refs/heads/") {
                        self.branch = Some(branch);
                    }
                } else if text::same(name, "locked") {
                    self.locked = true;
                    self.lock_reason = Some(value);
                } else if text::same(name, "prunable") {
                    self.prunable = true;
                    self.prune_reason = Some(value);
                }
            },
            None => {
                if text::same(name, "detached") {
                    self.detached = true;
                } else if text::same(name, "bare") {
                    self.bare = true;
                } else if text::same(name, "locked") {
                    self.locked = true;
                    self.lock_reason = None;
                } else if text::same(name, "prunable") {
                    self.prunable = true;
                    self.prune_reason = None;
                }
            },
        }
    }
}

/// The worktrees in a listing with a zero byte after each field.
pub fn parse_worktrees(bytes: &[u8]) -> (r: Result<Vec<Worktree>, Error>)
    ensures
        match listed_worktrees(bytes@) {
            Ok(trees) => r matches Ok(v) && v.deep_view() == trees,
            Err(error) => r matches Err(e) && e.deep_view() == error,
        },
{
    let fields = pieces(bytes, 0);
    let ghost all = fields.deep_view();
    let mut trees: Vec<Worktree> = Vec::new();
    let mut current = Worktree::default();
    let mut i: usize = 0;
    assert(all.take(0) =~= Seq::<Seq<u8>>::empty());
    assert(trees.deep_view() =~= Seq::<WorktreeView>::empty());
    while i < fields.len()
        invariant
            i <= fields@.len(),
            all == fields.deep_view(),
            all == split(bytes@, 0u8),
            records(all.take(i as int)) == Ok::<(Seq<WorktreeView>, WorktreeView), ErrorView>(
                (trees.deep_view(), current.deep_view()),
            ),
        decreases fields@.len() - i,
    {
        assert(all.take(i + 1).drop_last() =~= all.take(i as int));
        assert(all.take(i + 1).last() == fields@[i as int]@);
        match read_utf8(fields[i].as_slice()) {
            Err(error) => {
                proof {
                    lemma_records_spoiled(all, i + 1);
                }
                return Err(failure(error.as_str()).context("non-UTF-8 worktree record"));
            },
            Ok(field) => {
                if field.as_str().unicode_len() == 0 {
                    if current.path.len() > 0 {
                        let ghost before = trees.deep_view();
                        trees.push(current);
                        assert(trees.deep_view() =~= before.push(current.deep_view()));
                        current = Worktree::default();
                    }
                } else {
                    match text::split_once(field.as_str(), ' ') {
                        Some((name, value)) => {
                            current.note(name.as_str(), Some(value));
                        },
                        None => {
                            current.note(field.as_str(), None);
                        },
                    }
                }
            },
        }
        i = i + 1;
    }
    assert(all.take(i as int) =~= all);
    let ghost before = trees.deep_view();
    if trees.len() > 0 {
        let bare = trees[0].bare;
        trees[0].primary = !bare;
    }
    assert(trees.deep_view() =~= with_primary(before));
    Ok(trees)
}

/// The question for the registered worktrees.
pub open spec fn worktrees_args() -> Seq<Seq<char>> {
    seq!["worktree"@, "list"@, "--porcelain"@, "-z"@]
}

pub open spec fn inventory_protocol(log: Log, cwd: Seq<u8>) -> Step<Seq<WorktreeView>> {
    run_protocol(log, GitContext::Source, cwd, worktrees_args()).bind(
        |bytes: Seq<u8>, log: Log| settled(listed_worktrees(bytes), log),
    )
}

/// The worktrees that are registered with Git.
pub fn inventory<'a>(io: &mut Session<'a>, cwd: &[u8]) -> (r: Result<Vec<Worktree>, Stop>)
    ensures
        follows(r, final(io)@, inventory_protocol(old(io)@, cwd@)),
{
    let question = vec![
        "worktree".to_owned(),
        "list".to_owned(),
        "--porcelain".to_owned(),
        "-z".to_owned(),
    ];
    assert(question.deep_view() =~= worktrees_args());
    let bytes = run(io, cwd, &question)?;
    match parse_worktrees(bytes.as_slice()) {
        Ok(trees) => Ok(trees),
        Err(error) => Err(Stop::Fail(error)),
    }
}

pub broadcast proof fn steady_run(
    log: Log,
    more: Log,
    git: GitContext,
    cwd: Seq<u8>,
    args: Seq<Seq<char>>,
)
    ensures
        extends(
            run_protocol(log, git, cwd, args),
            #[trigger] run_protocol(log + more, git, cwd, args),
            more,
        ),
{
    broadcast use crate::session::group_steady_replies;

}

pub broadcast proof fn steady_text(
    log: Log,
    more: Log,
    git: GitContext,
    cwd: Seq<u8>,
    args: Seq<Seq<char>>,
)
    ensures
        extends(
            text_protocol(log, git, cwd, args),
            #[trigger] text_protocol(log + more, git, cwd, args),
            more,
        ),
{
    broadcast use steady_run;

}

pub broadcast proof fn steady_optional(log: Log, more: Log, cwd: Seq<u8>, args: Seq<Seq<char>>)
    ensures
        extends(
            optional_protocol(log, cwd, args),
            #[trigger] optional_protocol(log + more, cwd, args),
            more,
        ),
{
    broadcast use crate::session::group_steady_replies;

}

proof fn steady_same_repository(log: Log, more: Log, source_cwd: Seq<u8>, path: Seq<u8>)
    ensures
        extends(
            same_repository_protocol(log, source_cwd, path),
            same_repository_protocol(log + more, source_cwd, path),
            more,
        ),
{
    steady_text(log, more, GitContext::Source, source_cwd, common_args());
    if let Step::Done(expected, log) = text_protocol(
        log,
        GitContext::Source,
        source_cwd,
        common_args(),
    ) {
        steady_canonicalize(log, more, encode_utf8(expected));
        if let Step::Done(expected, log) = canonicalize_protocol(log, encode_utf8(expected)) {
            steady_text(log, more, GitContext::Destination, path, common_args());
            if let Step::Done(actual, log) = text_protocol(
                log,
                GitContext::Destination,
                path,
                common_args(),
            ) {
                steady_canonicalize(log, more, encode_utf8(actual));
            }
        }
    }
}

pub broadcast proof fn steady_validate(log: Log, more: Log, source_cwd: Seq<u8>, path: Seq<u8>)
    ensures
        extends(
            validate_protocol(log, source_cwd, path),
            #[trigger] validate_protocol(log + more, source_cwd, path),
            more,
        ),
{
    steady_text(log, more, GitContext::Destination, path, toplevel_args());
    if let Step::Done(top, log) = text_protocol(
        log,
        GitContext::Destination,
        path,
        toplevel_args(),
    ) {
        steady_canonicalize(log, more, encode_utf8(top));
        if let Step::Done(top, log) = canonicalize_protocol(log, encode_utf8(top)) {
            steady_canonicalize(log, more, path);
            if let Step::Done(here, log) = canonicalize_protocol(log, path) {
                steady_same_repository(log, more, source_cwd, path);
            }
        }
    }
}

pub broadcast proof fn steady_inventory(log: Log, more: Log, cwd: Seq<u8>)
    ensures
        extends(
            inventory_protocol(log, cwd),
            #[trigger] inventory_protocol(log + more, cwd),
            more,
        ),
{
    broadcast use steady_run;

}

} // verus!
