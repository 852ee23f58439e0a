//! Creating a worktree once its branch is known: what it starts from, what is
//! carried over, and the way back where something fails.

use vstd::prelude::*;

use vstd::slice::slice_to_vec;

use crate::clone;
use crate::clone::{
    exclusion_paths, plan_protocol, populate_protocol, probe_protocol, Entry, EntryView, Stats,
};
use crate::create::{
    branch_exists, branch_exists_protocol, branch_protocol, choose_branch, commit, commit_protocol,
    contains_metadata_protocol, destination_for, destination_protocol, entry_exists, exists_protocol,
    probe_directory, probe_directory_protocol, reserve_protocol, site_protocol, still_owns_protocol,
    survey_site, NewOptions, NewOptionsView, Reservation, ReservationView, Site, SiteView,
};
use crate::encoding::{lossy, read_lossy};
use crate::errors::{misuse, system, system_failure, usage, Error, ErrorView};
use crate::git;
use crate::git::{
    inventory_protocol, optional_protocol, path_str, path_text, run_protocol, text_protocol, Worktree,
    WorktreeView,
};
use crate::json;
use crate::json::json_creation;
use crate::paths;
use crate::paths::{parent_of, same_path, within};
use crate::sequences::split;
use crate::session::{
    ask_unit, attempt, blame, context, fails, follows, lemma_bytes, settled, stop, stop_system,
    unit_reply, GitContext, IoError, Log, Request, RequestView, Session, Step, Stop,
};
use crate::text;
use crate::text::{begins, cat, cat3, copied, holds_word};
use crate::worktrees::{formatted_path, path_answer, remove_args, remove_request};

verus! {

broadcast use lemma_bytes;

pub open spec fn format_args(branch: Seq<char>) -> Seq<Seq<char>> {
    seq!["check-ref-format"@, "--branch"@, branch]
}

/// Whether a name is a literal branch name: Git would also take an option or an
/// earlier checkout for one.
pub open spec fn literal(branch: Seq<char>) -> bool {
    !begins(branch, "-"@) && !holds_word(branch, "@{"@)
}

/// Whether the branch exists, once its name is known to be one.
pub open spec fn check_branch_protocol(log: Log, cwd: Seq<u8>, branch: Seq<char>) -> Step<bool> {
    run_protocol(log, GitContext::Source, cwd, format_args(branch)).blame("invalid branch: "@).bind(
        |_out: Seq<u8>, log: Log|
            if !literal(branch) {
                Step::Fail(misuse("branch must be a literal local branch name"@), log)
            } else {
                branch_exists_protocol(log, cwd, branch)
            },
    )
}

fn check_branch<'a>(io: &mut Session<'a>, cwd: &[u8], branch: &str) -> (r: Result<bool, Stop>)
    ensures
        follows(r, final(io)@, check_branch_protocol(old(io)@, cwd@, branch@)),
{
    let question = vec!["check-ref-format".to_owned(), "--branch".to_owned(), branch.to_owned()];
    assert(question.deep_view() =~= format_args(branch@));
    blame(git::run(io, cwd, &question), "invalid branch: ")?;
    if text::starts_with(branch, "-") || text::contains(branch, "@{") {
        return Err(Stop::Fail(usage("branch must be a literal local branch name")));
    }
    branch_exists(io, cwd, branch)
}

/// What the worktree starts from.
#[derive(Debug)]
pub struct Start {
    /// Whether the branch was there before.
    pub existing: bool,
    /// The commit.
    pub commit: String,
    /// What Git is told. It is told the starting point as it was written, so that a
    /// branch of a remote is followed.
    pub point: String,
}

/// What a [`Start`] says.
#[verifier::ext_equal]
pub struct StartView {
    pub existing: bool,
    pub commit: Seq<char>,
    pub point: Seq<char>,
}

impl DeepView for Start {
    type V = StartView;

    open spec fn deep_view(&self) -> StartView {
        StartView { existing: self.existing, commit: self.commit@, point: self.point@ }
    }
}

pub open spec fn moved_branch(branch: Seq<char>) -> Seq<char> {
    "--base requires a new branch, and branch "@ + branch
        + " already exists at a different commit; inspect it or choose another branch name"@
}

/// The start on a branch that exists. A failed creation keeps its branch, so the
/// same base is accepted again; a branch is never moved.
pub open spec fn existing_start_protocol(
    log: Log,
    cwd: Seq<u8>,
    branch: Seq<char>,
    base: Option<Seq<char>>,
) -> Step<StartView> {
    commit_protocol(log, cwd, "refs/heads/"@ + branch).bind(
        |tip: Seq<char>, log: Log|
            {
                let start = StartView { existing: true, commit: tip, point: branch };
                match base {
                    None => Step::Done(start, log),
                    Some(base) => commit_protocol(log, cwd, base).bind(
                        |named: Seq<char>, log: Log|
                            if named != tip {
                                Step::Fail(misuse(moved_branch(branch)), log)
                            } else {
                                Step::Done(start, log)
                            },
                    ),
                }
            },
    )
}

pub open spec fn start_protocol(
    log: Log,
    site: SiteView,
    branch: Seq<char>,
    base: Option<Seq<char>>,
    dirty: bool,
) -> Step<StartView> {
    check_branch_protocol(log, site.cwd, branch).bind(
        |existing: bool, log: Log|
            (if existing {
                existing_start_protocol(log, site.cwd, branch, base)
            } else {
                match base {
                    Some(base) => commit_protocol(log, site.cwd, base).bind(
                        |named: Seq<char>, log: Log|
                            Step::Done(
                                StartView { existing: false, commit: named, point: base },
                                log,
                            ),
                    ),
                    None => Step::Done(
                        StartView { existing: false, commit: site.head, point: site.head },
                        log,
                    ),
                }
            }).bind(
                |start: StartView, log: Log|
                    if dirty && start.commit != site.head {
                        Step::Fail(
                            misuse("--dirty requires the source HEAD as starting commit"@),
                            log,
                        )
                    } else {
                        Step::Done(start, log)
                    },
            ),
    )
}

fn existing_start<'a>(io: &mut Session<'a>, cwd: &[u8], branch: &str, base: &Option<String>) -> (r: Result<
    Start,
    Stop,
>)
    ensures
        follows(
            r,
            final(io)@,
            existing_start_protocol(old(io)@, cwd@, branch@, base.deep_view()),
        ),
{
    let tip = commit(io, cwd, cat("refs/heads/", branch).as_str())?;
    if let Some(base) = base {
        let named = commit(io, cwd, base.as_str())?;
        if !text::same(named.as_str(), tip.as_str()) {
            let message = cat3(
                "--base requires a new branch, and branch ",
                branch,
                " already exists at a different commit; inspect it or choose another branch name",
            );
            return Err(Stop::Fail(usage(message.as_str())));
        }
    }
    Ok(Start { existing: true, commit: tip, point: branch.to_owned() })
}

fn choose_start<'a>(
    io: &mut Session<'a>,
    site: &Site,
    branch: &str,
    base: &Option<String>,
    dirty: bool,
) -> (r: Result<Start, Stop>)
    ensures
        follows(
            r,
            final(io)@,
            start_protocol(old(io)@, site.deep_view(), branch@, base.deep_view(), dirty),
        ),
{
    let cwd = site.cwd.as_slice();
    let start = if check_branch(io, cwd, branch)? {
        existing_start(io, cwd, branch, base)?
    } else {
        match base {
            Some(base) => {
                let named = commit(io, cwd, base.as_str())?;
                Start { existing: false, commit: named, point: base.clone() }
            },
            None => Start { existing: false, commit: site.head.clone(), point: site.head.clone() },
        }
    };
    if dirty && !text::same(start.commit.as_str(), site.head.as_str()) {
        return Err(
            Stop::Fail(usage("--dirty requires the source HEAD as starting commit")),
        );
    }
    Ok(start)
}

/// The place of the worktree, once it is known to be free and, where it was not
/// given, to lie below the directory for the repository.
pub open spec fn target_protocol(
    log: Log,
    site: SiteView,
    path: Option<Seq<u8>>,
    branch: Seq<char>,
) -> Step<Seq<u8>> {
    destination_protocol(log, site, path, branch).bind(
        |dst: Seq<u8>, log: Log|
            if site.parent matches Some(parent) && !within(dst, parent) {
                fails("destination escapes configured worktree parent"@, log)
            } else {
                exists_protocol(log, dst).bind(
                    |taken: bool, log: Log|
                        if taken {
                            fails("destination already exists: "@ + lossy(dst), log)
                        } else {
                            Step::Done(dst, log)
                        },
                )
            },
    )
}

fn choose_target<'a>(io: &mut Session<'a>, site: &Site, path: &Option<Vec<u8>>, branch: &str) -> (r:
    Result<Vec<u8>, Stop>)
    ensures
        follows(
            r,
            final(io)@,
            target_protocol(old(io)@, site.deep_view(), path.deep_view(), branch@),
        ),
{
    let dst = destination_for(io, site, path, branch)?;
    if let Some(parent) = &site.parent {
        if !paths::starts_with(dst.as_slice(), parent.as_slice()) {
            return Err(stop("destination escapes configured worktree parent"));
        }
    }
    if entry_exists(io, dst.as_slice())? {
        let message = cat("destination already exists: ", read_lossy(dst.as_slice()).as_str());
        return Err(stop(message.as_str()));
    }
    Ok(dst)
}

pub open spec fn exclude_args() -> Seq<Seq<char>> {
    seq!["config"@, "--null"@, "--get-all"@, "gwt.exclude"@]
}

/// The configured exclusions: what stands between zero characters.
pub open spec fn configured_exclusions(value: Option<Seq<char>>) -> Seq<Seq<char>> {
    match value {
        None => Seq::empty(),
        Some(value) => split(value, '\0').filter(|s: Seq<char>| s.len() > 0),
    }
}

/// The exclusions that are configured, and those that were given.
pub open spec fn excludes_protocol(log: Log, cwd: Seq<u8>, given: Seq<Seq<char>>) -> Step<
    Seq<Seq<u8>>,
> {
    optional_protocol(log, cwd, exclude_args()).bind(
        |value: Option<Seq<char>>, log: Log|
            match exclusion_paths(configured_exclusions(value) + given) {
                Ok(paths) => Step::Done(paths, log),
                Err(error) => Step::Fail(misuse(error.headline()), log),
            },
    )
}

fn filled_pieces(value: &str) -> (r: Vec<String>)
    ensures
        r.deep_view() == split(value@, '\0').filter(|s: Seq<char>| s.len() > 0),
{
    let pieces = text::split_text(value, '\0');
    let ghost all = pieces.deep_view();
    let ghost f = |s: Seq<char>| s.len() > 0;
    let mut out: Vec<String> = Vec::new();
    let mut i: usize = 0;
    proof {
        reveal(Seq::filter);
        assert(all.take(0).filter(f) =~= Seq::<Seq<char>>::empty());
        assert(out.deep_view() =~= Seq::<Seq<char>>::empty());
    }
    while i < pieces.len()
        invariant
            i <= pieces@.len(),
            all == pieces.deep_view(),
            f == (|s: Seq<char>| s.len() > 0),
            out.deep_view() == all.take(i as int).filter(f),
        decreases pieces@.len() - i,
    {
        let ghost before = out.deep_view();
        proof {
            reveal(Seq::filter);
            assert(all.take(i + 1).drop_last() =~= all.take(i as int));
            assert(all.take(i + 1).last() == pieces@[i as int]@);
        }
        if pieces[i].as_str().unicode_len() > 0 {
            out.push(pieces[i].clone());
            assert(out.deep_view() =~= before.push(all[i as int]));
        }
        i = i + 1;
    }
    assert(all.take(i as int) =~= all);
    out
}

fn excludes<'a>(io: &mut Session<'a>, cwd: &[u8], given: &Vec<String>) -> (r: Result<
    Vec<Vec<u8>>,
    Stop,
>)
    ensures
        follows(r, final(io)@, excludes_protocol(old(io)@, cwd@, given.deep_view())),
{
    let question = vec![
        "config".to_owned(),
        "--null".to_owned(),
        "--get-all".to_owned(),
        "gwt.exclude".to_owned(),
    ];
    assert(question.deep_view() =~= exclude_args());
    let value = git::optional(io, cwd, &question)?;
    let mut all = match &value {
        Some(value) => filled_pieces(value.as_str()),
        None => Vec::new(),
    };
    assert(all.deep_view() =~= configured_exclusions(value.deep_view()));
    let ghost configured = all.deep_view();
    let mut more = copied(given);
    all.append(&mut more);
    assert(all.deep_view() =~= configured + given.deep_view());
    match clone::exclusions(all) {
        Ok(paths) => Ok(paths),
        Err(error) => Err(Stop::Fail(usage(error.headline().as_str()))),
    }
}

/// The worktrees inside the source, but for the source itself.
pub open spec fn nested_paths(trees: Seq<WorktreeView>, src: Seq<u8>) -> Seq<Seq<u8>> {
    trees.map_values(|tree: WorktreeView| tree.path).filter(
        |path: Seq<u8>| !same_path(path, src) && within(path, src),
    )
}

fn nested_in(trees: &Vec<Worktree>, src: &[u8]) -> (r: Vec<Vec<u8>>)
    ensures
        r.deep_view() == nested_paths(trees.deep_view(), src@),
{
    let ghost all = trees.deep_view().map_values(|tree: WorktreeView| tree.path);
    let ghost f = |path: Seq<u8>| !same_path(path, src@) && within(path, src@);
    let mut out: Vec<Vec<u8>> = Vec::new();
    let mut i: usize = 0;
    proof {
        reveal(Seq::filter);
        assert(all.take(0).filter(f) =~= Seq::<Seq<u8>>::empty());
        assert(out.deep_view() =~= Seq::<Seq<u8>>::empty());
    }
    while i < trees.len()
        invariant
            i <= trees@.len(),
            all == trees.deep_view().map_values(|tree: WorktreeView| tree.path),
            f == (|path: Seq<u8>| !same_path(path, src@) && within(path, src@)),
            out.deep_view() == all.take(i as int).filter(f),
        decreases trees@.len() - i,
    {
        let ghost before = out.deep_view();
        let path = trees[i].path.as_slice();
        proof {
            reveal(Seq::filter);
            assert(trees.deep_view()[i as int] == trees@[i as int].deep_view());
            assert(all[i as int] == path@);
            assert(all.take(i + 1).drop_last() =~= all.take(i as int));
            assert(all.take(i + 1).last() == path@);
        }
        if !paths::same(path, src) && paths::starts_with(path, src) {
            out.push(slice_to_vec(path));
            assert(out.deep_view() =~= before.push(path@));
        }
        i = i + 1;
    }
    assert(all.take(i as int) =~= all);
    out
}

/// What is carried over.
pub open spec fn selection_protocol(log: Log, site: SiteView, o: NewOptionsView, dst: Seq<u8>) -> Step<
    Seq<EntryView>,
> {
    excludes_protocol(log, site.cwd, o.exclude).bind(
        |exclude: Seq<Seq<u8>>, log: Log|
            inventory_protocol(log, site.cwd).bind(
                |trees: Seq<WorktreeView>, log: Log|
                    if o.no_clone {
                        Step::Done(Seq::empty(), log)
                    } else {
                        plan_protocol(
                            log,
                            site.cwd,
                            site.src,
                            o.dirty,
                            exclude,
                            nested_paths(trees, site.src),
                            dst,
                        )
                    },
            ),
    )
}

fn choose_entries<'a>(io: &mut Session<'a>, site: &Site, o: &NewOptions, dst: &[u8]) -> (r: Result<
    Vec<Entry>,
    Stop,
>)
    ensures
        follows(
            r,
            final(io)@,
            selection_protocol(old(io)@, site.deep_view(), o.deep_view(), dst@),
        ),
{
    let cwd = site.cwd.as_slice();
    let exclude = excludes(io, cwd, &o.exclude)?;
    let trees = git::inventory(io, cwd)?;
    if o.no_clone {
        let none: Vec<Entry> = Vec::new();
        assert(none.deep_view() =~= Seq::<EntryView>::empty());
        return Ok(none);
    }
    let nested = nested_in(&trees, site.src.as_slice());
    clone::plan(io, cwd, site.src.as_slice(), o.dirty, &exclude, &nested, dst)
}

/// Creates the directory above the place, and tries whether files can be cloned
/// into it.
pub open spec fn ground_protocol(log: Log, site: SiteView, no_clone: bool, dst: Seq<u8>) -> Step<()> {
    match parent_of(dst) {
        None => fails("destination needs a parent"@, log),
        Some(parent) => unit_reply(log, RequestView::CreateDirectories(parent)).bind(
            |created: Result<(), IoError>, log: Log|
                match created {
                    Err(error) => Step::Fail(system(error), log),
                    Ok(_) => if no_clone {
                        Step::Done((), log)
                    } else {
                        probe_directory_protocol(log, site.cwd, site.src).bind(
                            |directory: Seq<u8>, log: Log|
                                probe_protocol(log, directory, parent).context(
                                    "APFS cloning unavailable; use --no-clone for an ordinary worktree"@,
                                ),
                        )
                    },
                },
        ),
    }
}

fn prepare_ground<'a>(io: &mut Session<'a>, site: &Site, no_clone: bool, dst: &[u8]) -> (r: Result<
    (),
    Stop,
>)
    ensures
        follows(r, final(io)@, ground_protocol(old(io)@, site.deep_view(), no_clone, dst@)),
{
    match paths::parent(dst) {
        None => Err(stop("destination needs a parent")),
        Some(parent) => {
            if let Err(error) = ask_unit(
                io,
                Request::CreateDirectories(slice_to_vec(parent.as_slice())),
            )? {
                return Err(stop_system(error));
            }
            if no_clone {
                return Ok(());
            }
            let directory = probe_directory(io, site.cwd.as_slice(), site.src.as_slice())?;
            context(
                clone::probe(io, directory.as_slice(), parent.as_slice()),
                "APFS cloning unavailable; use --no-clone for an ordinary worktree",
            )
        },
    }
}

pub open spec fn add_args(
    dirty: bool,
    existing: bool,
    branch: Seq<char>,
    path: Seq<char>,
    point: Seq<char>,
) -> Seq<Seq<char>> {
    seq!["worktree"@, "add"@] + (if dirty {
        seq!["--no-checkout"@]
    } else {
        Seq::empty()
    }) + (if existing {
        Seq::empty()
    } else {
        seq!["-b"@, branch]
    }) + seq!["--"@, path, point]
}

fn add_request(dirty: bool, existing: bool, branch: &str, path: &str, point: &str) -> (r: Vec<String>)
    ensures
        r.deep_view() == add_args(dirty, existing, branch@, path@, point@),
{
    let mut r = vec!["worktree".to_owned(), "add".to_owned()];
    if dirty {
        r.push("--no-checkout".to_owned());
    }
    if !existing {
        r.push("-b".to_owned());
        r.push(branch.to_owned());
    }
    r.push("--".to_owned());
    r.push(path.to_owned());
    r.push(point.to_owned());
    assert(r.deep_view() =~= add_args(dirty, existing, branch@, path@, point@));
    r
}

pub open spec fn checked_out_args() -> Seq<Seq<char>> {
    seq!["rev-parse"@, "--verify"@, "HEAD"@]
}

pub open spec fn reset_args(commit: Seq<char>) -> Seq<Seq<char>> {
    seq!["reset"@, "--mixed"@, commit]
}

pub open spec fn moved_start(start: StartView, found: Seq<char>) -> Seq<char> {
    "start point "@ + start.point + " moved from "@ + start.commit + " to "@ + found
        + " during creation"@
}

/// Fills a worktree that Git has added. Git resolved the starting point itself: one
/// that moved since gives another commit than the one that is reported.
pub open spec fn fill_protocol(
    log: Log,
    site: SiteView,
    o: NewOptionsView,
    start: StartView,
    dst: Seq<u8>,
    entries: Seq<EntryView>,
) -> Step<Stats> {
    text_protocol(log, GitContext::Destination, dst, checked_out_args()).bind(
        |found: Seq<char>, log: Log|
            if found != start.commit {
                fails(moved_start(start, found), log)
            } else {
                (if o.no_clone {
                    Step::Done(Stats { files: 0, logical_bytes: 0, symlinks: 0 }, log)
                } else {
                    populate_protocol(log, site.src, dst, entries)
                }).bind(
                    |stats: Stats, log: Log|
                        if o.dirty {
                            run_protocol(
                                log,
                                GitContext::Destination,
                                dst,
                                reset_args(start.commit),
                            ).bind(|_out: Seq<u8>, log: Log| Step::Done(stats, log))
                        } else {
                            Step::Done(stats, log)
                        },
                )
            },
    )
}

fn fill<'a>(
    io: &mut Session<'a>,
    site: &Site,
    o: &NewOptions,
    start: &Start,
    dst: &[u8],
    entries: &Vec<Entry>,
) -> (r: Result<Stats, Stop>)
    ensures
        follows(
            r,
            final(io)@,
            fill_protocol(
                old(io)@,
                site.deep_view(),
                o.deep_view(),
                start.deep_view(),
                dst@,
                entries.deep_view(),
            ),
        ),
{
    let question = vec!["rev-parse".to_owned(), "--verify".to_owned(), "HEAD".to_owned()];
    assert(question.deep_view() =~= checked_out_args());
    let found = git::text_in_worktree(io, dst, &question)?;
    if !text::same(found.as_str(), start.commit.as_str()) {
        let mut message = "start point ".to_owned();
        message.append(start.point.as_str());
        message.append(" moved from ");
        message.append(start.commit.as_str());
        message.append(" to ");
        message.append(found.as_str());
        message.append(" during creation");
        return Err(stop(message.as_str()));
    }
    let stats = if o.no_clone {
        Stats::default()
    } else {
        clone::populate(io, site.src.as_slice(), dst, entries)?
    };
    if o.dirty {
        let request = vec!["reset".to_owned(), "--mixed".to_owned(), start.commit.clone()];
        assert(request.deep_view() =~= reset_args(start.commit@));
        git::run_in_worktree(io, dst, &request)?;
    }
    Ok(stats)
}

/// How adding and filling the worktree ended, and whether a worktree was added.
#[derive(Debug)]
pub struct Operation {
    pub owned: bool,
    pub outcome: Result<Stats, Error>,
}

/// What an [`Operation`] says.
pub struct OperationView {
    pub owned: bool,
    pub outcome: Result<Stats, ErrorView>,
}

impl DeepView for Operation {
    type V = OperationView;

    open spec fn deep_view(&self) -> OperationView {
        OperationView {
            owned: self.owned,
            outcome: match self.outcome {
                Ok(stats) => Ok(stats),
                Err(error) => Err(error.deep_view()),
            },
        }
    }
}

/// Who owns the place after Git failed to add the worktree. Git can register a
/// worktree before a hook fails; it is claimed only where it appeared inside the
/// directory that was reserved.
pub open spec fn refused_protocol(log: Log, reservation: ReservationView, error: ErrorView) -> Step<
    OperationView,
> {
    contains_metadata_protocol(log, reservation).attempt().bind(
        |inspected: Result<bool, ErrorView>, log: Log|
            Step::Done(
                match inspected {
                    Ok(owned) => OperationView { owned, outcome: Err(error) },
                    Err(inspection) => OperationView {
                        owned: false,
                        outcome: Err(
                            error.wrap(
                                "inspecting destination ownership failed: "@ + inspection.message(),
                            ),
                        ),
                    },
                },
                log,
            ),
    )
}

/// Adds the worktree through Git and fills it.
pub open spec fn operation_protocol(
    log: Log,
    site: SiteView,
    o: NewOptionsView,
    branch: Seq<char>,
    start: StartView,
    dst: Seq<u8>,
    entries: Seq<EntryView>,
    reservation: ReservationView,
) -> Step<OperationView> {
    match path_text(dst) {
        Err(error) => Step::Done(OperationView { owned: false, outcome: Err(error) }, log),
        Ok(path) => run_protocol(
            log,
            GitContext::WorktreeMutation,
            site.cwd,
            add_args(o.dirty, start.existing, branch, path, start.point),
        ).attempt().bind(
            |added: Result<Seq<u8>, ErrorView>, log: Log|
                match added {
                    Err(error) => refused_protocol(log, reservation, error),
                    Ok(_) => fill_protocol(log, site, o, start, dst, entries).attempt().bind(
                        |outcome: Result<Stats, ErrorView>, log: Log|
                            Step::Done(OperationView { owned: true, outcome }, log),
                    ),
                },
        ),
    }
}

fn operate<'a>(
    io: &mut Session<'a>,
    site: &Site,
    o: &NewOptions,
    branch: &str,
    start: &Start,
    dst: &[u8],
    entries: &Vec<Entry>,
    reservation: &Reservation,
) -> (r: Result<Operation, Stop>)
    ensures
        follows(
            r,
            final(io)@,
            operation_protocol(
                old(io)@,
                site.deep_view(),
                o.deep_view(),
                branch@,
                start.deep_view(),
                dst@,
                entries.deep_view(),
                reservation.deep_view(),
            ),
        ),
{
    let path = match path_str(dst) {
        Err(error) => {
            return Ok(Operation { owned: false, outcome: Err(error) });
        },
        Ok(path) => path,
    };
    let request = add_request(
        o.dirty,
        start.existing,
        branch,
        path.as_str(),
        start.point.as_str(),
    );
    match attempt(git::run_worktree_mutation(io, site.cwd.as_slice(), &request))? {
        Err(error) => match attempt(reservation.contains_worktree_metadata(io))? {
            Ok(owned) => Ok(Operation { owned, outcome: Err(error) }),
            Err(inspection) => {
                let note = cat(
                    "inspecting destination ownership failed: ",
                    inspection.message().as_str(),
                );
                Ok(Operation { owned: false, outcome: Err(error.context(note.as_str())) })
            },
        },
        Ok(_) => {
            let outcome = attempt(fill(io, site, o, start, dst, entries))?;
            Ok(Operation { owned: true, outcome })
        },
    }
}

/// Removes what a failed creation left at its place, if that is still what was
/// created there.
pub open spec fn cleanup_protocol(
    log: Log,
    cwd: Seq<u8>,
    dst: Seq<u8>,
    reservation: ReservationView,
    owned: bool,
) -> Step<()> {
    exists_protocol(log, dst).bind(
        |there: bool, log: Log|
            if !there {
                Step::Done((), log)
            } else {
                still_owns_protocol(log, reservation).bind(
                    |same: bool, log: Log|
                        if !same {
                            fails("destination ownership changed; refusing cleanup"@, log)
                        } else if owned {
                            match path_text(dst) {
                                Err(error) => Step::Fail(error, log),
                                Ok(path) => run_protocol(
                                    log,
                                    GitContext::WorktreeMutation,
                                    cwd,
                                    remove_args(path, true),
                                ).bind(|_out: Seq<u8>, log: Log| Step::Done((), log)),
                            }
                        } else {
                            unit_reply(log, RequestView::RemoveDirectory(dst)).bind(
                                |removed: Result<(), IoError>, log: Log|
                                    match removed {
                                        Ok(_) => Step::Done((), log),
                                        Err(error) => Step::Fail(
                                            system(error).wrap("removing reserved directory"@),
                                            log,
                                        ),
                                    },
                            )
                        },
                )
            },
    )
}

fn clean_up<'a>(
    io: &mut Session<'a>,
    cwd: &[u8],
    dst: &[u8],
    reservation: &Reservation,
    owned: bool,
) -> (r: Result<(), Stop>)
    ensures
        follows(
            r,
            final(io)@,
            cleanup_protocol(old(io)@, cwd@, dst@, reservation.deep_view(), owned),
        ),
{
    if !entry_exists(io, dst)? {
        return Ok(());
    }
    if !reservation.still_owns_directory(io)? {
        return Err(stop("destination ownership changed; refusing cleanup"));
    }
    if owned {
        match path_str(dst) {
            Err(error) => Err(Stop::Fail(error)),
            Ok(path) => {
                let request = remove_request(path.as_str(), true);
                git::run_worktree_mutation(io, cwd, &request)?;
                Ok(())
            },
        }
    } else {
        match ask_unit(io, Request::RemoveDirectory(slice_to_vec(dst)))? {
            Ok(_) => Ok(()),
            Err(error) => Err(
                Stop::Fail(system_failure(error).context("removing reserved directory")),
            ),
        }
    }
}

/// Whether the branch was created and is there.
pub open spec fn retained_protocol(log: Log, cwd: Seq<u8>, branch: Seq<char>, existing: bool) -> Step<
    bool,
> {
    if existing {
        Step::Done(false, log)
    } else {
        branch_exists_protocol(log, cwd, branch).attempt().bind(
            |found: Result<bool, ErrorView>, log: Log|
                Step::Done(found matches Ok(there) && there, log),
        )
    }
}

fn is_retained<'a>(io: &mut Session<'a>, cwd: &[u8], branch: &str, existing: bool) -> (r: Result<
    bool,
    Stop,
>)
    ensures
        follows(r, final(io)@, retained_protocol(old(io)@, cwd@, branch@, existing)),
{
    if existing {
        return Ok(false);
    }
    match attempt(branch_exists(io, cwd, branch))? {
        Ok(there) => Ok(there),
        Err(_) => Ok(false),
    }
}

/// What is said of a failed creation.
pub open spec fn failure_text(
    error: ErrorView,
    retained: bool,
    branch: Seq<char>,
    cleanup: Result<(), ErrorView>,
    dst: Seq<u8>,
) -> Seq<char> {
    let first = "creation failed: "@ + error.message() + (if retained {
        "; new branch "@ + branch + " retained"@
    } else {
        ""@
    });
    match cleanup {
        Ok(_) => first,
        Err(cleanup) => first + "; cleanup failed for "@ + lossy(dst) + ": "@ + cleanup.message(),
    }
}

/// Gives up a creation that failed.
pub open spec fn abandon_protocol(
    log: Log,
    cwd: Seq<u8>,
    branch: Seq<char>,
    existing: bool,
    dst: Seq<u8>,
    reservation: ReservationView,
    owned: bool,
    error: ErrorView,
) -> Step<Seq<char>> {
    cleanup_protocol(log, cwd, dst, reservation, owned).attempt().bind(
        |cleanup: Result<(), ErrorView>, log: Log|
            retained_protocol(log, cwd, branch, existing).bind(
                |retained: bool, log: Log|
                    fails(failure_text(error, retained, branch, cleanup, dst), log),
            ),
    )
}

fn abandon<'a>(
    io: &mut Session<'a>,
    cwd: &[u8],
    branch: &str,
    existing: bool,
    dst: &[u8],
    reservation: &Reservation,
    owned: bool,
    error: &Error,
) -> (r: Result<String, Stop>)
    ensures
        follows(
            r,
            final(io)@,
            abandon_protocol(
                old(io)@,
                cwd@,
                branch@,
                existing,
                dst@,
                reservation.deep_view(),
                owned,
                error.deep_view(),
            ),
        ),
{
    let cleanup = attempt(clean_up(io, cwd, dst, reservation, owned))?;
    let retained = is_retained(io, cwd, branch, existing)?;
    let note = if retained {
        cat3("; new branch ", branch, " retained")
    } else {
        "".to_owned()
    };
    let mut message = cat3("creation failed: ", error.message().as_str(), note.as_str());
    if let Err(cleanup) = &cleanup {
        message.append("; cleanup failed for ");
        message.append(read_lossy(dst).as_str());
        message.append(": ");
        message.append(cleanup.message().as_str());
    }
    Err(stop(message.as_str()))
}

/// How the environment was carried over.
pub open spec fn mode_text(o: NewOptionsView) -> Seq<char> {
    if o.no_clone {
        "none"@
    } else if o.dirty {
        "dirty"@
    } else {
        "ignored"@
    }
}

/// What is answered once the worktree is there.
pub open spec fn creation_answer(
    o: NewOptionsView,
    src: Seq<u8>,
    branch: Seq<char>,
    commit: Seq<char>,
    dst: Seq<u8>,
    stats: Stats,
) -> Result<Seq<char>, ErrorView> {
    if !o.json {
        path_answer(dst, false)
    } else {
        match (path_text(dst), path_text(src)) {
            (Err(error), _) => Err(error),
            (Ok(_), Err(error)) => Err(error),
            (Ok(path), Ok(source)) => Ok(
                json_creation(path, branch, commit, source, mode_text(o), stats) + "\n"@,
            ),
        }
    }
}

fn answer_creation(
    o: &NewOptions,
    src: &[u8],
    branch: &str,
    commit: &str,
    dst: &[u8],
    stats: Stats,
) -> (r: Result<String, Error>)
    ensures
        match creation_answer(o.deep_view(), src@, branch@, commit@, dst@, stats) {
            Ok(text) => r matches Ok(t) && t@ == text,
            Err(error) => r matches Err(e) && e.deep_view() == error,
        },
{
    if !o.json {
        return formatted_path(dst, false);
    }
    match path_str(dst) {
        Err(error) => Err(error),
        Ok(path) => match path_str(src) {
            Err(error) => Err(error),
            Ok(source) => {
                let mode = if o.no_clone {
                    "none"
                } else if o.dirty {
                    "dirty"
                } else {
                    "ignored"
                };
                let object = json::creation(
                    path.as_str(),
                    branch,
                    commit,
                    source.as_str(),
                    mode,
                    stats,
                );
                Ok(cat(object.as_str(), "\n"))
            },
        },
    }
}

/// Reserves the place, adds and fills the worktree, and gives it up again where
/// that fails.
pub open spec fn build_protocol(
    log: Log,
    site: SiteView,
    o: NewOptionsView,
    branch: Seq<char>,
    start: StartView,
    dst: Seq<u8>,
    entries: Seq<EntryView>,
) -> Step<Seq<char>> {
    reserve_protocol(log, dst).bind(
        |reservation: ReservationView, log: Log|
            operation_protocol(log, site, o, branch, start, dst, entries, reservation).bind(
                |operation: OperationView, log: Log|
                    match operation.outcome {
                        Ok(stats) => settled(
                            creation_answer(o, site.src, branch, start.commit, dst, stats),
                            log,
                        ),
                        Err(error) => abandon_protocol(
                            log,
                            site.cwd,
                            branch,
                            start.existing,
                            dst,
                            reservation,
                            operation.owned,
                            error,
                        ),
                    },
            ),
    )
}

fn build<'a>(
    io: &mut Session<'a>,
    site: &Site,
    o: &NewOptions,
    branch: &str,
    start: &Start,
    dst: &[u8],
    entries: &Vec<Entry>,
) -> (r: Result<String, Stop>)
    ensures
        follows(
            r,
            final(io)@,
            build_protocol(
                old(io)@,
                site.deep_view(),
                o.deep_view(),
                branch@,
                start.deep_view(),
                dst@,
                entries.deep_view(),
            ),
        ),
{
    let reservation = Reservation::create(io, dst)?;
    let operation = operate(io, site, o, branch, start, dst, entries, &reservation)?;
    match &operation.outcome {
        Ok(stats) => match answer_creation(
            o,
            site.src.as_slice(),
            branch,
            start.commit.as_str(),
            dst,
            *stats,
        ) {
            Ok(answer) => Ok(answer),
            Err(error) => Err(Stop::Fail(error)),
        },
        Err(error) => abandon(
            io,
            site.cwd.as_slice(),
            branch,
            start.existing,
            dst,
            &reservation,
            operation.owned,
            error,
        ),
    }
}

/// Creates a worktree at its place.
pub open spec fn furnish_protocol(
    log: Log,
    site: SiteView,
    o: NewOptionsView,
    branch: Seq<char>,
    start: StartView,
    dst: Seq<u8>,
) -> Step<Seq<char>> {
    selection_protocol(log, site, o, dst).bind(
        |entries: Seq<EntryView>, log: Log|
            ground_protocol(log, site, o.no_clone, dst).bind(
                |_ready: (), log: Log| build_protocol(log, site, o, branch, start, dst, entries),
            ),
    )
}

/// Creates the worktree of a branch.
pub open spec fn branch_off_protocol(
    log: Log,
    site: SiteView,
    o: NewOptionsView,
    branch: Seq<char>,
) -> Step<Seq<char>> {
    start_protocol(log, site, branch, o.base, o.dirty).bind(
        |start: StartView, log: Log|
            target_protocol(log, site, o.path, branch).bind(
                |dst: Seq<u8>, log: Log| furnish_protocol(log, site, o, branch, start, dst),
            ),
    )
}

pub open spec fn new_protocol(log: Log, cwd: Seq<u8>, o: NewOptionsView) -> Step<Seq<char>> {
    site_protocol(log, cwd, o.path).bind(
        |site: SiteView, log: Log|
            branch_protocol(log, site, o.path, o.branch).bind(
                |branch: Seq<char>, log: Log| branch_off_protocol(log, site, o, branch),
            ),
    )
}

fn branch_off<'a>(io: &mut Session<'a>, site: &Site, o: &NewOptions, branch: &str) -> (r: Result<
    String,
    Stop,
>)
    ensures
        follows(
            r,
            final(io)@,
            branch_off_protocol(old(io)@, site.deep_view(), o.deep_view(), branch@),
        ),
{
    let start = choose_start(io, site, branch, &o.base, o.dirty)?;
    let dst = choose_target(io, site, &o.path, branch)?;
    let entries = choose_entries(io, site, o, dst.as_slice())?;
    prepare_ground(io, site, o.no_clone, dst.as_slice())?;
    build(io, site, o, branch, &start, dst.as_slice(), &entries)
}

/// Creates a worktree; its path, or what is to be known of it.
pub fn new<'a>(io: &mut Session<'a>, cwd: &[u8], options: &NewOptions) -> (r: Result<String, Stop>)
    ensures
        follows(r, final(io)@, new_protocol(old(io)@, cwd@, options.deep_view())),
{
    let site = survey_site(io, cwd, &options.path)?;
    let branch = choose_branch(io, &site, &options.path, &options.branch)?;
    branch_off(io, &site, options, branch.as_str())
}

} // verus!
