//! Creating a worktree: the branch, the place, the environment, and the way back
//! where something fails.

use vstd::prelude::*;

use vstd::slice::slice_to_vec;
use vstd::utf8::encode_utf8;

use crate::encoding::{bytes_of, lossy, read_lossy};
use crate::errors::{system, system_failure};
use crate::git;
use crate::git::{optional_protocol, text_protocol};
use crate::naming;
use crate::naming::{absolute_protocol, parent_protocol};
use crate::paths;
use crate::paths::join_path;
use crate::session::{
    ask_metadata, ask_unit, context, fails, follows, lemma_bytes, metadata_reply, stop, stop_system,
    unit_reply, ErrorKind, FileKind, GitContext, IoError, Log, Metadata, Request, RequestView,
    Session, Step, Stop,
};
use crate::text;
use crate::text::{begins, cat, cat3, decimal, decimal_text, text_lines, without_prefix};
use crate::worktrees;
use crate::worktrees::{git_dir_args, git_dir_question, source_protocol};

verus! {

broadcast use lemma_bytes;

/// How a worktree is to be created.
#[derive(Debug)]
pub struct NewOptions {
    pub branch: Option<String>,
    pub base: Option<String>,
    pub path: Option<Vec<u8>>,
    pub dirty: bool,
    pub exclude: Vec<String>,
    pub no_clone: bool,
    pub json: bool,
}

/// What [`NewOptions`] say.
#[verifier::ext_equal]
pub struct NewOptionsView {
    pub branch: Option<Seq<char>>,
    pub base: Option<Seq<char>>,
    pub path: Option<Seq<u8>>,
    pub dirty: bool,
    pub exclude: Seq<Seq<char>>,
    pub no_clone: bool,
    pub json: bool,
}

impl DeepView for NewOptions {
    type V = NewOptionsView;

    open spec fn deep_view(&self) -> NewOptionsView {
        NewOptionsView {
            branch: self.branch.deep_view(),
            base: self.base.deep_view(),
            path: self.path.deep_view(),
            dirty: self.dirty,
            exclude: self.exclude.deep_view(),
            no_clone: self.no_clone,
            json: self.json,
        }
    }
}

/// Whether there is an entry at a path, also where it is a dangling link.
pub open spec fn exists_protocol(log: Log, path: Seq<u8>) -> Step<bool> {
    metadata_reply(log, RequestView::SymlinkMetadata(path)).bind(
        |outcome: Result<Metadata, IoError>, log: Log|
            match outcome {
                Ok(_) => Step::Done(true, log),
                Err(error) => if error.kind == ErrorKind::NotFound {
                    Step::Done(false, log)
                } else {
                    Step::Fail(system(error), log)
                },
            },
    )
}

/// Whether there is an entry at a path, also where it is a dangling link.
pub fn entry_exists<'a>(io: &mut Session<'a>, path: &[u8]) -> (r: Result<bool, Stop>)
    ensures
        follows(r, final(io)@, exists_protocol(old(io)@, path@)),
{
    match ask_metadata(io, Request::SymlinkMetadata(slice_to_vec(path)))? {
        Ok(_) => Ok(true),
        Err(error) => if error.kind == ErrorKind::NotFound {
            Ok(false)
        } else {
            Err(stop_system(error))
        },
    }
}

pub open spec fn commit_args(reference: Seq<char>) -> Seq<Seq<char>> {
    seq!["rev-parse"@, "--verify"@, "--end-of-options"@, reference + "^{commit}"@]
}

pub open spec fn commit_protocol(log: Log, cwd: Seq<u8>, reference: Seq<char>) -> Step<Seq<char>> {
    text_protocol(log, GitContext::Source, cwd, commit_args(reference))
}

/// The commit that a reference leads to.
pub fn commit<'a>(io: &mut Session<'a>, cwd: &[u8], reference: &str) -> (r: Result<String, Stop>)
    ensures
        follows(r, final(io)@, commit_protocol(old(io)@, cwd@, reference@)),
{
    let question = vec![
        "rev-parse".to_owned(),
        "--verify".to_owned(),
        "--end-of-options".to_owned(),
        cat(reference, "^{commit}"),
    ];
    assert(question.deep_view() =~= commit_args(reference@));
    git::text(io, cwd, &question)
}

pub open spec fn branch_args(branch: Seq<char>) -> Seq<Seq<char>> {
    seq!["show-ref"@, "--verify"@, "--quiet"@, "refs/heads/"@ + branch]
}

pub open spec fn branch_exists_protocol(log: Log, cwd: Seq<u8>, branch: Seq<char>) -> Step<bool> {
    optional_protocol(log, cwd, branch_args(branch)).bind(
        |found: Option<Seq<char>>, log: Log| Step::Done(found is Some, log),
    )
}

/// Whether there is a local branch of a name.
pub fn branch_exists<'a>(io: &mut Session<'a>, cwd: &[u8], branch: &str) -> (r: Result<bool, Stop>)
    ensures
        follows(r, final(io)@, branch_exists_protocol(old(io)@, cwd@, branch@)),
{
    let question = vec![
        "show-ref".to_owned(),
        "--verify".to_owned(),
        "--quiet".to_owned(),
        cat("refs/heads/", branch),
    ];
    assert(question.deep_view() =~= branch_args(branch@));
    let found = git::optional(io, cwd, &question)?;
    Ok(found.is_some())
}

/// Whether two directories lie on one volume. Where one cannot be looked at, they
/// do not.
pub open spec fn same_volume_protocol(log: Log, a: Seq<u8>, b: Seq<u8>) -> Step<bool> {
    metadata_reply(log, RequestView::Metadata(a)).bind(
        |first: Result<Metadata, IoError>, log: Log|
            match first {
                Err(_) => Step::Done(false, log),
                Ok(first) => metadata_reply(log, RequestView::Metadata(b)).bind(
                    |second: Result<Metadata, IoError>, log: Log|
                        Step::Done(
                            second matches Ok(second) && first.device == second.device,
                            log,
                        ),
                ),
            },
    )
}

pub open spec fn probe_directory_protocol(log: Log, cwd: Seq<u8>, src: Seq<u8>) -> Step<Seq<u8>> {
    text_protocol(log, GitContext::Source, cwd, git_dir_args()).bind(
        |git_dir: Seq<char>, log: Log|
            same_volume_protocol(log, encode_utf8(git_dir), src).bind(
                |same: bool, log: Log|
                    Step::Done(
                        if same {
                            encode_utf8(git_dir)
                        } else {
                            src
                        },
                        log,
                    ),
            ),
    )
}

/// Where the trial file is made. The administrative directory keeps it away from
/// whatever watches the checkout, but stands for the checkout only where both lie
/// on one volume.
pub fn probe_directory<'a>(io: &mut Session<'a>, cwd: &[u8], src: &[u8]) -> (r: Result<Vec<u8>, Stop>)
    ensures
        follows(r, final(io)@, probe_directory_protocol(old(io)@, cwd@, src@)),
{
    let git_dir = git::text(io, cwd, &git_dir_question())?;
    let git_dir = bytes_of(git_dir.as_str());
    if let Ok(first) = ask_metadata(io, Request::Metadata(slice_to_vec(git_dir.as_slice())))? {
        if let Ok(second) = ask_metadata(io, Request::Metadata(slice_to_vec(src)))? {
            if first.device == second.device {
                return Ok(git_dir);
            }
        }
    }
    Ok(slice_to_vec(src))
}

/// A directory that was created to hold a place, and what tells it from another of
/// the same name.
#[derive(Debug)]
pub struct Reservation {
    pub path: Vec<u8>,
    pub device: u64,
    pub inode: u64,
}

/// What a [`Reservation`] says.
#[verifier::ext_equal]
pub struct ReservationView {
    pub path: Seq<u8>,
    pub device: u64,
    pub inode: u64,
}

impl DeepView for Reservation {
    type V = ReservationView;

    open spec fn deep_view(&self) -> ReservationView {
        ReservationView { path: self.path@, device: self.device, inode: self.inode }
    }
}

pub open spec fn reserve_protocol(log: Log, path: Seq<u8>) -> Step<ReservationView> {
    unit_reply(log, RequestView::CreateDirectory(path)).bind(
        |created: Result<(), IoError>, log: Log|
            match created {
                Err(error) => Step::Fail(system(error).wrap("reserving destination"@), log),
                Ok(_) => metadata_reply(log, RequestView::SymlinkMetadata(path)).bind(
                    |outcome: Result<Metadata, IoError>, log: Log|
                        match outcome {
                            Err(error) => Step::Fail(system(error), log),
                            Ok(metadata) => Step::Done(
                                ReservationView {
                                    path,
                                    device: metadata.device,
                                    inode: metadata.inode,
                                },
                                log,
                            ),
                        },
                ),
            },
    )
}

pub open spec fn still_owns_protocol(log: Log, reservation: ReservationView) -> Step<bool> {
    metadata_reply(log, RequestView::SymlinkMetadata(reservation.path)).bind(
        |outcome: Result<Metadata, IoError>, log: Log|
            match outcome {
                Ok(metadata) => Step::Done(
                    metadata.kind == FileKind::Directory && metadata.device == reservation.device
                        && metadata.inode == reservation.inode,
                    log,
                ),
                Err(error) => if error.kind == ErrorKind::NotFound {
                    Step::Done(false, log)
                } else {
                    Step::Fail(system(error), log)
                },
            },
    )
}

pub open spec fn contains_metadata_protocol(log: Log, reservation: ReservationView) -> Step<bool> {
    still_owns_protocol(log, reservation).bind(
        |owned: bool, log: Log|
            if !owned {
                Step::Done(false, log)
            } else {
                metadata_reply(
                    log,
                    RequestView::SymlinkMetadata(
                        join_path(reservation.path, encode_utf8(".git"@)),
                    ),
                ).bind(
                    |outcome: Result<Metadata, IoError>, log: Log|
                        match outcome {
                            Ok(metadata) => Step::Done(metadata.kind == FileKind::File, log),
                            Err(error) => if error.kind == ErrorKind::NotFound {
                                Step::Done(false, log)
                            } else {
                                Step::Fail(system(error), log)
                            },
                        },
                )
            },
    )
}

impl Reservation {
    /// Creates the directory that holds the place.
    pub fn create<'a>(io: &mut Session<'a>, path: &[u8]) -> (r: Result<Reservation, Stop>)
        ensures
            follows(r, final(io)@, reserve_protocol(old(io)@, path@)),
    {
        if let Err(error) = ask_unit(io, Request::CreateDirectory(slice_to_vec(path)))? {
            return Err(Stop::Fail(system_failure(error).context("reserving destination")));
        }
        match ask_metadata(io, Request::SymlinkMetadata(slice_to_vec(path)))? {
            Err(error) => Err(stop_system(error)),
            Ok(metadata) => Ok(
                Reservation {
                    path: slice_to_vec(path),
                    device: metadata.device,
                    inode: metadata.inode,
                },
            ),
        }
    }

    /// Whether the directory is still the one that was created.
    pub fn still_owns_directory<'a>(&self, io: &mut Session<'a>) -> (r: Result<bool, Stop>)
        ensures
            follows(r, final(io)@, still_owns_protocol(old(io)@, self.deep_view())),
    {
        match ask_metadata(io, Request::SymlinkMetadata(slice_to_vec(self.path.as_slice())))? {
            Ok(metadata) => Ok(
                metadata.kind == FileKind::Directory && metadata.device == self.device
                    && metadata.inode == self.inode,
            ),
            Err(error) => if error.kind == ErrorKind::NotFound {
                Ok(false)
            } else {
                Err(stop_system(error))
            },
        }
    }

    /// Whether Git made a worktree of the directory that was created.
    pub fn contains_worktree_metadata<'a>(&self, io: &mut Session<'a>) -> (r: Result<bool, Stop>)
        ensures
            follows(r, final(io)@, contains_metadata_protocol(old(io)@, self.deep_view())),
    {
        if !self.still_owns_directory(io)? {
            return Ok(false);
        }
        let administration = paths::join(self.path.as_slice(), bytes_of(".git").as_slice());
        match ask_metadata(io, Request::SymlinkMetadata(administration))? {
            Ok(metadata) => Ok(metadata.kind == FileKind::File),
            Err(error) => if error.kind == ErrorKind::NotFound {
                Ok(false)
            } else {
                Err(stop_system(error))
            },
        }
    }
}

/// Where the program was started, and what follows from that alone.
#[derive(Debug)]
pub struct Site {
    pub cwd: Vec<u8>,
    pub src: Vec<u8>,
    pub head: String,
    pub parent: Option<Vec<u8>>,
}

/// What a [`Site`] says.
#[verifier::ext_equal]
pub struct SiteView {
    pub cwd: Seq<u8>,
    pub src: Seq<u8>,
    pub head: Seq<char>,
    pub parent: Option<Seq<u8>>,
}

impl DeepView for Site {
    type V = SiteView;

    open spec fn deep_view(&self) -> SiteView {
        SiteView {
            cwd: self.cwd@,
            src: self.src@,
            head: self.head@,
            parent: self.parent.deep_view(),
        }
    }
}

pub open spec fn site_protocol(log: Log, cwd: Seq<u8>, path: Option<Seq<u8>>) -> Step<SiteView> {
    source_protocol(log, cwd).bind(
        |src: Seq<u8>, log: Log|
            commit_protocol(log, cwd, "HEAD"@).context("creation requires a committed HEAD"@).bind(
                |head: Seq<char>, log: Log|
                    match path {
                        Some(_) => Step::Done(SiteView { cwd, src, head, parent: None }, log),
                        None => parent_protocol(log, cwd).bind(
                            |parent: Seq<u8>, log: Log|
                                Step::Done(
                                    SiteView { cwd, src, head, parent: Some(parent) },
                                    log,
                                ),
                        ),
                    },
            ),
    )
}

pub(crate) fn survey_site<'a>(io: &mut Session<'a>, cwd: &[u8], path: &Option<Vec<u8>>) -> (r: Result<Site, Stop>)
    ensures
        follows(r, final(io)@, site_protocol(old(io)@, cwd@, path.deep_view())),
{
    let src = worktrees::source(io, cwd)?;
    let head = context(commit(io, cwd, "HEAD"), "creation requires a committed HEAD")?;
    let parent = match path {
        Some(_) => None,
        None => Some(naming::parent(io, cwd)?),
    };
    Ok(Site { cwd: slice_to_vec(cwd), src, head, parent })
}

/// Where the worktree of a branch goes: to the path that was given, else below the
/// directory for the repository.
pub open spec fn place_of(site: SiteView, path: Option<Seq<u8>>, branch: Seq<char>) -> Seq<u8> {
    match path {
        Some(path) => path,
        None => match site.parent {
            Some(parent) => join_path(parent, encode_utf8(branch)),
            None => encode_utf8(branch),
        },
    }
}

pub open spec fn destination_protocol(
    log: Log,
    site: SiteView,
    path: Option<Seq<u8>>,
    branch: Seq<char>,
) -> Step<Seq<u8>> {
    absolute_protocol(log, place_of(site, path, branch), site.cwd)
}

pub(crate) fn destination_for<'a>(io: &mut Session<'a>, site: &Site, path: &Option<Vec<u8>>, branch: &str) -> (r:
    Result<Vec<u8>, Stop>)
    ensures
        follows(
            r,
            final(io)@,
            destination_protocol(old(io)@, site.deep_view(), path.deep_view(), branch@),
        ),
{
    match path {
        Some(path) => naming::absolute(io, path.as_slice(), site.cwd.as_slice()),
        None => {
            let name = bytes_of(branch);
            let place = match &site.parent {
                Some(parent) => paths::join(parent.as_slice(), name.as_slice()),
                None => name,
            };
            naming::absolute(io, place.as_slice(), site.cwd.as_slice())
        },
    }
}

/// Whether a new branch would stand in the way of an existing one: it has the same
/// name, or one of the two names is a directory of the other.
pub open spec fn collides(name: Seq<char>, branch: Seq<char>) -> bool {
    branch == name || begins(branch, name + "/"@) || begins(name, branch + "/"@)
}

/// Whether a new branch would stand in the way of one of the existing ones.
pub open spec fn collides_any(name: Seq<char>, branches: Seq<Seq<char>>) -> bool {
    exists|k: int| 0 <= k < branches.len() && collides(name, #[trigger] branches[k])
}

fn has_collision(name: &str, branches: &Vec<String>) -> (r: bool)
    ensures
        r == collides_any(name@, branches.deep_view()),
{
    let ghost all = branches.deep_view();
    let prefix = cat(name, "/");
    let mut i: usize = 0;
    while i < branches.len()
        invariant
            i <= branches@.len(),
            all == branches.deep_view(),
            prefix@ == name@ + "/"@,
            forall|k: int| 0 <= k < i ==> !collides(name@, #[trigger] all[k]),
        decreases branches@.len() - i,
    {
        let branch = branches[i].as_str();
        assert(all[i as int] == branch@);
        if text::same(branch, name) || text::starts_with(branch, prefix.as_str())
            || text::starts_with(name, cat(branch, "/").as_str()) {
            assert(collides(name@, all[i as int]));
            return true;
        }
        i = i + 1;
    }
    false
}

/// The name that is tried.
pub open spec fn numbered(stem: Seq<char>, n: int) -> Seq<char> {
    stem + "-"@ + decimal_text(n)
}

/// The first name from the `n`th on that collides with no branch and whose place is
/// free.
pub open spec fn auto_name_protocol(
    log: Log,
    site: SiteView,
    path: Option<Seq<u8>>,
    stem: Seq<char>,
    branches: Seq<Seq<char>>,
    n: u64,
) -> Step<Seq<char>>
    decreases u64::MAX - n,
{
    let name = numbered(stem, n as int);
    match name_free_protocol(log, site, path, name, branches) {
        Step::Ask(request) => Step::Ask(request),
        Step::Stray => Step::Stray,
        Step::Fail(error, log) => Step::Fail(error, log),
        Step::Done(free, log) => if free {
            Step::Done(name, log)
        } else if n == u64::MAX {
            fails("automatic branch names exhausted"@, log)
        } else {
            auto_name_protocol(log, site, path, stem, branches, (n + 1) as u64)
        },
    }
}

/// Whether a name collides with no branch and its place is free. A path that was
/// given is the place of every name, so there an entry ends the search.
pub open spec fn name_free_protocol(
    log: Log,
    site: SiteView,
    path: Option<Seq<u8>>,
    name: Seq<char>,
    branches: Seq<Seq<char>>,
) -> Step<bool> {
    destination_protocol(log, site, path, name).bind(
        |destination: Seq<u8>, log: Log|
            (if path is Some {
                exists_protocol(log, destination)
            } else {
                Step::Done(false, log)
            }).bind(
                |taken: bool, log: Log|
                    if taken {
                        fails("destination already exists: "@ + lossy(destination), log)
                    } else if collides_any(name, branches) {
                        Step::Done(false, log)
                    } else {
                        exists_protocol(log, destination).bind(
                            |taken: bool, log: Log| Step::Done(!taken, log),
                        )
                    },
            ),
    )
}

fn name_free<'a>(
    io: &mut Session<'a>,
    site: &Site,
    path: &Option<Vec<u8>>,
    name: &str,
    branches: &Vec<String>,
) -> (r: Result<bool, Stop>)
    ensures
        follows(
            r,
            final(io)@,
            name_free_protocol(
                old(io)@,
                site.deep_view(),
                path.deep_view(),
                name@,
                branches.deep_view(),
            ),
        ),
{
    let destination = destination_for(io, site, path, name)?;
    if path.is_some() {
        if entry_exists(io, destination.as_slice())? {
            let message = cat(
                "destination already exists: ",
                read_lossy(destination.as_slice()).as_str(),
            );
            return Err(stop(message.as_str()));
        }
    }
    if has_collision(name, branches) {
        return Ok(false);
    }
    let taken = entry_exists(io, destination.as_slice())?;
    Ok(!taken)
}

fn auto_name<'a>(
    io: &mut Session<'a>,
    site: &Site,
    path: &Option<Vec<u8>>,
    stem: &str,
    branches: &Vec<String>,
) -> (r: Result<String, Stop>)
    ensures
        follows(
            r,
            final(io)@,
            auto_name_protocol(
                old(io)@,
                site.deep_view(),
                path.deep_view(),
                stem@,
                branches.deep_view(),
                1,
            ),
        ),
{
    let mut n: u64 = 1;
    let ghost start = io@;
    loop
        invariant
            n >= 1,
            start == old(io)@,
            auto_name_protocol(
                start,
                site.deep_view(),
                path.deep_view(),
                stem@,
                branches.deep_view(),
                1,
            ) == auto_name_protocol(
                io@,
                site.deep_view(),
                path.deep_view(),
                stem@,
                branches.deep_view(),
                n,
            ),
        decreases u64::MAX - n,
    {
        let name = cat3(stem, "-", decimal(n).as_str());
        assert(name@ == numbered(stem@, n as int));
        if name_free(io, site, path, name.as_str(), branches)? {
            return Ok(name);
        }
        if n == u64::MAX {
            return Err(stop("automatic branch names exhausted"));
        }
        n = n + 1;
    }
}

pub open spec fn head_args() -> Seq<Seq<char>> {
    seq!["symbolic-ref"@, "--quiet"@, "HEAD"@]
}

pub open spec fn branches_args() -> Seq<Seq<char>> {
    seq!["for-each-ref"@, "--format=%(refname:strip=2)"@, "refs/heads/"@]
}

/// What the names of branches begin with: the branch that the program was started
/// on.
pub open spec fn stem_protocol(log: Log, cwd: Seq<u8>) -> Step<Seq<char>> {
    optional_protocol(log, cwd, head_args()).bind(
        |reference: Option<Seq<char>>, log: Log|
            match reference {
                None => Step::Done("detached"@, log),
                Some(reference) => match without_prefix(reference, "refs/heads/"@) {
                    Some(branch) => Step::Done(branch, log),
                    None => fails("HEAD does not name a local branch"@, log),
                },
            },
    )
}

fn stem<'a>(io: &mut Session<'a>, cwd: &[u8]) -> (r: Result<String, Stop>)
    ensures
        follows(r, final(io)@, stem_protocol(old(io)@, cwd@)),
{
    let question = vec!["symbolic-ref".to_owned(), "--quiet".to_owned(), "HEAD".to_owned()];
    assert(question.deep_view() =~= head_args());
    match git::optional(io, cwd, &question)? {
        None => Ok("detached".to_owned()),
        Some(reference) => match text::strip_prefix(reference.as_str(), "refs/heads/") {
            Some(branch) => Ok(branch),
            None => Err(stop("HEAD does not name a local branch")),
        },
    }
}

/// The branch of the worktree: the one that was given, else the first free one that
/// continues the current branch.
pub open spec fn branch_protocol(
    log: Log,
    site: SiteView,
    path: Option<Seq<u8>>,
    branch: Option<Seq<char>>,
) -> Step<Seq<char>> {
    match branch {
        Some(branch) => Step::Done(branch, log),
        None => stem_protocol(log, site.cwd).bind(
            |stem: Seq<char>, log: Log|
                text_protocol(log, GitContext::Source, site.cwd, branches_args()).bind(
                    |branches: Seq<char>, log: Log|
                        auto_name_protocol(log, site, path, stem, text_lines(branches), 1),
                ),
        ),
    }
}

pub(crate) fn choose_branch<'a>(
    io: &mut Session<'a>,
    site: &Site,
    path: &Option<Vec<u8>>,
    branch: &Option<String>,
) -> (r: Result<String, Stop>)
    ensures
        follows(
            r,
            final(io)@,
            branch_protocol(old(io)@, site.deep_view(), path.deep_view(), branch.deep_view()),
        ),
{
    if let Some(branch) = branch {
        return Ok(branch.clone());
    }
    let stem = stem(io, site.cwd.as_slice())?;
    let question = vec![
        "for-each-ref".to_owned(),
        "--format=%(refname:strip=2)".to_owned(),
        "refs/heads/".to_owned(),
    ];
    assert(question.deep_view() =~= branches_args());
    let branches = git::text(io, site.cwd.as_slice(), &question)?;
    let branches = text::lines(branches.as_str());
    auto_name(io, site, path, stem.as_str(), &branches)
}

} // verus!
