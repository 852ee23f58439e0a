//! What creating a worktree keeps to.

use vstd::prelude::*;

use vstd::utf8::encode_utf8;

use crate::clone::{populate_protocol, probe_protocol, EntryView, Stats};
use crate::construct::{
    abandon_protocol, build_protocol, checked_out_args, cleanup_protocol, existing_start_protocol,
    failure_text, fill_protocol, literal, operation_protocol, reset_args, retained_protocol,
    start_protocol, target_protocol, OperationView, StartView,
};
use crate::create::{
    auto_name_protocol, collides_any, commit_protocol, exists_protocol, name_free_protocol,
    numbered, reserve_protocol, still_owns_protocol, NewOptionsView, ReservationView, SiteView,
};
use crate::encoding::lossy;
use crate::errors::{system, ErrorView};
use crate::git::{path_text, repository_environment, run_protocol, text_protocol};
use crate::laws::effects::reads;
use crate::native::clone_file_protocol;
use crate::paths::{join_path, within};
use crate::session::{
    scratch_reply, unit_reply, GitContext, IoError, Log, Reply, RequestView, Scratch, Step,
};
use crate::text::{begins, decimal_text, law_decimal_injective};
use crate::worktrees::remove_args;

verus! {

/// Working changes are carried over only onto the commit that they were made on.
pub proof fn law_dirty_starts_at_head(
    log: Log,
    site: SiteView,
    branch: Seq<char>,
    base: Option<Seq<char>>,
)
    ensures
        start_protocol(log, site, branch, base, true) matches Step::Done(start, _) ==> start.commit
            == site.head,
{
}

/// A branch that exists is checked out where it stands: a base is accepted only
/// where it leads to the same commit.
pub proof fn law_existing_branch_stays(
    log: Log,
    cwd: Seq<u8>,
    branch: Seq<char>,
    base: Option<Seq<char>>,
)
    ensures
        existing_start_protocol(log, cwd, branch, base) matches Step::Done(start, _) ==> {
            &&& start.existing
            &&& start.point == branch
            &&& commit_protocol(log, cwd, "refs/heads/"@ + branch) matches Step::Done(tip, rest)
                && start.commit == tip && (base matches Some(base) ==> (commit_protocol(
                rest,
                cwd,
                base,
            ) matches Step::Done(named, _) && named == tip))
        },
{
}

/// A worktree gets a literal branch name, never an option or a reference to an
/// earlier checkout.
pub proof fn law_branch_names_are_literal(
    log: Log,
    site: SiteView,
    branch: Seq<char>,
    base: Option<Seq<char>>,
    dirty: bool,
)
    ensures
        start_protocol(log, site, branch, base, dirty) is Done ==> literal(branch),
{
}

/// Without a path of its own, a worktree goes below the directory for the
/// repository, also where a symbolic link would lead out of it.
pub proof fn law_target_stays_below_the_parent(
    log: Log,
    site: SiteView,
    path: Option<Seq<u8>>,
    branch: Seq<char>,
)
    ensures
        target_protocol(log, site, path, branch) matches Step::Done(dst, _) ==> (
        site.parent matches Some(parent) ==> within(dst, parent)),
{
}

/// Two different numbers never give the same branch name.
pub proof fn law_numbered_names_differ(stem: Seq<char>, m: int, n: int)
    requires
        0 <= m,
        0 <= n,
        numbered(stem, m) == numbered(stem, n),
    ensures
        m == n,
{
    let head = stem + "-"@;
    let a = numbered(stem, m);
    let b = numbered(stem, n);
    assert(a =~= head + decimal_text(m));
    assert(b =~= head + decimal_text(n));
    assert(a.skip(head.len() as int) =~= decimal_text(m));
    assert(b.skip(head.len() as int) =~= decimal_text(n));
    law_decimal_injective(m, n);
}

/// What is left of the log once the names from the `k`th to the one before the
/// `n`th were tried, if none of them was free.
pub open spec fn all_taken(
    log: Log,
    site: SiteView,
    path: Option<Seq<u8>>,
    stem: Seq<char>,
    branches: Seq<Seq<char>>,
    k: int,
    n: int,
) -> Option<Log>
    decreases n - k,
{
    if k >= n {
        Some(log)
    } else {
        match name_free_protocol(log, site, path, numbered(stem, k), branches) {
            Step::Done(free, rest) => if free {
                None
            } else {
                all_taken(rest, site, path, stem, branches, k + 1, n)
            },
            _ => None,
        }
    }
}

/// Whether the `n`th name is the first that is free, from the `k`th on.
pub open spec fn first_free(
    log: Log,
    site: SiteView,
    path: Option<Seq<u8>>,
    stem: Seq<char>,
    branches: Seq<Seq<char>>,
    k: int,
    n: int,
    rest: Log,
) -> bool {
    &&& k <= n
    &&& all_taken(log, site, path, stem, branches, k, n) matches Some(middle)
        && name_free_protocol(middle, site, path, numbered(stem, n), branches) == Step::<bool>::Done(
        true,
        rest,
    )
}

proof fn lemma_auto_name(
    log: Log,
    site: SiteView,
    path: Option<Seq<u8>>,
    stem: Seq<char>,
    branches: Seq<Seq<char>>,
    k: u64,
) -> (n: int)
    ensures
        auto_name_protocol(log, site, path, stem, branches, k) matches Step::Done(name, rest) ==> {
            &&& name == numbered(stem, n)
            &&& !collides_any(name, branches)
            &&& first_free(log, site, path, stem, branches, k as int, n, rest)
        },
    decreases u64::MAX - k,
{
    let name = numbered(stem, k as int);
    match name_free_protocol(log, site, path, name, branches) {
        Step::Done(free, rest) => {
            if free || k == u64::MAX {
                k as int
            } else {
                let n = lemma_auto_name(rest, site, path, stem, branches, (k + 1) as u64);
                n
            }
        },
        _ => k as int,
    }
}

/// A branch name that was not given is the first of the numbered ones that stands
/// in the way of no branch and whose place is free: those before it were tried, and
/// were not.
pub proof fn law_automatic_name_is_the_first_free_one(
    log: Log,
    site: SiteView,
    path: Option<Seq<u8>>,
    stem: Seq<char>,
    branches: Seq<Seq<char>>,
)
    ensures
        auto_name_protocol(log, site, path, stem, branches, 1) matches Step::Done(name, rest) ==> {
            &&& !collides_any(name, branches)
            &&& exists|n: int|
                name == numbered(stem, n) && #[trigger] first_free(
                    log,
                    site,
                    path,
                    stem,
                    branches,
                    1,
                    n,
                    rest,
                )
        },
{
    let n = lemma_auto_name(log, site, path, stem, branches, 1);
    if let Step::Done(name, rest) = auto_name_protocol(log, site, path, stem, branches, 1) {
        assert(first_free(log, site, path, stem, branches, 1, n, rest));
    }
}

/// A place that someone else took in the meantime is left alone: where it cannot be
/// reserved, nothing else is done, and nothing is cleaned up.
pub proof fn law_occupied_place_is_left_alone(
    log: Log,
    site: SiteView,
    o: NewOptionsView,
    branch: Seq<char>,
    start: StartView,
    dst: Seq<u8>,
    entries: Seq<EntryView>,
    error: IoError,
)
    requires
        log.len() > 0,
        log[0] == Reply::Unit(Err(error)),
    ensures
        build_protocol(log, site, o, branch, start, dst, entries) == Step::<Seq<char>>::Fail(
            system(error).wrap("reserving destination"@),
            log.drop_first(),
        ),
{
}

/// A worktree counts as created only where it stands at the commit that is
/// reported.
pub proof fn law_created_at_the_reported_commit(
    log: Log,
    site: SiteView,
    o: NewOptionsView,
    start: StartView,
    dst: Seq<u8>,
    entries: Seq<EntryView>,
)
    ensures
        fill_protocol(log, site, o, start, dst, entries) is Done ==> (text_protocol(
            log,
            GitContext::Destination,
            dst,
            checked_out_args(),
        ) matches Step::Done(found, _) && found == start.commit),
{
}

/// Git is run in the new worktree without the repository selection of the caller,
/// whatever it is asked there.
pub proof fn law_new_worktree_is_isolated(
    log: Log,
    site: SiteView,
    o: NewOptionsView,
    start: StartView,
    dst: Seq<u8>,
    entries: Seq<EntryView>,
)
    ensures
        fill_protocol(log, site, o, start, dst, entries) matches Step::Ask(
            RequestView::Git { context, cwd, .. },
        ) ==> context == GitContext::Destination && cwd == dst,
{
}

/// A command in a new worktree inherits none of the variables that select a
/// repository, and one that adds or removes a worktree never the caller's index.
pub proof fn law_selection_is_withheld()
    ensures
        GitContext::Destination.withheld() == repository_environment(),
        GitContext::Destination.withheld().contains("GIT_INDEX_FILE"@),
        GitContext::WorktreeMutation.withheld().contains("GIT_INDEX_FILE"@),
        GitContext::Source.withheld().len() == 0,
{
    assert(repository_environment()[6] == "GIT_INDEX_FILE"@);
    assert(GitContext::WorktreeMutation.withheld()[0] == "GIT_INDEX_FILE"@);
}

/// Cleaning up changes something only where the place still is the directory that
/// was reserved. It has Git remove a worktree by force only where one was added
/// there, and otherwise removes only an empty directory, at that place alone.
pub proof fn law_cleanup_removes_only_its_own(
    log: Log,
    cwd: Seq<u8>,
    dst: Seq<u8>,
    reservation: ReservationView,
    owned: bool,
)
    ensures
        cleanup_protocol(log, cwd, dst, reservation, owned) matches Step::Ask(request) ==> reads(
            request,
        ) || {
            &&& exists_protocol(log, dst) matches Step::Done(there, rest) && there && (
            still_owns_protocol(rest, reservation) matches Step::Done(same, _) && same)
            &&& if owned {
                path_text(dst) matches Ok(path) && request == (RequestView::Git {
                    context: GitContext::WorktreeMutation,
                    cwd,
                    args: remove_args(path, true),
                })
            } else {
                request == RequestView::RemoveDirectory(dst)
            }
        },
{
}

/// A creation that is given up always ends as a failure, which begins with what
/// went wrong first, whatever the cleaning up came to.
pub proof fn law_first_failure_is_reported(
    log: Log,
    cwd: Seq<u8>,
    branch: Seq<char>,
    existing: bool,
    dst: Seq<u8>,
    reservation: ReservationView,
    owned: bool,
    error: ErrorView,
)
    ensures
        match abandon_protocol(log, cwd, branch, existing, dst, reservation, owned, error) {
            Step::Done(_, _) => false,
            Step::Fail(failed, _) => !failed.usage && begins(
                failed.headline(),
                "creation failed: "@ + error.message(),
            ),
            _ => true,
        },
{
    let first = "creation failed: "@ + error.message();
    if let Step::Fail(failed, _) = abandon_protocol(
        log,
        cwd,
        branch,
        existing,
        dst,
        reservation,
        owned,
        error,
    ) {
        if let Step::Done(cleanup, log) = cleanup_protocol(
            log,
            cwd,
            dst,
            reservation,
            owned,
        ).attempt() {
            if let Step::Done(retained, log) = retained_protocol(log, cwd, branch, existing) {
                let text = failure_text(error, retained, branch, cleanup, dst);
                assert(failed.headline() == text);
                assert(text.take(first.len() as int) =~= first);
            }
        }
    }
}

/// A creation that fails once its place is reserved has always been cleaned up, or
/// says that this failed.
pub proof fn law_failed_creation_is_cleaned_up(
    log: Log,
    site: SiteView,
    o: NewOptionsView,
    branch: Seq<char>,
    start: StartView,
    dst: Seq<u8>,
    entries: Seq<EntryView>,
    reservation: ReservationView,
    reserved: Log,
    operation: OperationView,
    operated: Log,
    error: ErrorView,
)
    requires
        reserve_protocol(log, dst) == Step::Done(reservation, reserved),
        operation_protocol(reserved, site, o, branch, start, dst, entries, reservation)
            == Step::Done(operation, operated),
        operation.outcome == Err::<Stats, ErrorView>(error),
        build_protocol(log, site, o, branch, start, dst, entries) is Fail,
    ensures
        match cleanup_protocol(operated, site.cwd, dst, reservation, operation.owned) {
            Step::Done(_, _) => true,
            Step::Fail(cleanup, _) => build_protocol(
                log,
                site,
                o,
                branch,
                start,
                dst,
                entries,
            ) matches Step::Fail(failed, _) && ends(
                failed.headline(),
                "; cleanup failed for "@ + lossy(dst) + ": "@ + cleanup.message(),
            ),
            _ => false,
        },
{
    let step = cleanup_protocol(operated, site.cwd, dst, reservation, operation.owned);
    let whole = build_protocol(log, site, o, branch, start, dst, entries);
    if let Step::Fail(cleanup, rest) = step {
        let note = "; cleanup failed for "@ + lossy(dst) + ": "@ + cleanup.message();
        if let Step::Done(retained, _) = retained_protocol(
            rest,
            site.cwd,
            branch,
            start.existing,
        ) {
            let text = failure_text(error, retained, branch, Err(cleanup), dst);
            if let Step::Fail(failed, _) = whole {
                assert(failed.headline() == text);
                assert(text.skip(text.len() - note.len()) =~= note);
            }
        }
    }
}

/// Whether a text ends with another.
pub open spec fn ends(text: Seq<char>, suffix: Seq<char>) -> bool {
    text.len() >= suffix.len() && text.skip(text.len() - suffix.len()) == suffix
}

/// Working changes are carried over without what was staged: once everything is in
/// place, the index of the new worktree is reset to its commit.
pub proof fn law_dirty_resets_the_index(
    log: Log,
    site: SiteView,
    o: NewOptionsView,
    start: StartView,
    dst: Seq<u8>,
    entries: Seq<EntryView>,
)
    requires
        o.dirty,
        !o.no_clone,
    ensures
        fill_protocol(log, site, o, start, dst, entries) is Done ==> exists|populated: Log|
            {
                &&& populate_protocol(
                    text_protocol(
                        log,
                        GitContext::Destination,
                        dst,
                        checked_out_args(),
                    )->Done_1,
                    site.src,
                    dst,
                    entries,
                ) matches Step::Done(_, rest) && rest == populated
                &&& #[trigger] run_protocol(
                    populated,
                    GitContext::Destination,
                    dst,
                    reset_args(start.commit),
                ) is Done
            },
{
    if fill_protocol(log, site, o, start, dst, entries) is Done {
        let checked = text_protocol(log, GitContext::Destination, dst, checked_out_args())->Done_1;
        let populated = populate_protocol(checked, site.src, dst, entries)->Done_1;
        assert(run_protocol(
            populated,
            GitContext::Destination,
            dst,
            reset_args(start.commit),
        ) is Done);
    }
}

/// Trying out whether files can be cloned leaves nothing behind: once there is a
/// trial file, the trial ends only after it was dropped.
pub proof fn law_trials_are_cleaned_up(
    log: Log,
    source_directory: Seq<u8>,
    destination_parent: Seq<u8>,
    scratch: Scratch,
    made: Log,
)
    requires
        scratch_reply(log, source_directory, destination_parent) == Step::Done(
            Ok::<Scratch, IoError>(scratch),
            made,
        ),
        probe_protocol(log, source_directory, destination_parent) is Done || probe_protocol(
            log,
            source_directory,
            destination_parent,
        ) is Fail,
    ensures
        clone_file_protocol(
            made,
            scratch.file@,
            join_path(scratch.directory@, encode_utf8("clone"@)),
        ) matches Step::Done(_, tried) && unit_reply(tried, RequestView::DropScratch) is Done,
{
}

/// Git is run in a new worktree without any of the variables that would select another
/// repository, index or set of objects.
pub proof fn law_what_is_withheld_in_a_new_worktree()
    ensures
        GitContext::Destination.withheld() == seq![
            "GIT_ALTERNATE_OBJECT_DIRECTORIES"@,
            "GIT_OBJECT_DIRECTORY"@,
            "GIT_DIR"@,
            "GIT_WORK_TREE"@,
            "GIT_IMPLICIT_WORK_TREE"@,
            "GIT_GRAFT_FILE"@,
            "GIT_INDEX_FILE"@,
            "GIT_NO_REPLACE_OBJECTS"@,
            "GIT_REPLACE_REF_BASE"@,
            "GIT_PREFIX"@,
            "GIT_INTERNAL_SUPER_PREFIX"@,
            "GIT_SHALLOW_FILE"@,
            "GIT_COMMON_DIR"@,
            "GIT_NAMESPACE"@,
        ],
        GitContext::WorktreeMutation.withheld() == seq!["GIT_INDEX_FILE"@],
{
}

} // verus!
