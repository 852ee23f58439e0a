//! The course of building a worktree at its place, and of giving it up.

use vstd::prelude::*;

use vstd::utf8::{decode_utf8, encode_utf8, valid_utf8};

use crate::clone::{probe_protocol, EntryView, Stats};
use crate::construct::{
    abandon_protocol, add_args, build_protocol, checked_out_args, cleanup_protocol, creation_answer,
    fill_protocol, ground_protocol, operation_protocol, refused_protocol, reset_args,
    retained_protocol, OperationView, StartView,
};
use crate::create::{
    branch_args, probe_directory_protocol, reserve_protocol, still_owns_protocol, NewOptionsView,
    ReservationView, SiteView,
};
use crate::errors::ErrorView;
use crate::laws::commands::steady_probe_directory;
use crate::laws::course::{git, lacks, question};
use crate::laws::events::succeeded;
use crate::laws::furnishing::{heard, law_what_git_is_told_to_add, lemma_heard};
use crate::laws::selection::{law_lines_of_git_are_read, quiet, says};
use crate::paths::{join_path, parent_of};
use crate::session::{
    ErrorKind, FileKind, GitContext, Log, Metadata, Output, Reply, RequestView, Step,
};
use crate::worktrees::remove_args;

verus! {

/// The ground is ready once the directory above is there and a trial of cloning from the
/// right directory into it succeeded.
pub proof fn law_the_ground_is_tried(
    site: SiteView,
    dst: Seq<u8>,
    parent: Seq<u8>,
    created: Reply,
    found: Log,
    directory: Seq<u8>,
    tried: Log,
)
    requires
        parent_of(dst) == Some(parent),
        succeeded(created),
        probe_directory_protocol(found, site.cwd, site.src) == Step::Done(directory, Log::empty()),
    ensures
        match probe_protocol(tried, directory, parent) {
            Step::Ask(request) => ground_protocol(heard(created, found + tried), site, false, dst)
                == Step::<()>::Ask(request),
            Step::Stray => ground_protocol(
                heard(created, found + tried),
                site,
                false,
                dst,
            ) is Stray,
            Step::Fail(_, left) => ground_protocol(
                heard(created, found + tried),
                site,
                false,
                dst,
            ) matches Step::Fail(_, rest) && rest == left,
            Step::Done(_, left) => ground_protocol(
                heard(created, found + tried),
                site,
                false,
                dst,
            ) matches Step::Done(_, rest) && rest == left,
        },
{
    broadcast use lemma_heard;

    steady_probe_directory(found, tried, site.cwd, site.src);
    assert(Log::empty() + tried =~= tried);
}

/// A change that Git makes to the worktrees.
pub open spec fn change(cwd: Seq<u8>, args: Seq<Seq<char>>) -> RequestView {
    RequestView::Git { context: GitContext::WorktreeMutation, cwd, args }
}

/// A command that Git runs in the new worktree.
pub open spec fn inside(dst: Seq<u8>, args: Seq<Seq<char>>) -> RequestView {
    RequestView::Git { context: GitContext::Destination, cwd: dst, args }
}

/// What Git is told to add.
pub open spec fn addition(
    o: NewOptionsView,
    start: StartView,
    branch: Seq<char>,
    path: Seq<char>,
) -> Seq<Seq<char>> {
    if start.existing && o.dirty {
        seq!["worktree"@, "add"@, "--no-checkout"@, "--"@, path, start.point]
    } else if start.existing {
        seq!["worktree"@, "add"@, "--"@, path, start.point]
    } else if o.dirty {
        seq!["worktree"@, "add"@, "--no-checkout"@, "-b"@, branch, "--"@, path, start.point]
    } else {
        seq!["worktree"@, "add"@, "-b"@, branch, "--"@, path, start.point]
    }
}

/// A place is reserved before anything else: a directory is created there and remembered.
pub proof fn law_the_place_is_reserved(
    dst: Seq<u8>,
    created: Reply,
    metadata: Metadata,
    rest: Log,
)
    requires
        succeeded(created),
    ensures
        reserve_protocol(Log::empty(), dst) == Step::<ReservationView>::Ask(
            RequestView::CreateDirectory(dst),
        ),
        reserve_protocol(heard(created, Log::empty()), dst) == Step::<ReservationView>::Ask(
            RequestView::SymlinkMetadata(dst),
        ),
        reserve_protocol(heard(created, heard(Reply::Metadata(Ok(metadata)), rest)), dst)
            == Step::Done(
            ReservationView { path: dst, device: metadata.device, inode: metadata.inode },
            rest,
        ),
{
    broadcast use lemma_heard;

}

/// Once its place is reserved, the worktree is added by Git. What it is filled with depends
/// on Git having added it.
pub proof fn law_git_adds_the_worktree(
    site: SiteView,
    o: NewOptionsView,
    branch: Seq<char>,
    start: StartView,
    dst: Seq<u8>,
    entries: Seq<EntryView>,
    reservation: ReservationView,
    added: Output,
    rest: Log,
)
    requires
        valid_utf8(dst),
    ensures
        operation_protocol(Log::empty(), site, o, branch, start, dst, entries, reservation)
            == Step::<OperationView>::Ask(
            change(site.cwd, addition(o, start, branch, decode_utf8(dst))),
        ),
        quiet(added) ==> match fill_protocol(rest, site, o, start, dst, entries) {
            Step::Ask(request) => operation_protocol(
                heard(git(added), rest),
                site,
                o,
                branch,
                start,
                dst,
                entries,
                reservation,
            ) == Step::<OperationView>::Ask(request),
            Step::Done(stats, left) => operation_protocol(
                heard(git(added), rest),
                site,
                o,
                branch,
                start,
                dst,
                entries,
                reservation,
            ) matches Step::Done(operation, after) && operation.owned && operation.outcome == Ok::<
                Stats,
                ErrorView,
            >(stats) && after == left,
            Step::Fail(error, left) => operation_protocol(
                heard(git(added), rest),
                site,
                o,
                branch,
                start,
                dst,
                entries,
                reservation,
            ) matches Step::Done(operation, after) && operation.owned && operation.outcome
                == Err::<Stats, ErrorView>(error) && after == left,
            Step::Stray => true,
        },
        !added.success ==> (operation_protocol(
            heard(git(added), Log::empty()),
            site,
            o,
            branch,
            start,
            dst,
            entries,
            reservation,
        ) == Step::<OperationView>::Ask(RequestView::SymlinkMetadata(reservation.path))),
{
    broadcast use lemma_heard;

    let path = decode_utf8(dst);
    law_what_git_is_told_to_add(branch, path, start.point);
    let args = add_args(o.dirty, start.existing, branch, path, start.point);
    assert(args == addition(o, start, branch, path));
    law_lines_of_git_are_read(GitContext::WorktreeMutation, site.cwd, args, added, ""@, rest);
}

/// A worktree is filled once it stands at the commit that was found before: the entries of
/// the plan are carried over from the source. With changes, the index is reset to that
/// commit behind that.
#[verifier::rlimit(40)]
pub proof fn law_a_worktree_is_filled(
    site: SiteView,
    o: NewOptionsView,
    start: StartView,
    dst: Seq<u8>,
    entries: Seq<EntryView>,
    head: Output,
    found: Seq<char>,
    stats: Stats,
    reset: Output,
    rest: Log,
)
    requires
        says(head, found),
        quiet(reset),
    ensures
        fill_protocol(Log::empty(), site, o, start, dst, entries) == Step::<Stats>::Ask(
            inside(dst, seq!["rev-parse"@, "--verify"@, "HEAD"@]),
        ),
        found != start.commit ==> fill_protocol(
            heard(git(head), rest),
            site,
            o,
            start,
            dst,
            entries,
        ) is Fail,
        found == start.commit && !o.no_clone ==> {
            let populated = Reply::Populated(Ok(stats));
            &&& fill_protocol(heard(git(head), Log::empty()), site, o, start, dst, entries)
                == Step::<Stats>::Ask(
                RequestView::Populate { source: site.src, destination: dst, entries },
            )
            &&& !o.dirty ==> fill_protocol(
                heard(git(head), heard(populated, rest)),
                site,
                o,
                start,
                dst,
                entries,
            ) == Step::Done(stats, rest)
            &&& o.dirty ==> fill_protocol(
                heard(git(head), heard(populated, Log::empty())),
                site,
                o,
                start,
                dst,
                entries,
            ) == Step::<Stats>::Ask(inside(dst, seq!["reset"@, "--mixed"@, start.commit]))
            &&& o.dirty ==> fill_protocol(
                heard(git(head), heard(populated, heard(git(reset), rest))),
                site,
                o,
                start,
                dst,
                entries,
            ) == Step::Done(stats, rest)
        },
        found == start.commit && o.no_clone && !o.dirty ==> fill_protocol(
            heard(git(head), rest),
            site,
            o,
            start,
            dst,
            entries,
        ) == Step::Done(Stats { files: 0, logical_bytes: 0, symlinks: 0 }, rest),
        found == start.commit && o.no_clone && o.dirty ==> {
            &&& fill_protocol(heard(git(head), Log::empty()), site, o, start, dst, entries)
                == Step::<Stats>::Ask(inside(dst, seq!["reset"@, "--mixed"@, start.commit]))
            &&& fill_protocol(
                heard(git(head), heard(git(reset), rest)),
                site,
                o,
                start,
                dst,
                entries,
            ) == Step::Done(Stats { files: 0, logical_bytes: 0, symlinks: 0 }, rest)
        },
{
    broadcast use lemma_heard;

    let d = GitContext::Destination;
    let e = Log::empty();
    let populated = Reply::Populated(Ok(stats));
    assert(checked_out_args() =~= seq!["rev-parse"@, "--verify"@, "HEAD"@]);
    assert(reset_args(start.commit) =~= seq!["reset"@, "--mixed"@, start.commit]);
    law_lines_of_git_are_read(d, dst, checked_out_args(), head, found, e);
    law_lines_of_git_are_read(d, dst, checked_out_args(), head, found, rest);
    law_lines_of_git_are_read(d, dst, checked_out_args(), head, found, heard(git(reset), rest));
    law_lines_of_git_are_read(d, dst, checked_out_args(), head, found, heard(populated, e));
    law_lines_of_git_are_read(d, dst, checked_out_args(), head, found, heard(populated, rest));
    law_lines_of_git_are_read(
        d,
        dst,
        checked_out_args(),
        head,
        found,
        heard(populated, heard(git(reset), rest)),
    );
    law_lines_of_git_are_read(d, dst, reset_args(start.commit), reset, found, rest);
}

/// Whether an entry is the directory that was reserved.
pub open spec fn is_reserved(metadata: Metadata, reservation: ReservationView) -> bool {
    metadata.kind == FileKind::Directory && metadata.device == reservation.device && metadata.inode
        == reservation.inode
}

/// A place is still owned where the directory that was reserved is there.
pub proof fn law_what_is_still_owned(
    reservation: ReservationView,
    metadata: Metadata,
    missing: Reply,
    rest: Log,
)
    ensures
        still_owns_protocol(Log::empty(), reservation) == Step::<bool>::Ask(
            RequestView::SymlinkMetadata(reservation.path),
        ),
        still_owns_protocol(heard(Reply::Metadata(Ok(metadata)), rest), reservation) == Step::Done(
            is_reserved(metadata, reservation),
            rest,
        ),
        missing matches Reply::Metadata(Err(error)) ==> if error.kind == ErrorKind::NotFound {
            still_owns_protocol(heard(missing, rest), reservation) == Step::Done(false, rest)
        } else {
            still_owns_protocol(heard(missing, rest), reservation) is Fail
        },
{
    broadcast use lemma_heard;

}

/// Where Git failed to add a worktree, it is still taken for one where the directory that
/// was reserved holds a file `.git`. So it is removed through Git again.
pub proof fn law_when_a_refused_worktree_is_owned(
    reservation: ReservationView,
    error: ErrorView,
    metadata: Metadata,
    administration: Reply,
    rest: Log,
)
    requires
        administration is Metadata,
    ensures
        is_reserved(metadata, reservation) ==> refused_protocol(
            heard(Reply::Metadata(Ok(metadata)), Log::empty()),
            reservation,
            error,
        ) == Step::<OperationView>::Ask(
            RequestView::SymlinkMetadata(join_path(reservation.path, encode_utf8(".git"@))),
        ),
        is_reserved(metadata, reservation) ==> (refused_protocol(
            heard(Reply::Metadata(Ok(metadata)), heard(administration, rest)),
            reservation,
            error,
        ) matches Step::Done(operation, left) && left == rest && operation.outcome is Err
            && operation.owned == (administration matches Reply::Metadata(Ok(found)) && found.kind
            == FileKind::File)),
        !is_reserved(metadata, reservation) ==> (refused_protocol(
            heard(Reply::Metadata(Ok(metadata)), rest),
            reservation,
            error,
        ) matches Step::Done(operation, left) && left == rest && !operation.owned
            && operation.outcome == Err::<Stats, ErrorView>(error)),
{
    broadcast use lemma_heard;

    law_what_is_still_owned(
        reservation,
        metadata,
        administration,
        heard(administration, rest),
    );
}

/// What takes away what a failed creation left: a worktree goes through Git, by force, and
/// anything else only as an empty directory.
pub open spec fn takes_away(cwd: Seq<u8>, dst: Seq<u8>, owned: bool) -> RequestView {
    if owned {
        change(cwd, seq!["worktree"@, "remove"@, "--force"@, "--"@, decode_utf8(dst)])
    } else {
        RequestView::RemoveDirectory(dst)
    }
}

/// Whether that succeeded.
pub open spec fn taken_away(reply: Reply, owned: bool) -> bool {
    if owned {
        reply matches Reply::Git(Ok(out)) && quiet(out)
    } else {
        succeeded(reply)
    }
}

/// What a failed creation left is taken away where it still is what was reserved. Where
/// nothing is there, there is nothing to do; where something else is, it is left alone.
pub proof fn law_what_a_failed_creation_leaves_is_removed(
    cwd: Seq<u8>,
    dst: Seq<u8>,
    reservation: ReservationView,
    owned: bool,
    there: Reply,
    metadata: Metadata,
    removed: Reply,
    rest: Log,
)
    requires
        valid_utf8(dst),
    ensures
        cleanup_protocol(Log::empty(), cwd, dst, reservation, owned) == Step::<()>::Ask(
            RequestView::SymlinkMetadata(dst),
        ),
        there matches Reply::Metadata(Err(error)) ==> (error.kind == ErrorKind::NotFound ==> (
        cleanup_protocol(heard(there, rest), cwd, dst, reservation, owned) matches Step::Done(
            _,
            left,
        ) && left == rest)),
        there matches Reply::Metadata(Ok(_)) ==> {
            let looked = heard(there, heard(Reply::Metadata(Ok(metadata)), Log::empty()));
            let whole = heard(there, heard(Reply::Metadata(Ok(metadata)), heard(removed, rest)));
            &&& cleanup_protocol(heard(there, Log::empty()), cwd, dst, reservation, owned) == Step::<
                (),
            >::Ask(RequestView::SymlinkMetadata(reservation.path))
            &&& if is_reserved(metadata, reservation) {
                &&& cleanup_protocol(looked, cwd, dst, reservation, owned) == Step::<()>::Ask(
                    takes_away(cwd, dst, owned),
                )
                &&& taken_away(removed, owned) ==> (cleanup_protocol(
                    whole,
                    cwd,
                    dst,
                    reservation,
                    owned,
                ) matches Step::Done(_, left) && left == rest)
            } else {
                cleanup_protocol(looked, cwd, dst, reservation, owned) is Fail
            }
        },
{
    broadcast use lemma_heard;

    let path = decode_utf8(dst);
    assert(remove_args(path, true) =~= seq![
        "worktree"@,
        "remove"@,
        "--force"@,
        "--"@,
        path,
    ]);
    if let Reply::Git(Ok(out)) = removed {
        law_lines_of_git_are_read(
            GitContext::WorktreeMutation,
            cwd,
            remove_args(path, true),
            out,
            ""@,
            rest,
        );
    }
}

/// Whether a new branch was kept is told by Git, and only where it was new.
pub proof fn law_what_branch_is_retained(
    cwd: Seq<u8>,
    branch: Seq<char>,
    known: Output,
    text: Seq<char>,
    rest: Log,
)
    ensures
        retained_protocol(rest, cwd, branch, true) == Step::Done(false, rest),
        retained_protocol(Log::empty(), cwd, branch, false) == Step::<bool>::Ask(
            question(cwd, seq!["show-ref"@, "--verify"@, "--quiet"@, "refs/heads/"@ + branch]),
        ),
        says(known, text) ==> retained_protocol(heard(git(known), rest), cwd, branch, false)
            == Step::Done(true, rest),
        lacks(known) || !known.success ==> retained_protocol(
            heard(git(known), rest),
            cwd,
            branch,
            false,
        ) == Step::Done(false, rest),
{
    assert(branch_args(branch) =~= seq![
        "show-ref"@,
        "--verify"@,
        "--quiet"@,
        "refs/heads/"@ + branch,
    ]);
    law_lines_of_git_are_read(GitContext::Source, cwd, branch_args(branch), known, text, rest);
    lemma_heard(git(known), rest);
}

/// A worktree is built: its place is reserved, Git adds it, and it is filled. Where all of
/// that succeeds, that is answered. Where something fails, what was left is cleaned up.
#[verifier::rlimit(40)]
pub proof fn law_a_worktree_is_built(
    site: SiteView,
    o: NewOptionsView,
    branch: Seq<char>,
    start: StartView,
    dst: Seq<u8>,
    entries: Seq<EntryView>,
    created: Reply,
    metadata: Metadata,
    added: Output,
    rest: Log,
)
    requires
        valid_utf8(dst),
        succeeded(created),
        quiet(added),
    ensures
        ({
            let log = heard(
                created,
                heard(Reply::Metadata(Ok(metadata)), heard(git(added), rest)),
            );
            let reservation = ReservationView {
                path: dst,
                device: metadata.device,
                inode: metadata.inode,
            };
            let step = build_protocol(log, site, o, branch, start, dst, entries);
            match fill_protocol(rest, site, o, start, dst, entries) {
                Step::Ask(request) => step == Step::<Seq<char>>::Ask(request),
                Step::Stray => step is Stray,
                Step::Done(stats, left) => match creation_answer(
                    o,
                    site.src,
                    branch,
                    start.commit,
                    dst,
                    stats,
                ) {
                    Ok(answer) => step == Step::Done(answer, left),
                    Err(error) => step == Step::<Seq<char>>::Fail(error, left),
                },
                Step::Fail(error, left) => step == abandon_protocol(
                    left,
                    site.cwd,
                    branch,
                    start.existing,
                    dst,
                    reservation,
                    true,
                    error,
                ),
            }
        }),
{
    broadcast use lemma_heard;

    let reservation = ReservationView {
        path: dst,
        device: metadata.device,
        inode: metadata.inode,
    };
    law_the_place_is_reserved(dst, created, metadata, heard(git(added), rest));
    let path = decode_utf8(dst);
    let args = add_args(o.dirty, start.existing, branch, path, start.point);
    law_lines_of_git_are_read(GitContext::WorktreeMutation, site.cwd, args, added, ""@, rest);
}

/// A creation that is given up is cleaned up first; behind that it is told whether the
/// branch was kept.
pub proof fn law_how_a_creation_is_given_up(
    cwd: Seq<u8>,
    branch: Seq<char>,
    existing: bool,
    dst: Seq<u8>,
    reservation: ReservationView,
    owned: bool,
    error: ErrorView,
    log: Log,
)
    ensures
        match cleanup_protocol(log, cwd, dst, reservation, owned) {
            Step::Ask(request) => abandon_protocol(
                log,
                cwd,
                branch,
                existing,
                dst,
                reservation,
                owned,
                error,
            ) == Step::<Seq<char>>::Ask(request),
            Step::Stray => true,
            Step::Done(_, left) => match retained_protocol(left, cwd, branch, existing) {
                Step::Ask(request) => abandon_protocol(
                    log,
                    cwd,
                    branch,
                    existing,
                    dst,
                    reservation,
                    owned,
                    error,
                ) == Step::<Seq<char>>::Ask(request),
                Step::Done(retained, _) => abandon_protocol(
                    log,
                    cwd,
                    branch,
                    existing,
                    dst,
                    reservation,
                    owned,
                    error,
                ) matches Step::Fail(failed, _) && failed.headline() == if retained {
                    "creation failed: "@ + error.message() + "; new branch "@ + branch
                        + " retained"@
                } else {
                    "creation failed: "@ + error.message()
                },
                _ => true,
            },
            Step::Fail(_, left) => match retained_protocol(left, cwd, branch, existing) {
                Step::Ask(request) => abandon_protocol(
                    log,
                    cwd,
                    branch,
                    existing,
                    dst,
                    reservation,
                    owned,
                    error,
                ) == Step::<Seq<char>>::Ask(request),
                _ => true,
            },
        },
{
    reveal_strlit("");
    let first = "creation failed: "@ + error.message();
    assert(first + ""@ =~= first);
    assert(first + ("; new branch "@ + branch + " retained"@) =~= first + "; new branch "@ + branch
        + " retained"@);
}

} // verus!
