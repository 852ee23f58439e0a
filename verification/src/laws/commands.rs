//! Answers are final for whole commands too.

use vstd::prelude::*;

use vstd::utf8::encode_utf8;

use crate::clone::EntryView;
use crate::commands::{command_protocol, cwd_protocol, execute_protocol, CommandsView};
use crate::construct::{
    abandon_protocol, add_args, branch_off_protocol, build_protocol, check_branch_protocol,
    checked_out_args, cleanup_protocol, exclude_args, excludes_protocol, existing_start_protocol,
    fill_protocol, format_args, furnish_protocol, ground_protocol, nested_paths, new_protocol,
    operation_protocol, reset_args, selection_protocol, start_protocol, target_protocol, StartView,
};
use crate::create::{
    auto_name_protocol, branch_args, branch_exists_protocol, branch_protocol, branches_args,
    commit_args, commit_protocol, contains_metadata_protocol, destination_protocol, exists_protocol,
    head_args, name_free_protocol, numbered, place_of, probe_directory_protocol, reserve_protocol,
    site_protocol, stem_protocol, still_owns_protocol, NewOptionsView, ReservationView, SiteView,
};
use crate::errors::ErrorView;
use crate::git::{
    common_args, inventory_protocol, path_text, run_protocol, steady_inventory, steady_optional,
    steady_run, steady_text, steady_validate, text_protocol, WorktreeView,
};
use crate::laws::steady::{
    steady_absolute, steady_parent, steady_probe, steady_selector, steady_whole_plan,
    steady_whole_population,
};
use crate::naming::parent_protocol;
use crate::paths::{ancestors_of, join_path, parent_of};
use crate::session::{
    extends, metadata_reply, path_reply, steady_canonicalize, steady_metadata, steady_path,
    steady_unit, unit_reply, GitContext, Log, RequestView, Step,
};
use crate::text::text_lines;
use crate::worktrees::{
    chosen_protocol, git_dir_args, marked_inventory_protocol, path_protocol, prune_protocol,
    remove_args, remove_protocol, rooted_protocol, select_protocol, source_args, source_protocol,
    tidy_up_protocol,
};

verus! {

pub proof fn steady_source(log: Log, more: Log, cwd: Seq<u8>)
    ensures
        extends(source_protocol(log, cwd), source_protocol(log + more, cwd), more),
{
    steady_text(log, more, GitContext::Source, cwd, source_args());
}

pub proof fn steady_rooted(log: Log, more: Log, cwd: Seq<u8>, trees: Seq<WorktreeView>, root: Seq<u8>)
    ensures
        extends(
            rooted_protocol(log, cwd, trees, root),
            rooted_protocol(log + more, cwd, trees, root),
            more,
        ),
{
    steady_text(log, more, GitContext::Source, cwd, git_dir_args());
    if let Step::Done(_, log) = text_protocol(log, GitContext::Source, cwd, git_dir_args()) {
        steady_text(log, more, GitContext::Source, cwd, common_args());
    }
}

pub proof fn steady_marked_inventory(log: Log, more: Log, cwd: Seq<u8>)
    ensures
        extends(
            marked_inventory_protocol(log, cwd),
            marked_inventory_protocol(log + more, cwd),
            more,
        ),
{
    steady_source(log, more, cwd);
    if let Step::Done(root, log) = source_protocol(log, cwd).attempt() {
        steady_inventory(log, more, cwd);
        if let Step::Done(trees, log) = inventory_protocol(log, cwd) {
            if let Ok(root) = root {
                steady_rooted(log, more, cwd, trees, root);
            }
        }
    }
}

pub proof fn steady_select(
    log: Log,
    more: Log,
    trees: Seq<WorktreeView>,
    selector: Seq<char>,
    cwd: Seq<u8>,
)
    ensures
        extends(
            select_protocol(log, trees, selector, cwd),
            select_protocol(log + more, trees, selector, cwd),
            more,
        ),
{
    steady_selector(log, more, encode_utf8(selector), cwd);
}

pub proof fn steady_path_command(
    log: Log,
    more: Log,
    cwd: Seq<u8>,
    trees: Seq<WorktreeView>,
    selector: Option<Seq<char>>,
    main: bool,
    json: bool,
)
    ensures
        extends(
            path_protocol(log, cwd, trees, selector, main, json),
            path_protocol(log + more, cwd, trees, selector, main, json),
            more,
        ),
{
    if let Some(selector) = selector {
        steady_select(log, more, trees, selector, cwd);
    }
    if let Step::Done(tree, log) = chosen_protocol(log, cwd, trees, selector, main) {
        steady_validate(log, more, cwd, tree.path);
    }
}

pub proof fn steady_prune(log: Log, more: Log, chain: Seq<Seq<u8>>, parent: Seq<u8>)
    ensures
        extends(
            prune_protocol(log, chain, parent),
            prune_protocol(log + more, chain, parent),
            more,
        ),
    decreases chain.len(),
{
    if chain.len() > 0 {
        let request = RequestView::RemoveDirectory(chain[0]);
        steady_unit(log, more, request);
        if let Step::Done(_, log) = unit_reply(log, request) {
            steady_prune(log, more, chain.drop_first(), parent);
        }
    }
}

pub proof fn steady_tidy_up(log: Log, more: Log, cwd: Seq<u8>, path: Seq<u8>)
    ensures
        extends(tidy_up_protocol(log, cwd, path), tidy_up_protocol(log + more, cwd, path), more),
{
    steady_parent(log, more, cwd);
    if let Step::Done(Ok(parent), log) = parent_protocol(log, cwd).attempt() {
        steady_prune(log, more, ancestors_of(path).skip(1), parent);
    }
}

pub proof fn steady_remove(
    log: Log,
    more: Log,
    cwd: Seq<u8>,
    trees: Seq<WorktreeView>,
    selector: Seq<char>,
    force: bool,
)
    ensures
        extends(
            remove_protocol(log, cwd, trees, selector, force),
            remove_protocol(log + more, cwd, trees, selector, force),
            more,
        ),
{
    steady_select(log, more, trees, selector, cwd);
    if let Step::Done(tree, log) = select_protocol(log, trees, selector, cwd) {
        if let Ok(path) = path_text(tree.path) {
            let args = remove_args(path, force);
            steady_run(log, more, GitContext::WorktreeMutation, cwd, args);
            if let Step::Done(_, log) = run_protocol(
                log,
                GitContext::WorktreeMutation,
                cwd,
                args,
            ) {
                steady_tidy_up(log, more, cwd, tree.path);
            }
        }
    }
}

pub proof fn steady_commit(log: Log, more: Log, cwd: Seq<u8>, reference: Seq<char>)
    ensures
        extends(
            commit_protocol(log, cwd, reference),
            commit_protocol(log + more, cwd, reference),
            more,
        ),
{
    steady_text(log, more, GitContext::Source, cwd, commit_args(reference));
}

pub proof fn steady_branch_exists(log: Log, more: Log, cwd: Seq<u8>, branch: Seq<char>)
    ensures
        extends(
            branch_exists_protocol(log, cwd, branch),
            branch_exists_protocol(log + more, cwd, branch),
            more,
        ),
{
    steady_optional(log, more, cwd, branch_args(branch));
}

pub proof fn steady_exists(log: Log, more: Log, path: Seq<u8>)
    ensures
        extends(exists_protocol(log, path), exists_protocol(log + more, path), more),
{
    steady_metadata(log, more, RequestView::SymlinkMetadata(path));
}

pub proof fn steady_probe_directory(log: Log, more: Log, cwd: Seq<u8>, src: Seq<u8>)
    ensures
        extends(
            probe_directory_protocol(log, cwd, src),
            probe_directory_protocol(log + more, cwd, src),
            more,
        ),
{
    steady_text(log, more, GitContext::Source, cwd, git_dir_args());
    if let Step::Done(git_dir, log) = text_protocol(log, GitContext::Source, cwd, git_dir_args()) {
        let first = RequestView::Metadata(encode_utf8(git_dir));
        steady_metadata(log, more, first);
        if let Step::Done(_, log) = metadata_reply(log, first) {
            steady_metadata(log, more, RequestView::Metadata(src));
        }
    }
}

pub proof fn steady_reserve(log: Log, more: Log, path: Seq<u8>)
    ensures
        extends(reserve_protocol(log, path), reserve_protocol(log + more, path), more),
{
    let request = RequestView::CreateDirectory(path);
    steady_unit(log, more, request);
    if let Step::Done(_, log) = unit_reply(log, request) {
        steady_metadata(log, more, RequestView::SymlinkMetadata(path));
    }
}

pub proof fn steady_still_owns(log: Log, more: Log, reservation: ReservationView)
    ensures
        extends(
            still_owns_protocol(log, reservation),
            still_owns_protocol(log + more, reservation),
            more,
        ),
{
    steady_metadata(log, more, RequestView::SymlinkMetadata(reservation.path));
}

pub proof fn steady_contains_metadata(log: Log, more: Log, reservation: ReservationView)
    ensures
        extends(
            contains_metadata_protocol(log, reservation),
            contains_metadata_protocol(log + more, reservation),
            more,
        ),
{
    steady_still_owns(log, more, reservation);
    if let Step::Done(_, log) = still_owns_protocol(log, reservation) {
        steady_metadata(
            log,
            more,
            RequestView::SymlinkMetadata(join_path(reservation.path, encode_utf8(".git"@))),
        );
    }
}

pub proof fn steady_site(log: Log, more: Log, cwd: Seq<u8>, path: Option<Seq<u8>>)
    ensures
        extends(site_protocol(log, cwd, path), site_protocol(log + more, cwd, path), more),
{
    steady_source(log, more, cwd);
    if let Step::Done(_, log) = source_protocol(log, cwd) {
        steady_commit(log, more, cwd, "HEAD"@);
        if let Step::Done(_, log) = commit_protocol(log, cwd, "HEAD"@) {
            steady_parent(log, more, cwd);
        }
    }
}

pub proof fn steady_destination(
    log: Log,
    more: Log,
    site: SiteView,
    path: Option<Seq<u8>>,
    branch: Seq<char>,
)
    ensures
        extends(
            destination_protocol(log, site, path, branch),
            destination_protocol(log + more, site, path, branch),
            more,
        ),
{
    steady_absolute(log, more, place_of(site, path, branch), site.cwd);
}

pub proof fn steady_name_free(
    log: Log,
    more: Log,
    site: SiteView,
    path: Option<Seq<u8>>,
    name: Seq<char>,
    branches: Seq<Seq<char>>,
)
    ensures
        extends(
            name_free_protocol(log, site, path, name, branches),
            name_free_protocol(log + more, site, path, name, branches),
            more,
        ),
{
    steady_destination(log, more, site, path, name);
    if let Step::Done(destination, log) = destination_protocol(log, site, path, name) {
        steady_exists(log, more, destination);
        if path is Some {
            if let Step::Done(_, log) = exists_protocol(log, destination) {
                steady_exists(log, more, destination);
            }
        }
    }
}

pub proof fn steady_auto_name(
    log: Log,
    more: Log,
    site: SiteView,
    path: Option<Seq<u8>>,
    stem: Seq<char>,
    branches: Seq<Seq<char>>,
    n: u64,
)
    ensures
        extends(
            auto_name_protocol(log, site, path, stem, branches, n),
            auto_name_protocol(log + more, site, path, stem, branches, n),
            more,
        ),
    decreases u64::MAX - n,
{
    let name = numbered(stem, n as int);
    steady_name_free(log, more, site, path, name, branches);
    if let Step::Done(_, log) = name_free_protocol(log, site, path, name, branches) {
        if n < u64::MAX {
            steady_auto_name(log, more, site, path, stem, branches, (n + 1) as u64);
        }
    }
}

pub proof fn steady_branch(
    log: Log,
    more: Log,
    site: SiteView,
    path: Option<Seq<u8>>,
    branch: Option<Seq<char>>,
)
    ensures
        extends(
            branch_protocol(log, site, path, branch),
            branch_protocol(log + more, site, path, branch),
            more,
        ),
{
    steady_optional(log, more, site.cwd, head_args());
    if let Step::Done(stem, log) = stem_protocol(log, site.cwd) {
        steady_text(log, more, GitContext::Source, site.cwd, branches_args());
        if let Step::Done(branches, log) = text_protocol(
            log,
            GitContext::Source,
            site.cwd,
            branches_args(),
        ) {
            steady_auto_name(log, more, site, path, stem, text_lines(branches), 1);
        }
    }
}

pub proof fn steady_check_branch(log: Log, more: Log, cwd: Seq<u8>, branch: Seq<char>)
    ensures
        extends(
            check_branch_protocol(log, cwd, branch),
            check_branch_protocol(log + more, cwd, branch),
            more,
        ),
{
    let args = format_args(branch);
    steady_run(log, more, GitContext::Source, cwd, args);
    if let Step::Done(_, log) = run_protocol(log, GitContext::Source, cwd, args) {
        steady_branch_exists(log, more, cwd, branch);
    }
}

pub proof fn steady_existing_start(
    log: Log,
    more: Log,
    cwd: Seq<u8>,
    branch: Seq<char>,
    base: Option<Seq<char>>,
)
    ensures
        extends(
            existing_start_protocol(log, cwd, branch, base),
            existing_start_protocol(log + more, cwd, branch, base),
            more,
        ),
{
    let reference = "refs/heads/"@ + branch;
    steady_commit(log, more, cwd, reference);
    if let Step::Done(_, log) = commit_protocol(log, cwd, reference) {
        if let Some(base) = base {
            steady_commit(log, more, cwd, base);
        }
    }
}

pub proof fn steady_start(
    log: Log,
    more: Log,
    site: SiteView,
    branch: Seq<char>,
    base: Option<Seq<char>>,
    dirty: bool,
)
    ensures
        extends(
            start_protocol(log, site, branch, base, dirty),
            start_protocol(log + more, site, branch, base, dirty),
            more,
        ),
{
    steady_check_branch(log, more, site.cwd, branch);
    if let Step::Done(_, log) = check_branch_protocol(log, site.cwd, branch) {
        steady_existing_start(log, more, site.cwd, branch, base);
        if let Some(base) = base {
            steady_commit(log, more, site.cwd, base);
        }
    }
}

pub proof fn steady_target(
    log: Log,
    more: Log,
    site: SiteView,
    path: Option<Seq<u8>>,
    branch: Seq<char>,
)
    ensures
        extends(
            target_protocol(log, site, path, branch),
            target_protocol(log + more, site, path, branch),
            more,
        ),
{
    steady_destination(log, more, site, path, branch);
    if let Step::Done(dst, log) = destination_protocol(log, site, path, branch) {
        steady_exists(log, more, dst);
    }
}

pub proof fn steady_selection(log: Log, more: Log, site: SiteView, o: NewOptionsView, dst: Seq<u8>)
    ensures
        extends(
            selection_protocol(log, site, o, dst),
            selection_protocol(log + more, site, o, dst),
            more,
        ),
{
    steady_optional(log, more, site.cwd, exclude_args());
    if let Step::Done(exclude, log) = excludes_protocol(log, site.cwd, o.exclude) {
        steady_inventory(log, more, site.cwd);
        if let Step::Done(trees, log) = inventory_protocol(log, site.cwd) {
            steady_whole_plan(
                log,
                more,
                site.cwd,
                site.src,
                o.dirty,
                exclude,
                nested_paths(trees, site.src),
                dst,
            );
        }
    }
}

pub proof fn steady_ground(log: Log, more: Log, site: SiteView, no_clone: bool, dst: Seq<u8>)
    ensures
        extends(
            ground_protocol(log, site, no_clone, dst),
            ground_protocol(log + more, site, no_clone, dst),
            more,
        ),
{
    if let Some(parent) = parent_of(dst) {
        let request = RequestView::CreateDirectories(parent);
        steady_unit(log, more, request);
        if let Step::Done(_, log) = unit_reply(log, request) {
            steady_probe_directory(log, more, site.cwd, site.src);
            if let Step::Done(directory, log) = probe_directory_protocol(log, site.cwd, site.src) {
                steady_probe(log, more, directory, parent);
            }
        }
    }
}

pub proof fn steady_fill(
    log: Log,
    more: Log,
    site: SiteView,
    o: NewOptionsView,
    start: StartView,
    dst: Seq<u8>,
    entries: Seq<EntryView>,
)
    ensures
        extends(
            fill_protocol(log, site, o, start, dst, entries),
            fill_protocol(log + more, site, o, start, dst, entries),
            more,
        ),
{
    steady_text(log, more, GitContext::Destination, dst, checked_out_args());
    if let Step::Done(_, log) = text_protocol(
        log,
        GitContext::Destination,
        dst,
        checked_out_args(),
    ) {
        let args = reset_args(start.commit);
        if o.no_clone {
            steady_run(log, more, GitContext::Destination, dst, args);
        } else {
            steady_whole_population(log, more, site.src, dst, entries);
            if let Step::Done(_, log) = crate::clone::populate_protocol(
                log,
                site.src,
                dst,
                entries,
            ) {
                steady_run(log, more, GitContext::Destination, dst, args);
            }
        }
    }
}

pub proof fn steady_operation(
    log: Log,
    more: Log,
    site: SiteView,
    o: NewOptionsView,
    branch: Seq<char>,
    start: StartView,
    dst: Seq<u8>,
    entries: Seq<EntryView>,
    reservation: ReservationView,
)
    ensures
        extends(
            operation_protocol(log, site, o, branch, start, dst, entries, reservation),
            operation_protocol(log + more, site, o, branch, start, dst, entries, reservation),
            more,
        ),
{
    if let Ok(path) = path_text(dst) {
        let args = add_args(o.dirty, start.existing, branch, path, start.point);
        steady_run(log, more, GitContext::WorktreeMutation, site.cwd, args);
        if let Step::Done(added, log) = run_protocol(
            log,
            GitContext::WorktreeMutation,
            site.cwd,
            args,
        ).attempt() {
            match added {
                Err(_) => {
                    steady_contains_metadata(log, more, reservation);
                },
                Ok(_) => {
                    steady_fill(log, more, site, o, start, dst, entries);
                },
            }
        }
    }
}

pub proof fn steady_cleanup(
    log: Log,
    more: Log,
    cwd: Seq<u8>,
    dst: Seq<u8>,
    reservation: ReservationView,
    owned: bool,
)
    ensures
        extends(
            cleanup_protocol(log, cwd, dst, reservation, owned),
            cleanup_protocol(log + more, cwd, dst, reservation, owned),
            more,
        ),
{
    steady_exists(log, more, dst);
    if let Step::Done(_, log) = exists_protocol(log, dst) {
        steady_still_owns(log, more, reservation);
        if let Step::Done(_, log) = still_owns_protocol(log, reservation) {
            if let Ok(path) = path_text(dst) {
                steady_run(log, more, GitContext::WorktreeMutation, cwd, remove_args(path, true));
            }
            steady_unit(log, more, RequestView::RemoveDirectory(dst));
        }
    }
}

pub proof fn steady_abandon(
    log: Log,
    more: Log,
    cwd: Seq<u8>,
    branch: Seq<char>,
    existing: bool,
    dst: Seq<u8>,
    reservation: ReservationView,
    owned: bool,
    error: ErrorView,
)
    ensures
        extends(
            abandon_protocol(log, cwd, branch, existing, dst, reservation, owned, error),
            abandon_protocol(log + more, cwd, branch, existing, dst, reservation, owned, error),
            more,
        ),
{
    steady_cleanup(log, more, cwd, dst, reservation, owned);
    if let Step::Done(_, log) = cleanup_protocol(log, cwd, dst, reservation, owned).attempt() {
        steady_branch_exists(log, more, cwd, branch);
    }
}

pub proof fn steady_build(
    log: Log,
    more: Log,
    site: SiteView,
    o: NewOptionsView,
    branch: Seq<char>,
    start: StartView,
    dst: Seq<u8>,
    entries: Seq<EntryView>,
)
    ensures
        extends(
            build_protocol(log, site, o, branch, start, dst, entries),
            build_protocol(log + more, site, o, branch, start, dst, entries),
            more,
        ),
{
    steady_reserve(log, more, dst);
    if let Step::Done(reservation, log) = reserve_protocol(log, dst) {
        steady_operation(log, more, site, o, branch, start, dst, entries, reservation);
        if let Step::Done(operation, log) = operation_protocol(
            log,
            site,
            o,
            branch,
            start,
            dst,
            entries,
            reservation,
        ) {
            if let Err(error) = operation.outcome {
                steady_abandon(
                    log,
                    more,
                    site.cwd,
                    branch,
                    start.existing,
                    dst,
                    reservation,
                    operation.owned,
                    error,
                );
            }
        }
    }
}

pub proof fn steady_furnish(
    log: Log,
    more: Log,
    site: SiteView,
    o: NewOptionsView,
    branch: Seq<char>,
    start: StartView,
    dst: Seq<u8>,
)
    ensures
        extends(
            furnish_protocol(log, site, o, branch, start, dst),
            furnish_protocol(log + more, site, o, branch, start, dst),
            more,
        ),
{
    steady_selection(log, more, site, o, dst);
    if let Step::Done(entries, log) = selection_protocol(log, site, o, dst) {
        steady_ground(log, more, site, o.no_clone, dst);
        if let Step::Done(_, log) = ground_protocol(log, site, o.no_clone, dst) {
            steady_build(log, more, site, o, branch, start, dst, entries);
        }
    }
}

pub proof fn steady_branch_off(
    log: Log,
    more: Log,
    site: SiteView,
    o: NewOptionsView,
    branch: Seq<char>,
)
    ensures
        extends(
            branch_off_protocol(log, site, o, branch),
            branch_off_protocol(log + more, site, o, branch),
            more,
        ),
{
    steady_start(log, more, site, branch, o.base, o.dirty);
    if let Step::Done(start, log) = start_protocol(log, site, branch, o.base, o.dirty) {
        steady_target(log, more, site, o.path, branch);
        if let Step::Done(dst, log) = target_protocol(log, site, o.path, branch) {
            steady_furnish(log, more, site, o, branch, start, dst);
        }
    }
}

pub proof fn steady_new(log: Log, more: Log, cwd: Seq<u8>, o: NewOptionsView)
    ensures
        extends(new_protocol(log, cwd, o), new_protocol(log + more, cwd, o), more),
{
    steady_site(log, more, cwd, o.path);
    if let Step::Done(site, log) = site_protocol(log, cwd, o.path) {
        steady_branch(log, more, site, o.path, o.branch);
        if let Step::Done(branch, log) = branch_protocol(log, site, o.path, o.branch) {
            steady_branch_off(log, more, site, o, branch);
        }
    }
}

pub proof fn steady_command(log: Log, more: Log, cwd: Seq<u8>, command: CommandsView)
    ensures
        extends(
            command_protocol(log, cwd, command),
            command_protocol(log + more, cwd, command),
            more,
        ),
{
    steady_marked_inventory(log, more, cwd);
    match command {
        CommandsView::New(options) => {
            steady_new(log, more, cwd, options);
        },
        CommandsView::List { json } => {},
        CommandsView::Path { worktree, main_worktree, json } => {
            if let Step::Done(trees, log) = marked_inventory_protocol(log, cwd) {
                steady_path_command(log, more, cwd, trees, worktree, main_worktree, json);
            }
        },
        CommandsView::Remove { worktree, force } => {
            if let Step::Done(trees, log) = marked_inventory_protocol(log, cwd) {
                steady_remove(log, more, cwd, trees, worktree, force);
            }
        },
    }
}

pub proof fn steady_cwd(log: Log, more: Log)
    ensures
        extends(cwd_protocol(log), cwd_protocol(log + more), more),
{
    steady_path(log, more, RequestView::CurrentDirectory);
    if let Step::Done(Ok(directory), log) = path_reply(log, RequestView::CurrentDirectory) {
        steady_canonicalize(log, more, directory@);
    }
}

/// Answers are final: once a command has come to a result, a failure or a stray
/// answer, nothing that is answered later changes that, and what is answered later
/// is left as it is.
pub proof fn law_answers_are_final(log: Log, more: Log, command: CommandsView)
    ensures
        extends(execute_protocol(log, command), execute_protocol(log + more, command), more),
{
    steady_cwd(log, more);
    if let Step::Done(cwd, log) = cwd_protocol(log) {
        steady_command(log, more, cwd, command);
    }
}

} // verus!
