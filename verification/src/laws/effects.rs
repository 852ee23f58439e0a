//! What the commands may change, and when.

use vstd::prelude::*;

use vstd::utf8::encode_utf8;

use crate::clone::{
    ignored_args, indexed_args, listing_protocol, lists_protocol, others_args, EntryView,
    SurveyView,
};
use crate::commands::{cwd_protocol, execute_protocol, CommandsView};
use crate::construct::{
    abandon_protocol, branch_off_protocol, build_protocol, check_branch_protocol, cleanup_protocol,
    exclude_args, excludes_protocol, fill_protocol, format_args, furnish_protocol, ground_protocol,
    new_protocol, operation_protocol, refused_protocol, retained_protocol, selection_protocol,
    start_protocol, target_protocol, StartView,
};
use crate::create::{
    auto_name_protocol, branch_args, branch_protocol, branches_args, commit_args, commit_protocol,
    head_args, name_free_protocol, numbered, place_of, reserve_protocol, site_protocol,
    stem_protocol, NewOptionsView, ReservationView, SiteView,
};
use crate::errors::ErrorView;
use crate::git::{
    common_args, inventory_protocol, optional_protocol, run_protocol, same_repository_protocol,
    text_protocol, toplevel_args, validate_protocol, worktrees_args, WorktreeView,
};
use crate::naming::{
    absolute_protocol, parent_protocol, remote_identity, remote_name_args, remote_url_args,
    repository_parent_protocol, resolve_protocol, root_args, root_protocol, seen_from,
    selector_protocol,
};
use crate::paths::{join_path, lemma_parent_shorter, parent_of};
use crate::planner::{lemma_stage_uses, stage_protocol, survey_protocol, PlanState};
use crate::session::{
    canonicalize_protocol, metadata_reply, path_reply, GitContext, Log, RequestView, Step,
};
use crate::text::text_lines;
use crate::worktrees::{
    chosen_protocol, git_dir_args, marked_inventory_protocol, path_protocol, select_protocol,
    source_args, source_protocol,
};

verus! {

/// Whether a question to Git is answered without changing anything.
pub open spec fn question(args: Seq<Seq<char>>) -> bool {
    ||| args == worktrees_args() || args == head_args()
    ||| args.len() > 0 && (args[0] == "rev-parse"@ || args[0] == "show-ref"@ || args[0]
        == "for-each-ref"@ || args[0] == "check-ref-format"@ || args[0] == "ls-files"@)
    ||| args.len() > 1 && args[0] == "remote"@ && args[1] == "get-url"@
    ||| args.len() > 2 && args[0] == "config"@ && (args[1] == "--get"@ || args[2] == "--get-all"@
        || args[2] == "--get-urlmatch"@)
}

/// Whether a request changes neither the repository nor the file system. What is
/// passed on to the diagnostic stream does not count.
pub open spec fn reads(request: RequestView) -> bool {
    match request {
        RequestView::Git { context, cwd, args } => context != GitContext::WorktreeMutation
            && question(args),
        RequestView::Report(_) => true,
        RequestView::Canonicalize(_) => true,
        RequestView::Metadata(_) => true,
        RequestView::SymlinkMetadata(_) => true,
        RequestView::CurrentDirectory => true,
        RequestView::Home => true,
        RequestView::ReadLink(_) => true,
        RequestView::OpenWalk(_) => true,
        RequestView::NextEntry => true,
        RequestView::SkipDirectory => true,
        _ => false,
    }
}

/// Whether what is asked next, if anything, changes nothing.
pub open spec fn only_reads<T>(step: Step<T>) -> bool {
    step matches Step::Ask(request) ==> reads(request)
}

/// Whether what is asked next, if anything, changes nothing: it only reads, or has a
/// plan made.
pub open spec fn only_surveys<T>(step: Step<T>) -> bool {
    step matches Step::Ask(request) ==> reads(request) || request is Plan
}

proof fn reading_run(log: Log, git: GitContext, cwd: Seq<u8>, args: Seq<Seq<char>>)
    requires
        git != GitContext::WorktreeMutation,
        question(args),
    ensures
        only_reads(run_protocol(log, git, cwd, args)),
        only_reads(text_protocol(log, git, cwd, args)),
{
}

proof fn reading_optional(log: Log, cwd: Seq<u8>, args: Seq<Seq<char>>)
    requires
        question(args),
    ensures
        only_reads(optional_protocol(log, cwd, args)),
{
}

proof fn reading_resolve(log: Log, path: Seq<u8>)
    ensures
        only_reads(resolve_protocol(log, path)),
    decreases path.len(),
{
    if let Some(parent) = parent_of(path) {
        lemma_parent_shorter(path);
        if let Step::Done(_, log) = path_reply(log, RequestView::Canonicalize(path)) {
            if let Step::Done(_, log) = metadata_reply(log, RequestView::SymlinkMetadata(path)) {
                reading_resolve(log, parent);
            }
        }
    }
}

proof fn reading_absolute(log: Log, path: Seq<u8>, cwd: Seq<u8>)
    ensures
        only_reads(absolute_protocol(log, path, cwd)),
{
    let joined = seen_from(path, cwd);
    reading_resolve(log, joined);
    if let Some(parent) = parent_of(joined) {
        reading_resolve(log, parent);
    }
}

proof fn reading_selector(log: Log, path: Seq<u8>, cwd: Seq<u8>)
    ensures
        only_reads(selector_protocol(log, path, cwd)),
{
    reading_absolute(log, path, cwd);
}

proof fn reading_repository_parent(log: Log, cwd: Seq<u8>, address: Seq<char>)
    ensures
        only_reads(repository_parent_protocol(log, cwd, address)),
{
    if let Ok((url, repository)) = remote_identity(address) {
        reading_optional(log, cwd, root_args(url));
        if let Step::Done(root, log) = root_protocol(log, cwd, url) {
            reading_resolve(log, join_path(root, repository));
        }
    }
}

/// Telling the directory for the worktrees of a repository changes nothing.
pub proof fn reading_parent(log: Log, cwd: Seq<u8>)
    ensures
        only_reads(parent_protocol(log, cwd)),
{
    reading_optional(log, cwd, remote_name_args());
    if let Step::Done(name, log) = optional_protocol(log, cwd, remote_name_args()) {
        let remote = match name {
            Some(remote) => remote,
            None => "origin"@,
        };
        let args = remote_url_args(remote);
        reading_run(log, GitContext::Source, cwd, args);
        if let Step::Done(address, log) = text_protocol(log, GitContext::Source, cwd, args) {
            reading_repository_parent(log, cwd, address);
        }
    }
}

proof fn reading_validate(log: Log, source_cwd: Seq<u8>, path: Seq<u8>)
    ensures
        only_reads(validate_protocol(log, source_cwd, path)),
{
    reading_run(log, GitContext::Destination, path, toplevel_args());
    if let Step::Done(top, log) = text_protocol(
        log,
        GitContext::Destination,
        path,
        toplevel_args(),
    ) {
        if let Step::Done(_, log) = canonicalize_protocol(log, encode_utf8(top)) {
            if let Step::Done(_, log) = canonicalize_protocol(log, path) {
                reading_same_repository(log, source_cwd, path);
            }
        }
    }
}

proof fn reading_same_repository(log: Log, source_cwd: Seq<u8>, path: Seq<u8>)
    ensures
        only_reads(same_repository_protocol(log, source_cwd, path)),
{
    reading_run(log, GitContext::Source, source_cwd, common_args());
    if let Step::Done(expected, log) = text_protocol(
        log,
        GitContext::Source,
        source_cwd,
        common_args(),
    ) {
        if let Step::Done(_, log) = canonicalize_protocol(log, encode_utf8(expected)) {
            reading_run(log, GitContext::Destination, path, common_args());
        }
    }
}

proof fn reading_inventory(log: Log, cwd: Seq<u8>)
    ensures
        only_reads(inventory_protocol(log, cwd)),
{
    reading_run(log, GitContext::Source, cwd, worktrees_args());
}

proof fn reading_marked_inventory(log: Log, cwd: Seq<u8>)
    ensures
        only_reads(marked_inventory_protocol(log, cwd)),
{
    reading_run(log, GitContext::Source, cwd, source_args());
    if let Step::Done(root, log) = source_protocol(log, cwd).attempt() {
        reading_inventory(log, cwd);
        if let Step::Done(trees, log) = inventory_protocol(log, cwd) {
            reading_run(log, GitContext::Source, cwd, git_dir_args());
            if let Step::Done(_, log) = text_protocol(
                log,
                GitContext::Source,
                cwd,
                git_dir_args(),
            ) {
                reading_run(log, GitContext::Source, cwd, common_args());
            }
        }
    }
}

/// Selecting a worktree changes nothing.
pub proof fn reading_select(
    log: Log,
    trees: Seq<WorktreeView>,
    selector: Seq<char>,
    cwd: Seq<u8>,
)
    ensures
        only_reads(select_protocol(log, trees, selector, cwd)),
{
    reading_selector(log, encode_utf8(selector), cwd);
}

proof fn reading_path(
    log: Log,
    cwd: Seq<u8>,
    trees: Seq<WorktreeView>,
    selector: Option<Seq<char>>,
    main: bool,
    json: bool,
)
    ensures
        only_reads(path_protocol(log, cwd, trees, selector, main, json)),
{
    if let Some(selector) = selector {
        reading_select(log, trees, selector, cwd);
    }
    if let Step::Done(tree, log) = chosen_protocol(log, cwd, trees, selector, main) {
        reading_validate(log, cwd, tree.path);
    }
}

/// Listing worktrees changes nothing.
pub proof fn law_list_changes_nothing(log: Log, json: bool)
    ensures
        only_reads(execute_protocol(log, CommandsView::List { json })),
{
    if let Step::Done(cwd, log) = cwd_protocol(log) {
        reading_marked_inventory(log, cwd);
    }
}

/// Printing the path of a worktree changes nothing.
pub proof fn law_path_changes_nothing(
    log: Log,
    worktree: Option<Seq<char>>,
    main_worktree: bool,
    json: bool,
)
    ensures
        only_reads(
            execute_protocol(log, CommandsView::Path { worktree, main_worktree, json }),
        ),
{
    if let Step::Done(cwd, log) = cwd_protocol(log) {
        reading_marked_inventory(log, cwd);
        if let Step::Done(trees, log) = marked_inventory_protocol(log, cwd) {
            reading_path(log, cwd, trees, worktree, main_worktree, json);
        }
    }
}

proof fn reading_site(log: Log, cwd: Seq<u8>, path: Option<Seq<u8>>)
    ensures
        only_reads(site_protocol(log, cwd, path)),
{
    reading_run(log, GitContext::Source, cwd, source_args());
    if let Step::Done(_, log) = source_protocol(log, cwd) {
        reading_run(log, GitContext::Source, cwd, commit_args("HEAD"@));
        if let Step::Done(_, log) = commit_protocol(log, cwd, "HEAD"@) {
            reading_parent(log, cwd);
        }
    }
}

proof fn reading_name_free(
    log: Log,
    site: SiteView,
    path: Option<Seq<u8>>,
    name: Seq<char>,
    branches: Seq<Seq<char>>,
)
    ensures
        only_reads(name_free_protocol(log, site, path, name, branches)),
{
    reading_absolute(log, place_of(site, path, name), site.cwd);
}

proof fn reading_auto_name(
    log: Log,
    site: SiteView,
    path: Option<Seq<u8>>,
    stem: Seq<char>,
    branches: Seq<Seq<char>>,
    n: u64,
)
    ensures
        only_reads(auto_name_protocol(log, site, path, stem, branches, n)),
    decreases u64::MAX - n,
{
    let name = numbered(stem, n as int);
    reading_name_free(log, site, path, name, branches);
    if let Step::Done(_, log) = name_free_protocol(log, site, path, name, branches) {
        if n < u64::MAX {
            reading_auto_name(log, site, path, stem, branches, (n + 1) as u64);
        }
    }
}

proof fn reading_branch(
    log: Log,
    site: SiteView,
    path: Option<Seq<u8>>,
    branch: Option<Seq<char>>,
)
    ensures
        only_reads(branch_protocol(log, site, path, branch)),
{
    reading_optional(log, site.cwd, head_args());
    if let Step::Done(stem, log) = stem_protocol(log, site.cwd) {
        reading_run(log, GitContext::Source, site.cwd, branches_args());
        if let Step::Done(branches, log) = text_protocol(
            log,
            GitContext::Source,
            site.cwd,
            branches_args(),
        ) {
            reading_auto_name(log, site, path, stem, text_lines(branches), 1);
        }
    }
}

proof fn reading_check_branch(log: Log, cwd: Seq<u8>, branch: Seq<char>)
    ensures
        only_reads(check_branch_protocol(log, cwd, branch)),
{
    reading_run(log, GitContext::Source, cwd, format_args(branch));
    if let Step::Done(_, log) = run_protocol(
        log,
        GitContext::Source,
        cwd,
        format_args(branch),
    ) {
        reading_optional(log, cwd, branch_args(branch));
    }
}

proof fn reading_start(
    log: Log,
    site: SiteView,
    branch: Seq<char>,
    base: Option<Seq<char>>,
    dirty: bool,
)
    ensures
        only_reads(start_protocol(log, site, branch, base, dirty)),
{
    reading_check_branch(log, site.cwd, branch);
    if let Step::Done(existing, log) = check_branch_protocol(log, site.cwd, branch) {
        if existing {
            let reference = "refs/heads/"@ + branch;
            reading_run(log, GitContext::Source, site.cwd, commit_args(reference));
            if let Step::Done(_, log) = commit_protocol(log, site.cwd, reference) {
                if let Some(base) = base {
                    reading_run(log, GitContext::Source, site.cwd, commit_args(base));
                }
            }
        } else if let Some(base) = base {
            reading_run(log, GitContext::Source, site.cwd, commit_args(base));
        }
    }
}

proof fn reading_target(log: Log, site: SiteView, path: Option<Seq<u8>>, branch: Seq<char>)
    ensures
        only_reads(target_protocol(log, site, path, branch)),
{
    reading_absolute(log, place_of(site, path, branch), site.cwd);
}

proof fn reading_listing(log: Log, cwd: Seq<u8>, args: Seq<Seq<char>>)
    requires
        question(args),
    ensures
        only_reads(listing_protocol(log, cwd, args)),
{
    reading_run(log, GitContext::Source, cwd, args);
}

proof fn reading_lists(log: Log, cwd: Seq<u8>, dirty: bool)
    ensures
        only_reads(lists_protocol(log, cwd, dirty)),
{
    reading_listing(log, cwd, indexed_args());
    if let Step::Done(_, log) = listing_protocol(log, cwd, indexed_args()) {
        reading_listing(log, cwd, others_args());
        reading_listing(log, cwd, ignored_args());
        if let Step::Done(_, log) = listing_protocol(log, cwd, others_args()) {
            reading_listing(log, cwd, ignored_args());
        }
    }
}

proof fn reading_selection(log: Log, site: SiteView, o: NewOptionsView, dst: Seq<u8>)
    ensures
        only_surveys(selection_protocol(log, site, o, dst)),
        o.no_clone ==> only_reads(selection_protocol(log, site, o, dst)),
{
    reading_optional(log, site.cwd, exclude_args());
    if let Step::Done(exclude, log) = excludes_protocol(log, site.cwd, o.exclude) {
        reading_inventory(log, site.cwd);
        if let Step::Done(trees, log) = inventory_protocol(log, site.cwd) {
            reading_lists(log, site.cwd, o.dirty);
        }
    }
}

/// Making a plan changes nothing, however far it has come.
pub proof fn law_planning_changes_nothing(log: Log, s: SurveyView, state: PlanState)
    ensures
        only_reads(survey_protocol(log, s, state)),
    decreases log.len(),
{
    if 0 <= state.root < s.roots().len() {
        reading_stage(log, s, state);
        lemma_stage_uses(log, s, state);
        if let Step::Done(next, rest) = stage_protocol(log, s, state) {
            law_planning_changes_nothing(rest, s, next);
        }
    }
}

proof fn reading_stage(log: Log, s: SurveyView, state: PlanState)
    ensures
        only_reads(stage_protocol(log, s, state)),
{
}

/// Everything that is found out before a worktree is created.
pub struct Findings {
    pub site: SiteView,
    pub branch: Seq<char>,
    pub start: StartView,
    pub dst: Seq<u8>,
    pub entries: Seq<EntryView>,
}

/// Whether `log` answers every question that comes before the creation: where the
/// program was started, the branch, what it starts from, a free place and what is
/// carried over.
pub open spec fn found_out(log: Log, cwd: Seq<u8>, o: NewOptionsView, found: Findings) -> bool {
    &&& site_protocol(log, cwd, o.path) matches Step::Done(site, log)
    &&& site == found.site
    &&& branch_protocol(log, site, o.path, o.branch) matches Step::Done(branch, log)
    &&& branch == found.branch
    &&& start_protocol(log, site, branch, o.base, o.dirty) matches Step::Done(start, log)
    &&& start == found.start
    &&& target_protocol(log, site, o.path, branch) matches Step::Done(dst, log)
    &&& dst == found.dst
    &&& selection_protocol(log, site, o, dst) matches Step::Done(entries, _)
    &&& entries == found.entries
}

/// A creation changes nothing before everything was found out: a bad branch name, a
/// bad base, an occupied place, a place outside the configured directory, a bad
/// exclusion or a nested repository leave everything as it was.
pub proof fn law_checks_come_before_changes(log: Log, cwd: Seq<u8>, o: NewOptionsView)
    ensures
        only_surveys(new_protocol(log, cwd, o)) || exists|found: Findings|
            found_out(log, cwd, o, found),
{
    reading_site(log, cwd, o.path);
    if let Step::Done(site, log1) = site_protocol(log, cwd, o.path) {
        reading_branch(log1, site, o.path, o.branch);
        if let Step::Done(branch, log2) = branch_protocol(log1, site, o.path, o.branch) {
            reading_start(log2, site, branch, o.base, o.dirty);
            if let Step::Done(start, log3) = start_protocol(log2, site, branch, o.base, o.dirty) {
                reading_target(log3, site, o.path, branch);
                if let Step::Done(dst, log4) = target_protocol(log3, site, o.path, branch) {
                    reading_selection(log4, site, o, dst);
                    if let Step::Done(entries, log5) = selection_protocol(log4, site, o, dst) {
                        assert(found_out(
                            log,
                            cwd,
                            o,
                            Findings { site, branch, start, dst, entries },
                        ));
                    }
                }
            }
        }
    }
}

/// Whether a request has something to do with carrying files over.
pub open spec fn carries(request: RequestView) -> bool {
    match request {
        RequestView::Clone { .. } => true,
        RequestView::Link { .. } => true,
        RequestView::SetPermissions { .. } => true,
        RequestView::Scratch { .. } => true,
        RequestView::Plan(_) => true,
        RequestView::Populate { .. } => true,
        _ => false,
    }
}

/// Whether what is asked next, if anything, carries nothing over.
pub open spec fn carries_nothing<T>(step: Step<T>) -> bool {
    step matches Step::Ask(request) ==> !carries(request)
}

proof fn ordinary_operation(
    log: Log,
    site: SiteView,
    o: NewOptionsView,
    branch: Seq<char>,
    start: StartView,
    dst: Seq<u8>,
    entries: Seq<EntryView>,
    reservation: ReservationView,
)
    requires
        o.no_clone,
    ensures
        carries_nothing(
            operation_protocol(log, site, o, branch, start, dst, entries, reservation),
        ),
{
    assert forall|log: Log| #[trigger]
        carries_nothing(fill_protocol(log, site, o, start, dst, entries)) by {}
    assert forall|log: Log, error: ErrorView| #[trigger]
        carries_nothing(refused_protocol(log, reservation, error)) by {}
}

proof fn ordinary_abandon(
    log: Log,
    cwd: Seq<u8>,
    branch: Seq<char>,
    existing: bool,
    dst: Seq<u8>,
    reservation: ReservationView,
    owned: bool,
    error: ErrorView,
)
    ensures
        carries_nothing(
            abandon_protocol(log, cwd, branch, existing, dst, reservation, owned, error),
        ),
{
    assert(carries_nothing(cleanup_protocol(log, cwd, dst, reservation, owned)));
    assert forall|log: Log| #[trigger]
        carries_nothing(retained_protocol(log, cwd, branch, existing)) by {}
}

proof fn ordinary_build(
    log: Log,
    site: SiteView,
    o: NewOptionsView,
    branch: Seq<char>,
    start: StartView,
    dst: Seq<u8>,
    entries: Seq<EntryView>,
)
    requires
        o.no_clone,
    ensures
        carries_nothing(build_protocol(log, site, o, branch, start, dst, entries)),
{
    if let Step::Done(reservation, log) = reserve_protocol(log, dst) {
        ordinary_operation(log, site, o, branch, start, dst, entries, reservation);
        if let Step::Done(operation, log) = operation_protocol(
            log,
            site,
            o,
            branch,
            start,
            dst,
            entries,
            reservation,
        ) {
            if let Err(error) = operation.outcome {
                ordinary_abandon(
                    log,
                    site.cwd,
                    branch,
                    start.existing,
                    dst,
                    reservation,
                    operation.owned,
                    error,
                );
            }
        }
    }
}

proof fn ordinary_ground(log: Log, site: SiteView, dst: Seq<u8>)
    ensures
        carries_nothing(ground_protocol(log, site, true, dst)),
{
}

proof fn ordinary_furnish(
    log: Log,
    site: SiteView,
    o: NewOptionsView,
    branch: Seq<char>,
    start: StartView,
    dst: Seq<u8>,
)
    requires
        o.no_clone,
    ensures
        carries_nothing(furnish_protocol(log, site, o, branch, start, dst)),
{
    reading_selection(log, site, o, dst);
    if let Step::Done(entries, log) = selection_protocol(log, site, o, dst) {
        ordinary_ground(log, site, dst);
        if let Step::Done(_, log) = ground_protocol(log, site, true, dst) {
            ordinary_build(log, site, o, branch, start, dst, entries);
        }
    }
}

proof fn ordinary_branch_off(log: Log, site: SiteView, o: NewOptionsView, branch: Seq<char>)
    requires
        o.no_clone,
    ensures
        carries_nothing(branch_off_protocol(log, site, o, branch)),
{
    reading_start(log, site, branch, o.base, o.dirty);
    if let Step::Done(start, log) = start_protocol(log, site, branch, o.base, o.dirty) {
        reading_target(log, site, o.path, branch);
        if let Step::Done(dst, log) = target_protocol(log, site, o.path, branch) {
            ordinary_furnish(log, site, o, branch, start, dst);
        }
    }
}

/// An ordinary worktree is created without carrying anything over: nothing is tried
/// out, planned, cloned or linked.
pub proof fn law_ordinary_worktrees_carry_nothing(log: Log, cwd: Seq<u8>, o: NewOptionsView)
    requires
        o.no_clone,
    ensures
        carries_nothing(new_protocol(log, cwd, o)),
{
    reading_site(log, cwd, o.path);
    if let Step::Done(site, log) = site_protocol(log, cwd, o.path) {
        reading_branch(log, site, o.path, o.branch);
        if let Step::Done(branch, log) = branch_protocol(log, site, o.path, o.branch) {
            ordinary_branch_off(log, site, o, branch);
        }
    }
}

} // verus!
