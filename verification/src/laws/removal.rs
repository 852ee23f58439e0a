//! What removing a worktree may remove.

use vstd::prelude::*;

use vstd::utf8::{decode_utf8, valid_utf8};

use crate::errors::ErrorView;
use crate::git::{path_text, run_protocol, WorktreeView};
use crate::laws::ancestry::{lemma_ancestors_reach, lemma_ancestors_within};
use crate::laws::commands::steady_select;
use crate::laws::effects::{reading_parent, reading_select, reads};
use crate::laws::events::succeeded;
use crate::laws::steady::steady_parent;
use crate::naming::parent_protocol;
use crate::paths::{
    ancestors_of, below, components, law_below, lemma_components_well_formed, lemma_spans,
    same_path, spans_of, within,
};
use crate::session::{unit_reply, GitContext, Log, Output, Reply, RequestView, Step};
use crate::worktrees::{
    known, prune_protocol, remove_args, remove_protocol, select_protocol, selected,
    tidy_up_protocol,
};

verus! {

/// Whether a path lies below another and is not that one.
pub open spec fn strictly_below(p: Seq<u8>, base: Seq<u8>) -> bool {
    within(p, base) && !same_path(p, base)
}

/// A path above another one that is longer than a base is below that base.
proof fn lemma_between(p: Seq<u8>, middle: Seq<u8>, base: Seq<u8>)
    requires
        within(p, middle),
        within(p, base),
        components(middle).len() > components(base).len(),
    ensures
        strictly_below(middle, base),
{
    let n = components(base).len() as int;
    assert(components(middle).take(n) =~= components(p).take(n)) by {
        assert(components(middle) == components(p).take(components(middle).len() as int));
    }
}

proof fn lemma_prune(log: Log, path: Seq<u8>, k: int, parent: Seq<u8>)
    requires
        1 <= k <= ancestors_of(path).len(),
        within(path, parent),
        k < ancestors_of(path).len() ==> components(ancestors_of(path)[k]).len() >= components(
            parent,
        ).len(),
    ensures
        prune_protocol(log, ancestors_of(path).skip(k), parent) matches Step::Ask(request) ==> (
        request matches RequestView::RemoveDirectory(d) && strictly_below(d, parent)
            && strictly_below(path, d)),
    decreases ancestors_of(path).len() - k,
{
    let all = ancestors_of(path);
    let chain = all.skip(k);
    if k < all.len() {
        assert(chain[0] == all[k]);
        lemma_ancestors_within(path, k);
        assert(strictly_below(path, all[k]));
        if components(all[k]).len() == components(parent).len() {
            let n = components(parent).len() as int;
            assert(components(all[k]) == components(path).take(n));
            assert(components(parent) == components(path).take(n));
            assert(same_path(chain[0], parent));
        } else {
            lemma_between(path, all[k], parent);
            if let Step::Done(_, rest) = unit_reply(
                log,
                RequestView::RemoveDirectory(chain[0]),
            ) {
                assert(chain.drop_first() =~= all.skip(k + 1));
                if k + 1 < all.len() {
                    lemma_ancestors_within(path, k + 1);
                }
                lemma_prune(rest, path, k + 1, parent);
            }
        }
    }
}

/// After a worktree was removed, only directories are removed that lie above it and
/// strictly below the directory for the worktrees of the repository: that directory
/// and everything above it stay, whatever the worktree's own place was.
pub proof fn law_tidying_stays_below_the_parent(log: Log, cwd: Seq<u8>, path: Seq<u8>)
    ensures
        tidy_up_protocol(log, cwd, path) matches Step::Ask(request) ==> reads(request) || (
        request matches RequestView::RemoveDirectory(d) && strictly_below(path, d)
            && (parent_protocol(log, cwd) matches Step::Done(parent, _) && strictly_below(
            d,
            parent,
        ))),
{
    reading_parent(log, cwd);
    if let Step::Done(parent, rest) = parent_protocol(log, cwd) {
        if let Some(relative) = below(path, parent) {
            if relative.len() > 0 {
                lemma_spans(path);
                assert(ancestors_of(path).len() > 0);
                if ancestors_of(path).len() > 1 {
                    lemma_ancestors_within(path, 1);
                    if components(path).len() == components(parent).len() {
                        assert(relative =~= Seq::<u8>::empty());
                    }
                }
                lemma_prune(rest, path, 1, parent);
            }
        }
    }
}

/// A removal changes something only once its selector means a single registered
/// worktree that is neither the main one nor the current one nor a bare repository.
/// It has Git remove exactly that one, and force is used only where it was asked
/// for; what is removed besides are directories above it.
pub proof fn law_removal_spares_main_and_current(
    log: Log,
    cwd: Seq<u8>,
    trees: Seq<WorktreeView>,
    selector: Seq<char>,
    force: bool,
)
    ensures
        remove_protocol(log, cwd, trees, selector, force) matches Step::Ask(request) ==> reads(
            request,
        ) || exists|tree: WorktreeView, path: Option<Seq<u8>>|
            {
                &&& #[trigger] selected(trees, selector, path) == seq![tree]
                &&& !tree.primary && !tree.current && !tree.bare
                &&& #[trigger] removes(request, cwd, tree, force)
            },
{
    reading_select(log, trees, selector, cwd);
    let step = select_protocol(log, trees, selector, cwd);
    if let Step::Done(tree, log1) = step {
        let outcome = crate::naming::selector_protocol(
            log,
            vstd::utf8::encode_utf8(selector),
            cwd,
        ).attempt();
        if let Step::Done(path, _) = outcome {
            let found = selected(trees, selector, known(path));
            assert(found =~= seq![tree]);
            if !tree.primary && !tree.current && !tree.bare {
                if let Ok(text) = path_text(tree.path) {
                    let args = remove_args(text, force);
                    if let Step::Done(_, log2) = run_protocol(
                        log1,
                        GitContext::WorktreeMutation,
                        cwd,
                        args,
                    ) {
                        law_tidying_stays_below_the_parent(log2, cwd, tree.path);
                    }
                    if let Step::Ask(request) = remove_protocol(log, cwd, trees, selector, force) {
                        if !reads(request) {
                            assert(removes(request, cwd, tree, force));
                        }
                    }
                }
            }
        }
    }
}

/// Whether a request removes a worktree, or a directory above it.
pub open spec fn removes(
    request: RequestView,
    cwd: Seq<u8>,
    tree: WorktreeView,
    force: bool,
) -> bool {
    match request {
        RequestView::Git { context, cwd: place, args } => {
            &&& context == GitContext::WorktreeMutation
            &&& place == cwd
            &&& path_text(tree.path) matches Ok(text) && args == remove_args(text, force)
        },
        RequestView::RemoveDirectory(d) => strictly_below(tree.path, d),
        _ => false,
    }
}

/// Whether the first `n` answers all say that something was done.
pub open spec fn all_done(answers: Log, n: int) -> bool {
    0 <= n <= answers.len() && forall|i: int| 0 <= i < n ==> succeeded(#[trigger] answers[i])
}

/// How many directories lie above a path and strictly below another.
pub open spec fn between(path: Seq<u8>, parent: Seq<u8>) -> int {
    components(path).len() - components(parent).len() - 1
}

/// Whether a step asks for the removal of the directory that lies `n` above the one that
/// a path lies in.
pub open spec fn asks_removal<T>(step: Step<T>, path: Seq<u8>, n: int) -> bool {
    step matches Step::Ask(RequestView::RemoveDirectory(d)) && within(path, d) && components(
        d,
    ).len() == components(path).len() - 1 - n
}

proof fn lemma_pruned(answers: Log, path: Seq<u8>, parent: Seq<u8>, k: int)
    requires
        strictly_below(path, parent),
        components(parent).len() > 0,
        1 <= k <= between(path, parent) + 1,
    ensures
        ({
            let m = between(path, parent) - (k - 1);
            let step = prune_protocol(answers, ancestors_of(path).skip(k), parent);
            &&& answers.len() < m && all_done(answers, answers.len() as int) ==> asks_removal(
                step,
                path,
                k - 1 + answers.len(),
            )
            &&& all_done(answers, m) ==> step == Step::<()>::Done((), answers.skip(m))
            &&& forall|n: int|
                0 <= n < m && #[trigger] all_done(answers, n) && n < answers.len() && (
                answers[n] matches Reply::Unit(Err(_))) ==> step == Step::<()>::Done(
                    (),
                    answers.skip(n + 1),
                )
        }),
    decreases between(path, parent) + 1 - k,
{
    let m = between(path, parent) - (k - 1);
    let all = ancestors_of(path);
    let chain = all.skip(k);
    lemma_ancestors_reach(path, parent);
    let e = components(path).len() - components(parent).len();
    assert(k <= e < all.len());
    assert(chain[0] == all[k]);
    lemma_ancestors_within(path, k);
    lemma_ancestors_within(path, e);
    if k == e {
        assert(same_path(chain[0], parent));
        assert(answers.skip(0) =~= answers);
    } else {
        assert(!same_path(chain[0], parent));
        assert(chain.drop_first() =~= all.skip(k + 1));
        if answers.len() > 0 {
            let tail = answers.drop_first();
            if answers[0] matches Reply::Unit(Ok(_)) {
                lemma_pruned(tail, path, parent, k + 1);
                if all_done(answers, answers.len() as int) {
                    assert forall|i: int| 0 <= i < tail.len() implies succeeded(
                        #[trigger] tail[i],
                    ) by {
                        assert(tail[i] == answers[i + 1]);
                    }
                }
                if all_done(answers, m) {
                    assert forall|i: int| 0 <= i < m - 1 implies succeeded(#[trigger] tail[i]) by {
                        assert(tail[i] == answers[i + 1]);
                    }
                    assert(all_done(tail, m - 1));
                    assert(tail.skip(m - 1) =~= answers.skip(m));
                }
                let step = prune_protocol(answers, chain, parent);
                assert forall|n: int|
                    0 <= n < m && #[trigger] all_done(answers, n) && n < answers.len() && (
                    answers[n] matches Reply::Unit(Err(_))) implies step == Step::<()>::Done(
                    (),
                    answers.skip(n + 1),
                ) by {
                    assert(n > 0);
                    assert forall|i: int| 0 <= i < n - 1 implies succeeded(#[trigger] tail[i]) by {
                        assert(tail[i] == answers[i + 1]);
                    }
                    assert(all_done(tail, n - 1));
                    assert(tail[n - 1] == answers[n]);
                    assert(tail.skip(n) =~= answers.skip(n + 1));
                }
            } else {
                if all_done(answers, m) || all_done(answers, answers.len() as int) {
                    assert(succeeded(answers[0]));
                }
                let step = prune_protocol(answers, chain, parent);
                assert forall|n: int|
                    0 <= n < m && #[trigger] all_done(answers, n) && n < answers.len() && (
                    answers[n] matches Reply::Unit(Err(_))) implies step == Step::<()>::Done(
                    (),
                    answers.skip(n + 1),
                ) by {
                    if n > 0 {
                        assert(succeeded(answers[0]));
                    }
                    assert(answers.drop_first() =~= answers.skip(1));
                }
            }
        }
    }
}

/// Tidying up after a removal below the directory for the worktrees of the repository
/// goes up from the worktree: each directory above it and strictly below that directory
/// is to be removed, the inner ones first, until one removal fails or all of them were
/// removed. Then, and only then, it is done.
pub proof fn law_every_directory_left_empty_is_removed(
    before: Log,
    cwd: Seq<u8>,
    path: Seq<u8>,
    parent: Seq<u8>,
    answers: Log,
)
    requires
        parent_protocol(before, cwd) == Step::Done(parent, Log::empty()),
        strictly_below(path, parent),
        components(parent).len() > 0,
    ensures
        ({
            let m = between(path, parent);
            let step = tidy_up_protocol(before + answers, cwd, path);
            &&& answers.len() < m && all_done(answers, answers.len() as int) ==> asks_removal(
                step,
                path,
                answers.len() as int,
            )
            &&& all_done(answers, m) ==> step == Step::<()>::Done((), answers.skip(m))
            &&& forall|n: int|
                0 <= n < m && #[trigger] all_done(answers, n) && n < answers.len() && (
                answers[n] matches Reply::Unit(Err(_))) ==> step == Step::<()>::Done(
                    (),
                    answers.skip(n + 1),
                )
        }),
{
    steady_parent(before, answers, cwd);
    assert(Log::empty() + answers =~= answers);
    lemma_spans(path);
    let n = components(parent).len() as int;
    assert(components(path).len() > n) by {
        if components(path).len() == n {
            assert(components(path).take(n) =~= components(path));
        }
    }
    let relative = below(path, parent)->0;
    assert(relative.len() > 0) by {
        law_below(path, parent);
        if relative.len() == 0 {
            lemma_components_well_formed(relative);
            assert(spans_of(relative).len() == 0);
        }
    }
    lemma_pruned(answers, path, parent, 1);
}

/// How a worktree is removed: once the selector means one that may be removed, Git is
/// asked to remove it, by its path and with force only where that was asked for; and
/// once Git has done so, the directories that it leaves empty are tidied up, and nothing
/// is printed.
pub proof fn law_removal_goes_through_git(
    before: Log,
    cwd: Seq<u8>,
    trees: Seq<WorktreeView>,
    selector: Seq<char>,
    force: bool,
    tree: WorktreeView,
    out: Output,
    answers: Log,
)
    requires
        select_protocol(before, trees, selector, cwd) == Step::Done(tree, Log::empty()),
        !tree.primary,
        !tree.current,
        !tree.bare,
        valid_utf8(tree.path),
    ensures
        remove_protocol(before, cwd, trees, selector, force) == Step::<Seq<char>>::Ask(
            RequestView::Git {
                context: GitContext::WorktreeMutation,
                cwd,
                args: if force {
                    seq!["worktree"@, "remove"@, "--force"@, "--"@, decode_utf8(tree.path)]
                } else {
                    seq!["worktree"@, "remove"@, "--"@, decode_utf8(tree.path)]
                },
            },
        ),
        !out.success ==> remove_protocol(
            before + (seq![Reply::Git(Ok(out))] + answers),
            cwd,
            trees,
            selector,
            force,
        ) is Fail,
        out.success && out.stderr@.len() == 0 ==> remove_protocol(
            before + (seq![Reply::Git(Ok(out))] + answers),
            cwd,
            trees,
            selector,
            force,
        ) == match tidy_up_protocol(answers, cwd, tree.path) {
            Step::Ask(request) => Step::Ask(request),
            Step::Stray => Step::Stray,
            Step::Fail(error, rest) => Step::Fail(error, rest),
            Step::Done(_, rest) => Step::Done(""@, rest),
        },
{
    let more = seq![Reply::Git(Ok(out))] + answers;
    steady_select(before, more, trees, selector, cwd);
    assert(Log::empty() + more =~= more);
    assert(more.drop_first() =~= answers);
    let path = decode_utf8(tree.path);
    assert(remove_args(path, true) =~= seq!["worktree"@, "remove"@, "--force"@, "--"@, path]);
    assert(remove_args(path, false) =~= seq!["worktree"@, "remove"@, "--"@, path]);
}

/// Where the directory for the worktrees of the repository cannot be told, or the worktree
/// does not lie below it, nothing is tidied up.
pub proof fn law_nothing_else_is_tidied_up(
    before: Log,
    cwd: Seq<u8>,
    path: Seq<u8>,
    parent: Seq<u8>,
    error: ErrorView,
    rest: Log,
)
    ensures
        parent_protocol(before, cwd) == Step::<Seq<u8>>::Fail(error, rest) ==> tidy_up_protocol(
            before,
            cwd,
            path,
        ) == Step::<()>::Done((), rest),
        parent_protocol(before, cwd) == Step::Done(parent, rest) && !within(path, parent)
            ==> tidy_up_protocol(before, cwd, path) == Step::<()>::Done((), rest),
{
}

} // verus!
