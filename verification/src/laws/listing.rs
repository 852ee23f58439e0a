//! What is read of Git, and what is shown of it.

use vstd::prelude::*;

use vstd::utf8::{encode_utf8, valid_utf8};

use crate::errors::ErrorView;
use crate::git::{listed_paths, listed_worktrees, records, WorktreeView};
use crate::listing::{branch_column, kind_column, path_column, widest};
use crate::naming::selector_protocol;
use crate::populator::{complete, task_protocol, work_protocol, JobView, WorkState};
use crate::sequences::{lemma_split_free, split};
use crate::session::{Log, Step};
use crate::text::padded;
use crate::worktrees::{select_protocol, selected};

verus! {

proof fn lemma_widest(texts: Seq<Seq<char>>, k: int)
    requires
        0 <= k < texts.len(),
    ensures
        texts[k].len() <= widest(texts),
    decreases texts.len(),
{
    if k < texts.len() - 1 {
        lemma_widest(texts.drop_last(), k);
        assert(texts.drop_last()[k] == texts[k]);
    }
}

/// The columns of the table are aligned: in every row, what fills a column is
/// exactly as wide as the column.
pub proof fn law_columns_are_aligned(trees: Seq<WorktreeView>, k: int)
    requires
        0 <= k < trees.len(),
    ensures
        padded(path_column(trees)[k], widest(path_column(trees))).len() == widest(
            path_column(trees),
        ),
        padded(kind_column(trees)[k], widest(kind_column(trees))).len() == widest(
            kind_column(trees),
        ),
        padded(branch_column(trees)[k], widest(branch_column(trees))).len() == widest(
            branch_column(trees),
        ),
{
    lemma_widest(path_column(trees), k);
    lemma_widest(kind_column(trees), k);
    lemma_widest(branch_column(trees), k);
}

proof fn lemma_records_have_no_primary(fields: Seq<Seq<u8>>)
    ensures
        records(fields) matches Ok((trees, current)) ==> !current.primary && (forall|k: int|
            0 <= k < trees.len() ==> !(#[trigger] trees[k]).primary && trees[k].path.len() > 0),
    decreases fields.len(),
{
    if fields.len() > 0 {
        lemma_records_have_no_primary(fields.drop_last());
    }
}

/// Of the registered worktrees only the first is the main one, and it is not in a
/// bare repository; each has a path.
pub proof fn law_only_the_first_is_the_main_one(bytes: Seq<u8>)
    ensures
        listed_worktrees(bytes) matches Ok(trees) ==> (forall|k: int|
            0 <= k < trees.len() ==> {
                &&& (#[trigger] trees[k]).path.len() > 0
                &&& trees[k].primary <==> k == 0 && !trees[k].bare
            }),
{
    lemma_records_have_no_primary(split(bytes, 0u8));
}

proof fn lemma_listed(pieces: Seq<Seq<u8>>)
    requires
        forall|k: int| 0 <= k < pieces.len() ==> !(#[trigger] pieces[k]).contains(0u8),
    ensures
        listed_paths(pieces) matches Ok(paths) ==> (forall|k: int|
            0 <= k < paths.len() ==> (#[trigger] paths[k]).len() > 0 && valid_utf8(paths[k])
                && !paths[k].contains(0u8)),
    decreases pieces.len(),
{
    if pieces.len() > 0 {
        let init = pieces.drop_last();
        assert forall|k: int| 0 <= k < init.len() implies !(#[trigger] init[k]).contains(0u8) by {
            assert(init[k] == pieces[k]);
        }
        lemma_listed(init);
    }
}

/// The paths of a listing are texts, not empty, and without a zero byte.
pub proof fn law_listed_paths_are_texts(bytes: Seq<u8>)
    ensures
        listed_paths(split(bytes, 0u8)) matches Ok(paths) ==> (forall|k: int|
            0 <= k < paths.len() ==> (#[trigger] paths[k]).len() > 0 && valid_utf8(paths[k])
                && !paths[k].contains(0u8)),
{
    lemma_split_free(bytes, 0u8);
    lemma_listed(split(bytes, 0u8));
}

/// A branch name need not be a path that can be resolved: where it is none, the
/// worktree on that branch is selected all the same.
pub proof fn law_branch_selectors_need_no_path(
    log: Log,
    trees: Seq<WorktreeView>,
    selector: Seq<char>,
    cwd: Seq<u8>,
    tree: WorktreeView,
    error: ErrorView,
    rest: Log,
)
    requires
        selector_protocol(log, encode_utf8(selector), cwd) == Step::<Seq<u8>>::Fail(error, rest),
        selected(trees, selector, None) == seq![tree],
    ensures
        select_protocol(log, trees, selector, cwd) == Step::<WorktreeView>::Done(tree, rest),
{
}

/// A selector that means two worktrees, one by its branch and another by its path,
/// selects neither.
pub proof fn law_ambiguous_selectors_fail(
    log: Log,
    trees: Seq<WorktreeView>,
    selector: Seq<char>,
    cwd: Seq<u8>,
    path: Seq<u8>,
    rest: Log,
)
    requires
        selector_protocol(log, encode_utf8(selector), cwd) == Step::<Seq<u8>>::Done(path, rest),
        selected(trees, selector, Some(path)).len() > 1,
    ensures
        select_protocol(log, trees, selector, cwd) is Fail,
{
}

proof fn lemma_counts(log: Log, job: JobView, state: WorkState)
    requires
        0 <= state.files,
        0 <= state.symlinks,
        state.files + state.symlinks <= state.placed,
        state.placed <= job.entries.len(),
    ensures
        work_protocol(log, job, state) matches Step::Done(done, _) ==> done.0 + done.2
            <= job.entries.len(),
    decreases
            (if state.root is None {
                1int
            } else {
                0
            }),
            job.entries.len() - state.placed,
            state.directories.len() - state.restored,
{
    if !complete(job, state) {
        if let Step::Done(next, rest) = task_protocol(log, job, state) {
            lemma_counts(rest, job, next);
        }
    }
}

/// No entry is counted twice: there are never more files and links than entries.
pub proof fn law_counts_are_bounded(log: Log, job: JobView)
    ensures
        work_protocol(log, job, WorkState::start()) matches Step::Done(done, _) ==> done.0 + done.2
            <= job.entries.len(),
{
    lemma_counts(log, job, WorkState::start());
}

} // verus!
