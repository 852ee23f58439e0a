//! Which worktree a path is answered of, once Git finds it there.

use vstd::prelude::*;

use vstd::utf8::{encode_utf8, valid_utf8};

use crate::git::{
    common_args, same_repository_protocol, toplevel_args, validate_protocol, WorktreeView,
};
use crate::laws::building::inside;
use crate::laws::course::{git, question};
use crate::laws::furnishing::{heard, lemma_heard};
use crate::laws::selection::{law_lines_of_git_are_read, lemma_prints, prints, says};
use crate::paths::components;
use crate::session::{GitContext, Log, Output, Reply, RequestView, Step};
use crate::worktrees::{chosen_protocol, path_protocol, select_protocol};

verus! {

/// The answer to a question for a path.
pub open spec fn found_at(path: Vec<u8>) -> Reply {
    Reply::Path(Ok(path))
}

/// What is asked of a worktree before it is answered, in its own directory: the root that
/// Git finds there, and the directory that its repository shares. Both are resolved and
/// held against what is expected.
#[verifier::rlimit(40)]
pub proof fn law_what_is_asked_of_a_worktree(
    cwd: Seq<u8>,
    path: Seq<u8>,
    top: Output,
    root: Seq<char>,
    there: Vec<u8>,
    here: Vec<u8>,
    mine: Output,
    expected: Seq<char>,
    common: Vec<u8>,
    other: Output,
    actual: Seq<char>,
)
    requires
        says(top, root),
        says(mine, expected),
        says(other, actual),
        components(there@) == components(here@),
    ensures
        ({
            let e = Log::empty();
            let share = seq!["rev-parse"@, "--path-format=absolute"@, "--git-common-dir"@];
            &&& validate_protocol(e, cwd, path) == Step::<()>::Ask(
                inside(path, seq!["rev-parse"@, "--show-toplevel"@]),
            )
            &&& validate_protocol(heard(git(top), e), cwd, path) == Step::<()>::Ask(
                RequestView::Canonicalize(encode_utf8(root)),
            )
            &&& validate_protocol(heard(git(top), heard(found_at(there), e)), cwd, path) == Step::<
                (),
            >::Ask(RequestView::Canonicalize(path))
            &&& validate_protocol(
                heard(git(top), heard(found_at(there), heard(found_at(here), e))),
                cwd,
                path,
            ) == Step::<()>::Ask(question(cwd, share))
            &&& same_repository_protocol(heard(git(mine), e), cwd, path) == Step::<()>::Ask(
                RequestView::Canonicalize(encode_utf8(expected)),
            )
            &&& same_repository_protocol(heard(git(mine), heard(found_at(common), e)), cwd, path)
                == Step::<()>::Ask(inside(path, share))
            &&& same_repository_protocol(
                heard(git(mine), heard(found_at(common), heard(git(other), e))),
                cwd,
                path,
            ) == Step::<()>::Ask(RequestView::Canonicalize(encode_utf8(actual)))
        }),
{
    broadcast use lemma_heard;

    let e = Log::empty();
    let d = GitContext::Destination;
    let s = GitContext::Source;
    assert(toplevel_args() =~= seq!["rev-parse"@, "--show-toplevel"@]);
    assert(common_args() =~= seq!["rev-parse"@, "--path-format=absolute"@, "--git-common-dir"@]);
    law_lines_of_git_are_read(d, path, toplevel_args(), top, root, e);
    law_lines_of_git_are_read(d, path, toplevel_args(), top, root, heard(found_at(there), e));
    law_lines_of_git_are_read(
        d,
        path,
        toplevel_args(),
        top,
        root,
        heard(found_at(there), heard(found_at(here), e)),
    );
    law_lines_of_git_are_read(s, cwd, common_args(), mine, expected, e);
    law_lines_of_git_are_read(s, cwd, common_args(), mine, expected, heard(found_at(common), e));
    law_lines_of_git_are_read(
        s,
        cwd,
        common_args(),
        mine,
        expected,
        heard(found_at(common), heard(git(other), e)),
    );
    law_lines_of_git_are_read(d, path, common_args(), other, actual, e);
}

/// A worktree is accepted just where Git finds that very directory as its root, and where
/// it belongs to the repository that the program was started in.
#[verifier::rlimit(40)]
pub proof fn law_when_a_worktree_is_accepted(
    cwd: Seq<u8>,
    path: Seq<u8>,
    top: Output,
    root: Seq<char>,
    there: Vec<u8>,
    here: Vec<u8>,
    mine: Output,
    expected: Seq<char>,
    common: Vec<u8>,
    other: Output,
    actual: Seq<char>,
    shared: Vec<u8>,
    rest: Log,
)
    requires
        says(top, root),
        says(mine, expected),
        says(other, actual),
    ensures
        ({
            let second = heard(
                git(mine),
                heard(found_at(common), heard(git(other), heard(found_at(shared), rest))),
            );
            let log = heard(git(top), heard(found_at(there), heard(found_at(here), second)));
            if components(there@) == components(here@) && components(common@) == components(
                shared@,
            ) {
                validate_protocol(log, cwd, path) matches Step::Done(_, left) && left == rest
            } else {
                validate_protocol(log, cwd, path) is Fail
            }
        }),
{
    broadcast use lemma_heard;

    let d = GitContext::Destination;
    let s = GitContext::Source;
    let third = heard(git(other), heard(found_at(shared), rest));
    let second = heard(git(mine), heard(found_at(common), third));
    let first = heard(found_at(there), heard(found_at(here), second));
    law_lines_of_git_are_read(d, path, toplevel_args(), top, root, first);
    law_lines_of_git_are_read(
        s,
        cwd,
        common_args(),
        mine,
        expected,
        heard(found_at(common), third),
    );
    law_lines_of_git_are_read(
        d,
        path,
        common_args(),
        other,
        actual,
        heard(found_at(shared), rest),
    );
}

/// A path is answered of the worktree that is meant, once it is accepted, and of no other.
pub proof fn law_the_path_of_the_accepted_worktree_is_answered(
    log: Log,
    cwd: Seq<u8>,
    trees: Seq<WorktreeView>,
    selector: Option<Seq<char>>,
    main: bool,
    json: bool,
    tree: WorktreeView,
    left: Log,
)
    requires
        chosen_protocol(log, cwd, trees, selector, main) == Step::Done(tree, left),
    ensures
        match validate_protocol(left, cwd, tree.path) {
            Step::Done(_, rest) => if valid_utf8(tree.path) {
                path_protocol(log, cwd, trees, selector, main, json) matches Step::Done(
                    answer,
                    after,
                ) && after == rest && prints(answer, tree.path, json)
            } else {
                path_protocol(log, cwd, trees, selector, main, json) is Fail
            },
            Step::Ask(request) => path_protocol(log, cwd, trees, selector, main, json) == Step::<
                Seq<char>,
            >::Ask(request),
            Step::Fail(_, _) => path_protocol(log, cwd, trees, selector, main, json) is Fail,
            Step::Stray => true,
        },
{
    lemma_prints(tree.path, json);
}

/// With a selector and without the option for the main worktree, the worktree that is meant
/// is the one that the selector means.
pub proof fn law_a_selector_chooses(
    log: Log,
    cwd: Seq<u8>,
    trees: Seq<WorktreeView>,
    selector: Seq<char>,
)
    ensures
        chosen_protocol(log, cwd, trees, Some(selector), false) == select_protocol(
            log,
            trees,
            selector,
            cwd,
        ),
{
}

} // verus!
