//! Which worktree is meant, and what is answered of it.

use vstd::prelude::*;

use vstd::utf8::{decode_utf8, encode_utf8, valid_utf8};

use crate::commands::{command_protocol, cwd_protocol, execute_protocol, CommandsView};
use crate::errors::ErrorView;
use crate::git::{
    answer_text, common_args, inventory_protocol, listed_worktrees, optional_protocol, run_protocol,
    text_protocol, worktrees_args, WorktreeView,
};
use crate::json::quoted;
use crate::naming::selector_protocol;
use crate::paths::components;
use crate::session::{GitContext, Log, Output, Reply, RequestView, Step};
use crate::worktrees::{
    chosen_protocol, first_of, first_primary, git_dir_args, marked, marked_inventory_protocol,
    path_answer, path_protocol, relocated, rooted_protocol, select_protocol, selected, selects,
    source_args, source_protocol,
};

verus! {

/// Whether Git succeeded and had nothing to say of it.
pub open spec fn quiet(out: Output) -> bool {
    out.success && out.stderr@.len() == 0 && out.code != Some(1i32)
}

/// Whether Git answered with one line.
pub open spec fn says(out: Output, text: Seq<char>) -> bool {
    quiet(out) && out.stdout@ == encode_utf8(text + "\n"@)
}

proof fn lemma_line(text: Seq<char>)
    ensures
        answer_text(encode_utf8(text + "\n"@)) == Ok::<Seq<char>, ErrorView>(text),
{
    let line = text + "\n"@;
    vstd::utf8::encode_utf8_decode_utf8(line);
    vstd::utf8::encode_utf8_valid_utf8(line);
    reveal_strlit("\n");
    assert(line.skip(line.len() - 1) =~= "\n"@);
    assert(line.take(line.len() - 1) =~= text);
}

/// A line that Git answers is read without its end, whatever was asked. To a lookup, an
/// exit with one says that there is nothing, and any other failure is one.
pub proof fn law_lines_of_git_are_read(
    context: GitContext,
    cwd: Seq<u8>,
    args: Seq<Seq<char>>,
    out: Output,
    text: Seq<char>,
    rest: Log,
)
    ensures
        ({
            let log = seq![Reply::Git(Ok(out))] + rest;
            &&& text_protocol(Log::empty(), context, cwd, args) == Step::<Seq<char>>::Ask(
                RequestView::Git { context, cwd, args },
            )
            &&& optional_protocol(Log::empty(), cwd, args) == Step::<Option<Seq<char>>>::Ask(
                RequestView::Git { context: GitContext::Source, cwd, args },
            )
            &&& says(out, text) ==> text_protocol(log, context, cwd, args) == Step::Done(text, rest)
            &&& says(out, text) ==> optional_protocol(log, cwd, args) == Step::Done(
                Some(text),
                rest,
            )
            &&& quiet(out) ==> run_protocol(log, context, cwd, args) == Step::Done(out.stdout@, rest)
            &&& !out.success ==> text_protocol(log, context, cwd, args) is Fail && run_protocol(
                log,
                context,
                cwd,
                args,
            ) is Fail
            &&& out.code == Some(1i32) ==> optional_protocol(log, cwd, args) == Step::<
                Option<Seq<char>>,
            >::Done(None, rest)
            &&& !out.success && out.code != Some(1i32) ==> optional_protocol(log, cwd, args) is Fail
        }),
{
    let log = seq![Reply::Git(Ok(out))] + rest;
    assert(log.drop_first() =~= rest);
    lemma_line(text);
}

/// What is kept of a sequence: nothing, exactly one item, or at least two, and first of
/// all the first.
proof fn lemma_kept<T>(s: Seq<T>, f: spec_fn(T) -> bool)
    ensures
        s.filter(f).len() == 0 ==> forall|i: int| 0 <= i < s.len() ==> !f(#[trigger] s[i]),
        s.filter(f).len() == 1 ==> exists|i: int|
            0 <= i < s.len() && f(#[trigger] s[i]) && s.filter(f)[0] == s[i] && forall|j: int|
                0 <= j < s.len() && j != i ==> !f(#[trigger] s[j]),
        s.filter(f).len() > 1 ==> exists|i: int, j: int|
            0 <= i < j < s.len() && f(#[trigger] s[i]) && f(#[trigger] s[j]),
        s.filter(f).len() > 0 ==> exists|i: int|
            0 <= i < s.len() && f(#[trigger] s[i]) && s.filter(f)[0] == s[i] && forall|j: int|
                0 <= j < i ==> !f(#[trigger] s[j]),
    decreases s.len(),
{
    reveal(Seq::filter);
    if s.len() > 0 {
        let front = s.drop_last();
        let n = s.len() - 1;
        lemma_kept(front, f);
        let kept = front.filter(f);
        assert forall|i: int| 0 <= i < n implies front[i] == s[i] by {}
        if kept.len() == 0 {
            assert forall|i: int| 0 <= i < n implies !f(#[trigger] s[i]) by {
                assert(!f(front[i]));
            }
            if f(s.last()) {
                assert(f(s[n]) && s.filter(f)[0] == s[n]);
            }
        } else {
            let i = choose|i: int|
                0 <= i < front.len() && f(#[trigger] front[i]) && kept[0] == front[i] && forall|
                    j: int,
                |
                    0 <= j < i ==> !f(#[trigger] front[j]);
            assert forall|j: int| 0 <= j < i implies !f(#[trigger] s[j]) by {
                assert(!f(front[j]));
            }
            assert(f(s[i]) && s.filter(f)[0] == s[i]);
            if kept.len() == 1 {
                let k = choose|k: int|
                    0 <= k < front.len() && f(#[trigger] front[k]) && kept[0] == front[k] && forall|
                        j: int,
                    |
                        0 <= j < front.len() && j != k ==> !f(#[trigger] front[j]);
                if f(s.last()) {
                    assert(f(s[k]) && f(s[n]));
                } else {
                    assert forall|j: int| 0 <= j < s.len() && j != k implies !f(
                        #[trigger] s[j],
                    ) by {
                        if j < n {
                            assert(!f(front[j]));
                        }
                    }
                    assert(f(s[k]) && s.filter(f)[0] == s[k]);
                }
            } else {
                let (a, b) = choose|a: int, b: int|
                    0 <= a < b < front.len() && f(#[trigger] front[a]) && f(#[trigger] front[b]);
                assert(f(s[a]) && f(s[b]));
            }
        }
    }
}

/// What is printed of a path.
pub open spec fn prints(answer: Seq<char>, path: Seq<u8>, json: bool) -> bool {
    valid_utf8(path) && answer == if json {
        "{\"path\":"@ + quoted(decode_utf8(path)) + "}\n"@
    } else {
        decode_utf8(path) + "\n"@
    }
}

pub proof fn lemma_prints(path: Seq<u8>, json: bool)
    ensures
        match path_answer(path, json) {
            Ok(answer) => prints(answer, path, json),
            Err(_) => !valid_utf8(path),
        },
{
    reveal_strlit("}\n");
    reveal_strlit("}");
    reveal_strlit("\n");
    if valid_utf8(path) {
        let text = decode_utf8(path);
        assert("}"@ + "\n"@ =~= "}\n"@);
        assert("{\"path\":"@ + quoted(text) + "}"@ + "\n"@ =~= "{\"path\":"@ + quoted(text)
            + "}\n"@);
    }
}

/// Without a selector and without the option for the main worktree, a path that is
/// answered is that of the first worktree that is marked as the current one.
pub proof fn law_no_selector_means_the_current_worktree(
    log: Log,
    cwd: Seq<u8>,
    trees: Seq<WorktreeView>,
    json: bool,
)
    ensures
        path_protocol(log, cwd, trees, None, false, json) matches Step::Done(answer, _) ==> exists|
            i: int,
        |
            0 <= i < trees.len() && (#[trigger] trees[i]).current && prints(
                answer,
                trees[i].path,
                json,
            ) && forall|j: int| 0 <= j < i ==> !(#[trigger] trees[j]).current,
        (forall|i: int| 0 <= i < trees.len() ==> !(#[trigger] trees[i]).current) ==> path_protocol(
            log,
            cwd,
            trees,
            None,
            false,
            json,
        ) is Fail,
{
    let f = |tree: WorktreeView| tree.current;
    lemma_kept(trees, f);
    if let Step::Done(tree, _) = chosen_protocol(log, cwd, trees, None, false) {
        lemma_prints(tree.path, json);
    }
    assert(chosen_protocol(log, cwd, trees, None, false) == first_of(
        trees.filter(f),
        "not inside a working tree"@,
        log,
    ));
    if trees.filter(f).len() > 0 {
        let i = choose|i: int|
            0 <= i < trees.len() && f(#[trigger] trees[i]) && trees.filter(f)[0] == trees[i]
                && forall|j: int| 0 <= j < i ==> !f(#[trigger] trees[j]);
        assert(trees[i].current);
        assert forall|j: int| 0 <= j < i implies !(#[trigger] trees[j]).current by {
            assert(!f(trees[j]));
        }
    }
}

/// With the option for the main worktree, a path that is answered is that of the first
/// worktree that is the main one, whatever selector there is.
pub proof fn law_the_main_option_means_the_main_worktree(
    log: Log,
    cwd: Seq<u8>,
    trees: Seq<WorktreeView>,
    selector: Option<Seq<char>>,
    json: bool,
)
    ensures
        path_protocol(log, cwd, trees, selector, true, json) matches Step::Done(answer, _)
            ==> exists|i: int|
            0 <= i < trees.len() && (#[trigger] trees[i]).primary && prints(
                answer,
                trees[i].path,
                json,
            ) && forall|j: int| 0 <= j < i ==> !(#[trigger] trees[j]).primary,
        (forall|i: int| 0 <= i < trees.len() ==> !(#[trigger] trees[i]).primary) ==> path_protocol(
            log,
            cwd,
            trees,
            selector,
            true,
            json,
        ) is Fail,
{
    let f = |tree: WorktreeView| tree.primary;
    lemma_kept(trees, f);
    if let Step::Done(tree, _) = chosen_protocol(log, cwd, trees, selector, true) {
        lemma_prints(tree.path, json);
    }
    assert(chosen_protocol(log, cwd, trees, selector, true) == first_of(
        trees.filter(f),
        "no primary working tree"@,
        log,
    ));
    if trees.filter(f).len() > 0 {
        let i = choose|i: int|
            0 <= i < trees.len() && f(#[trigger] trees[i]) && trees.filter(f)[0] == trees[i]
                && forall|j: int| 0 <= j < i ==> !f(#[trigger] trees[j]);
        assert(trees[i].primary);
        assert forall|j: int| 0 <= j < i implies !(#[trigger] trees[j]).primary by {
            assert(!f(trees[j]));
        }
    }
}

/// Whether a worktree is on a branch, or at a path that could be told.
pub open spec fn meant_by(tree: WorktreeView, branch: Seq<char>, path: Option<Seq<u8>>) -> bool {
    ||| tree.branch == Some(branch)
    ||| path matches Some(p) && components(p) == components(tree.path)
}

/// A selector means the one worktree that is on the branch of that name or at the path
/// that it leads to. Where there is none, or more than one, it means nothing.
pub proof fn law_a_selector_means_one_worktree(
    before: Log,
    trees: Seq<WorktreeView>,
    selector: Seq<char>,
    cwd: Seq<u8>,
    path: Option<Seq<u8>>,
    rest: Log,
)
    requires
        match selector_protocol(before, encode_utf8(selector), cwd) {
            Step::Done(found, left) => path == Some(found) && left == rest,
            Step::Fail(_, left) => path is None && left == rest,
            _ => false,
        },
    ensures
        match select_protocol(before, trees, selector, cwd) {
            Step::Done(tree, left) => left == rest && exists|i: int|
                0 <= i < trees.len() && #[trigger] trees[i] == tree && meant_by(
                    tree,
                    selector,
                    path,
                ) && forall|j: int|
                    0 <= j < trees.len() && j != i ==> !meant_by(#[trigger] trees[j], selector, path),
            Step::Fail(_, left) => left == rest && ((forall|i: int|
                0 <= i < trees.len() ==> !meant_by(#[trigger] trees[i], selector, path)) || exists|
                i: int,
                j: int,
            |
                0 <= i < j < trees.len() && meant_by(#[trigger] trees[i], selector, path)
                    && meant_by(#[trigger] trees[j], selector, path)),
            _ => false,
        },
{
    let f = |tree: WorktreeView| selects(tree, selector, path);
    let found = selected(trees, selector, path);
    assert(found == trees.filter(f));
    lemma_kept(trees, f);
    assert forall|tree: WorktreeView| #[trigger] f(tree) == meant_by(tree, selector, path) by {}
    if found.len() == 0 {
        assert forall|i: int| 0 <= i < trees.len() implies !meant_by(
            #[trigger] trees[i],
            selector,
            path,
        ) by {
            assert(!f(trees[i]));
        }
    } else if found.len() == 1 {
        let i = choose|i: int|
            0 <= i < trees.len() && f(#[trigger] trees[i]) && found[0] == trees[i] && forall|
                j: int,
            |
                0 <= j < trees.len() && j != i ==> !f(#[trigger] trees[j]);
        assert(meant_by(trees[i], selector, path));
        assert forall|j: int| 0 <= j < trees.len() && j != i implies !meant_by(
            #[trigger] trees[j],
            selector,
            path,
        ) by {
            assert(!f(trees[j]));
        }
    } else {
        let (i, j) = choose|i: int, j: int|
            0 <= i < j < trees.len() && f(#[trigger] trees[i]) && f(#[trigger] trees[j]);
        assert(meant_by(trees[i], selector, path) && meant_by(trees[j], selector, path));
    }
}

/// Whether worktrees are others, with the current one marked: all those at a root, and
/// no other.
pub open spec fn marks(
    trees: Seq<WorktreeView>,
    others: Seq<WorktreeView>,
    root: Option<Seq<u8>>,
) -> bool {
    &&& trees.len() == others.len()
    &&& forall|i: int|
        #![trigger trees[i]]
        #![trigger others[i]]
        0 <= i < trees.len() ==> trees[i] == (WorktreeView {
            current: root matches Some(r) && components(r) == components(others[i].path),
            ..others[i]
        })
}

/// Whether worktrees are others, with the first main one at a root.
pub open spec fn moved(
    trees: Seq<WorktreeView>,
    others: Seq<WorktreeView>,
    root: Seq<u8>,
) -> bool {
    &&& trees.len() == others.len()
    &&& forall|i: int|
        #![trigger trees[i]]
        #![trigger others[i]]
        0 <= i < others.len() ==> trees[i] == if others[i].primary && forall|j: int|
            0 <= j < i ==> !(#[trigger] others[j]).primary {
            WorktreeView { path: root, ..others[i] }
        } else {
            others[i]
        }
}

/// Whether worktrees are others, with those at a root marked as current. Where the
/// first main worktree is where the program was started, it counts as one at that root.
pub open spec fn started_in(
    found: Seq<WorktreeView>,
    trees: Seq<WorktreeView>,
    root: Seq<u8>,
    main: bool,
) -> bool {
    exists|others: Seq<WorktreeView>| #[trigger]
        marks(found, others, Some(root)) && (main ==> moved(others, trees, root)) && (!main
            ==> others == trees)
}

/// The registered worktrees, with the one that the program was started in marked as the
/// current one, are told from what Git answers: the root of that worktree, all
/// worktrees, and the two directories that show whether it is the main one. Where it
/// is, the main worktree is at that root. Where Git knows no root, none is current.
#[verifier::rlimit(30)]
pub proof fn law_the_current_worktree_is_where_it_was_started(
    cwd: Seq<u8>,
    root: Seq<char>,
    top: Output,
    list: Output,
    trees: Seq<WorktreeView>,
    own: Output,
    git_dir: Seq<char>,
    shared: Output,
    common: Seq<char>,
    rest: Log,
)
    requires
        quiet(list),
        listed_worktrees(list.stdout@) == Ok::<Seq<WorktreeView>, ErrorView>(trees),
    ensures
        !top.success ==> (marked_inventory_protocol(
            seq![Reply::Git(Ok(top)), Reply::Git(Ok(list))] + rest,
            cwd,
        ) matches Step::Done(found, left) && left == rest && marks(found, trees, None)),
        says(top, root) && says(own, git_dir) && says(shared, common) ==> (
        marked_inventory_protocol(
            seq![
                Reply::Git(Ok(top)),
                Reply::Git(Ok(list)),
                Reply::Git(Ok(own)),
                Reply::Git(Ok(shared)),
            ] + rest,
            cwd,
        ) matches Step::Done(found, left) && left == rest && started_in(
            found,
            trees,
            encode_utf8(root),
            git_dir == common,
        )),
{
    lemma_marked(trees, None);
    if !top.success {
        let log = seq![Reply::Git(Ok(top)), Reply::Git(Ok(list))] + rest;
        assert(marked_inventory_protocol(log, cwd) == Step::Done(marked(trees, None), rest)) by {
            law_lines_of_git_are_read(
                GitContext::Source,
                cwd,
                source_args(),
                top,
                root,
                seq![Reply::Git(Ok(list))] + rest,
            );
            assert(log =~= seq![Reply::Git(Ok(top))] + (seq![Reply::Git(Ok(list))] + rest));
            assert(log.drop_first() =~= seq![Reply::Git(Ok(list))] + rest);
            lemma_listed(cwd, list, trees, rest);
        }
    }
    if says(top, root) && says(own, git_dir) && says(shared, common) {
        let r = encode_utf8(root);
        let log2 = seq![Reply::Git(Ok(own)), Reply::Git(Ok(shared))] + rest;
        let others = rooted_protocol(log2, cwd, trees, r)->Done_0;
        lemma_rooted(cwd, trees, r, own, git_dir, shared, common, rest);
        lemma_inventory(cwd, root, top, list, trees, log2);
        assert(seq![Reply::Git(Ok(top)), Reply::Git(Ok(list))] + log2 =~= seq![
            Reply::Git(Ok(top)),
            Reply::Git(Ok(list)),
            Reply::Git(Ok(own)),
            Reply::Git(Ok(shared)),
        ] + rest);
        lemma_marked(others, Some(r));
        assert(started_in(marked(others, Some(r)), trees, r, git_dir == common));
    }
}

proof fn lemma_marked(trees: Seq<WorktreeView>, root: Option<Seq<u8>>)
    ensures
        marks(marked(trees, root), trees, root),
{
}

proof fn lemma_inventory(
    cwd: Seq<u8>,
    root: Seq<char>,
    top: Output,
    list: Output,
    trees: Seq<WorktreeView>,
    rest: Log,
)
    requires
        says(top, root),
        quiet(list),
        listed_worktrees(list.stdout@) == Ok::<Seq<WorktreeView>, ErrorView>(trees),
    ensures
        rooted_protocol(rest, cwd, trees, encode_utf8(root)) matches Step::Done(others, left)
            ==> marked_inventory_protocol(
            seq![Reply::Git(Ok(top)), Reply::Git(Ok(list))] + rest,
            cwd,
        ) == Step::Done(marked(others, Some(encode_utf8(root))), left),
{
    let log = seq![Reply::Git(Ok(top)), Reply::Git(Ok(list))] + rest;
    let log1 = seq![Reply::Git(Ok(list))] + rest;
    assert(log =~= seq![Reply::Git(Ok(top))] + log1);
    lemma_sourced(cwd, top, root, log1);
    lemma_listed(cwd, list, trees, rest);
}

/// To tell the current worktree, Git is asked in that directory for its root, for all
/// worktrees, for the directory of the repository and for the one that all worktrees
/// share, in this order.
pub proof fn law_what_git_is_asked_of_the_worktrees(
    cwd: Seq<u8>,
    root: Seq<char>,
    top: Output,
    list: Output,
    trees: Seq<WorktreeView>,
    own: Output,
    git_dir: Seq<char>,
)
    requires
        quiet(list),
        listed_worktrees(list.stdout@) == Ok::<Seq<WorktreeView>, ErrorView>(trees),
        says(top, root),
        says(own, git_dir),
    ensures
        marked_inventory_protocol(Log::empty(), cwd) == Step::<Seq<WorktreeView>>::Ask(
            RequestView::Git {
                context: GitContext::Source,
                cwd,
                args: seq!["rev-parse"@, "--path-format=absolute"@, "--show-toplevel"@],
            },
        ),
        marked_inventory_protocol(seq![Reply::Git(Ok(top))], cwd) == Step::<
            Seq<WorktreeView>,
        >::Ask(
            RequestView::Git {
                context: GitContext::Source,
                cwd,
                args: seq!["worktree"@, "list"@, "--porcelain"@, "-z"@],
            },
        ),
        marked_inventory_protocol(seq![Reply::Git(Ok(top)), Reply::Git(Ok(list))], cwd) == Step::<
            Seq<WorktreeView>,
        >::Ask(
            RequestView::Git {
                context: GitContext::Source,
                cwd,
                args: seq!["rev-parse"@, "--absolute-git-dir"@],
            },
        ),
        marked_inventory_protocol(
            seq![Reply::Git(Ok(top)), Reply::Git(Ok(list)), Reply::Git(Ok(own))],
            cwd,
        ) == Step::<Seq<WorktreeView>>::Ask(
            RequestView::Git {
                context: GitContext::Source,
                cwd,
                args: seq!["rev-parse"@, "--path-format=absolute"@, "--git-common-dir"@],
            },
        ),
{
    let r = encode_utf8(root);
    lemma_arguments();
    let t = seq![Reply::Git(Ok(top))];
    let l = seq![Reply::Git(Ok(list))];
    let o = seq![Reply::Git(Ok(own))];
    lemma_sourced(cwd, top, root, Log::empty());
    assert(t + Log::empty() =~= t);
    lemma_sourced(cwd, top, root, l);
    assert(t + l =~= seq![Reply::Git(Ok(top)), Reply::Git(Ok(list))]);
    lemma_listed(cwd, list, trees, Log::empty());
    assert(l + Log::empty() =~= l);
    lemma_sourced(cwd, top, root, l + o);
    assert(t + (l + o) =~= seq![Reply::Git(Ok(top)), Reply::Git(Ok(list)), Reply::Git(Ok(own))]);
    lemma_listed(cwd, list, trees, o);
    law_lines_of_git_are_read(
        GitContext::Source,
        cwd,
        git_dir_args(),
        own,
        git_dir,
        Log::empty(),
    );
    assert(o + Log::empty() =~= o);
}

proof fn lemma_rooted(
    cwd: Seq<u8>,
    trees: Seq<WorktreeView>,
    root: Seq<u8>,
    own: Output,
    git_dir: Seq<char>,
    shared: Output,
    common: Seq<char>,
    rest: Log,
)
    requires
        says(own, git_dir),
        says(shared, common),
    ensures
        rooted_protocol(
            seq![Reply::Git(Ok(own)), Reply::Git(Ok(shared))] + rest,
            cwd,
            trees,
            root,
        ) matches Step::Done(others, left) && left == rest && if git_dir == common {
            moved(others, trees, root)
        } else {
            others == trees
        },
{
    let log = seq![Reply::Git(Ok(own)), Reply::Git(Ok(shared))] + rest;
    let log3 = seq![Reply::Git(Ok(shared))] + rest;
    assert(log =~= seq![Reply::Git(Ok(own))] + log3);
    law_lines_of_git_are_read(GitContext::Source, cwd, git_dir_args(), own, git_dir, log3);
    law_lines_of_git_are_read(GitContext::Source, cwd, common_args(), shared, common, rest);
    lemma_relocated(trees, root);
}

proof fn lemma_arguments()
    ensures
        source_args() == seq!["rev-parse"@, "--path-format=absolute"@, "--show-toplevel"@],
        worktrees_args() == seq!["worktree"@, "list"@, "--porcelain"@, "-z"@],
        git_dir_args() == seq!["rev-parse"@, "--absolute-git-dir"@],
        common_args() == seq!["rev-parse"@, "--path-format=absolute"@, "--git-common-dir"@],
{
    assert(source_args() =~= seq!["rev-parse"@, "--path-format=absolute"@, "--show-toplevel"@]);
    assert(worktrees_args() =~= seq!["worktree"@, "list"@, "--porcelain"@, "-z"@]);
    assert(git_dir_args() =~= seq!["rev-parse"@, "--absolute-git-dir"@]);
    assert(common_args() =~= seq!["rev-parse"@, "--path-format=absolute"@, "--git-common-dir"@]);
}

proof fn lemma_sourced(cwd: Seq<u8>, top: Output, root: Seq<char>, rest: Log)
    requires
        says(top, root),
    ensures
        source_protocol(seq![Reply::Git(Ok(top))] + rest, cwd) == Step::Done(
            encode_utf8(root),
            rest,
        ),
{
    law_lines_of_git_are_read(GitContext::Source, cwd, source_args(), top, root, rest);
}

proof fn lemma_listed(cwd: Seq<u8>, list: Output, trees: Seq<WorktreeView>, rest: Log)
    requires
        quiet(list),
        listed_worktrees(list.stdout@) == Ok::<Seq<WorktreeView>, ErrorView>(trees),
    ensures
        inventory_protocol(seq![Reply::Git(Ok(list))] + rest, cwd) == Step::Done(trees, rest),
{
    law_lines_of_git_are_read(GitContext::Source, cwd, worktrees_args(), list, ""@, rest);
}

proof fn lemma_relocated(trees: Seq<WorktreeView>, root: Seq<u8>)
    ensures
        moved(relocated(trees, root), trees, root),
{
    lemma_first_primary_is(trees);
    let k = first_primary(trees);
    assert forall|i: int| 0 <= i < trees.len() implies relocated(trees, root)[i]
        == if #[trigger] trees[i].primary && forall|j: int|
        0 <= j < i ==> !(#[trigger] trees[j]).primary {
        WorktreeView { path: root, ..trees[i] }
    } else {
        trees[i]
    } by {
        if i > k {
            assert(trees[k].primary);
        }
    }
}

proof fn lemma_first_primary_is(trees: Seq<WorktreeView>)
    ensures
        0 <= first_primary(trees) <= trees.len(),
        first_primary(trees) < trees.len() ==> trees[first_primary(trees)].primary,
        forall|j: int| 0 <= j < first_primary(trees) ==> !(#[trigger] trees[j]).primary,
    decreases trees.len(),
{
    if trees.len() > 0 && !trees[0].primary {
        let rest = trees.drop_first();
        lemma_first_primary_is(rest);
        assert forall|j: int| 0 <= j < first_primary(trees) implies !(
        #[trigger] trees[j]).primary by {
            if j > 0 {
                assert(rest[j - 1] == trees[j]);
            }
        }
    }
}

/// `git wt path` without arguments: the directory that the program was started in is
/// asked for and resolved, Git tells the root of the worktree there, and a path that is
/// answered is that root.
#[verifier::rlimit(40)]
pub proof fn law_path_answers_where_it_was_started(
    directory: Vec<u8>,
    cwd: Vec<u8>,
    json: bool,
    root: Seq<char>,
    top: Output,
    list: Output,
    trees: Seq<WorktreeView>,
    own: Output,
    git_dir: Seq<char>,
    shared: Output,
    common: Seq<char>,
    rest: Log,
)
    requires
        valid_utf8(cwd@),
        quiet(list),
        listed_worktrees(list.stdout@) == Ok::<Seq<WorktreeView>, ErrorView>(trees),
        says(top, root),
        says(own, git_dir),
        says(shared, common),
    ensures
        ({
            let command = CommandsView::Path { worktree: None, main_worktree: false, json };
            let log = seq![
                Reply::Path(Ok(directory)),
                Reply::Path(Ok(cwd)),
                Reply::Git(Ok(top)),
                Reply::Git(Ok(list)),
                Reply::Git(Ok(own)),
                Reply::Git(Ok(shared)),
            ] + rest;
            execute_protocol(log, command) matches Step::Done(answer, _) ==> exists|path: Seq<u8>| #[trigger]
                prints(answer, path, json) && components(path) == components(encode_utf8(root))
        }),
{
    let command = CommandsView::Path { worktree: None, main_worktree: false, json };
    let log4 = seq![
        Reply::Git(Ok(top)),
        Reply::Git(Ok(list)),
        Reply::Git(Ok(own)),
        Reply::Git(Ok(shared)),
    ] + rest;
    let log = seq![
        Reply::Path(Ok(directory)),
        Reply::Path(Ok(cwd)),
        Reply::Git(Ok(top)),
        Reply::Git(Ok(list)),
        Reply::Git(Ok(own)),
        Reply::Git(Ok(shared)),
    ] + rest;
    assert(log.drop_first().drop_first() =~= log4);
    assert(log.drop_first()[0] == Reply::Path(Ok(cwd)));
    assert(cwd_protocol(log) == Step::Done(cwd@, log4));
    law_the_current_worktree_is_where_it_was_started(
        cwd@,
        root,
        top,
        list,
        trees,
        own,
        git_dir,
        shared,
        common,
        rest,
    );
    let found = marked_inventory_protocol(log4, cwd@)->Done_0;
    let others = choose|others: Seq<WorktreeView>| #[trigger]
        marks(found, others, Some(encode_utf8(root))) && others.len() == trees.len();
    law_no_selector_means_the_current_worktree(rest, cwd@, found, json);
    if let Step::Done(answer, _) = execute_protocol(log, command) {
        assert(execute_protocol(log, command) == command_protocol(log4, cwd@, command));
        assert(path_protocol(rest, cwd@, found, None, false, json) == execute_protocol(
            log,
            command,
        ));
        let i = choose|i: int|
            0 <= i < found.len() && (#[trigger] found[i]).current && prints(
                answer,
                found[i].path,
                json,
            );
        assert(found[i].path == others[i].path);
        assert(prints(answer, found[i].path, json));
    }
}

/// An answer that does not end a line is read as it is, and one that is no text is a failure.
/// Where Git could not be run, that is one.
pub proof fn law_other_answers_of_git(
    context: GitContext,
    cwd: Seq<u8>,
    args: Seq<Seq<char>>,
    out: Output,
    text: Seq<char>,
    failed: Reply,
    rest: Log,
)
    ensures
        quiet(out) && out.stdout@ == encode_utf8(text) && (text.len() > 0 ==> text.last() != '\n')
            ==> text_protocol(seq![Reply::Git(Ok(out))] + rest, context, cwd, args) == Step::Done(
            text,
            rest,
        ),
        quiet(out) && !valid_utf8(out.stdout@) ==> text_protocol(
            seq![Reply::Git(Ok(out))] + rest,
            context,
            cwd,
            args,
        ) is Fail,
        failed matches Reply::Git(Err(_)) ==> {
            &&& text_protocol(seq![failed] + rest, context, cwd, args) is Fail
            &&& run_protocol(seq![failed] + rest, context, cwd, args) is Fail
            &&& optional_protocol(seq![failed] + rest, cwd, args) is Fail
        },
{
    assert((seq![Reply::Git(Ok(out))] + rest).drop_first() =~= rest);
    vstd::utf8::encode_utf8_decode_utf8(text);
    vstd::utf8::encode_utf8_valid_utf8(text);
    reveal_strlit("\n");
    if text.len() > 0 {
        assert(text.skip(text.len() - 1)[0] == text.last());
    }
}

} // verus!
