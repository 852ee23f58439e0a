//! The registered worktrees: listing, finding and removing them.

use vstd::prelude::*;

use vstd::slice::slice_to_vec;
use vstd::utf8::encode_utf8;

use crate::encoding::{bytes_of, lossy, read_lossy};
use crate::errors::{Error, ErrorView};
use crate::git;
use crate::git::{
    common_args, common_question, inventory_protocol, path_str, path_text, run_protocol, text_protocol,
    validate_protocol, Worktree, WorktreeView,
};
use crate::json;
use crate::json::json_path;
use crate::naming;
use crate::naming::{parent_protocol, selector_protocol};
use crate::paths;
use crate::paths::{ancestors_of, below, same_path};
use crate::session::{
    ask_unit, attempt, context, fails, follows, lemma_bytes, settled, stop, unit_reply, GitContext,
    Log, Request, RequestView, Session, Step, Stop,
};
use crate::text;
use crate::text::cat;

verus! {

broadcast use lemma_bytes;

impl Worktree {
    /// A copy of the record.
    pub fn duplicate(&self) -> (r: Worktree)
        ensures
            r.deep_view() == self.deep_view(),
    {
        Worktree {
            path: slice_to_vec(self.path.as_slice()),
            branch: copied_option(&self.branch),
            head: copied_option(&self.head),
            current: self.current,
            primary: self.primary,
            detached: self.detached,
            locked: self.locked,
            lock_reason: copied_option(&self.lock_reason),
            prunable: self.prunable,
            prune_reason: copied_option(&self.prune_reason),
            bare: self.bare,
        }
    }
}

fn copied_option(text: &Option<String>) -> (r: Option<String>)
    ensures
        r.deep_view() == text.deep_view(),
{
    match text {
        Some(text) => Some(text.clone()),
        None => None,
    }
}

pub open spec fn source_args() -> Seq<Seq<char>> {
    seq!["rev-parse"@, "--path-format=absolute"@, "--show-toplevel"@]
}

pub open spec fn source_protocol(log: Log, cwd: Seq<u8>) -> Step<Seq<u8>> {
    text_protocol(log, GitContext::Source, cwd, source_args()).bind(
        |root: Seq<char>, log: Log| Step::Done(encode_utf8(root), log),
    )
}

/// The root of the working tree that the program was started in.
pub fn source<'a>(io: &mut Session<'a>, cwd: &[u8]) -> (r: Result<Vec<u8>, Stop>)
    ensures
        follows(r, final(io)@, source_protocol(old(io)@, cwd@)),
{
    let question = vec![
        "rev-parse".to_owned(),
        "--path-format=absolute".to_owned(),
        "--show-toplevel".to_owned(),
    ];
    assert(question.deep_view() =~= source_args());
    let root = git::text(io, cwd, &question)?;
    Ok(bytes_of(root.as_str()))
}

/// The first worktree that is the main one, or the number of worktrees.
pub open spec fn first_primary(trees: Seq<WorktreeView>) -> int
    decreases trees.len(),
{
    if trees.len() == 0 || trees[0].primary {
        0
    } else {
        1 + first_primary(trees.drop_first())
    }
}

proof fn lemma_first_primary(trees: Seq<WorktreeView>, i: int)
    requires
        0 <= i <= trees.len(),
        forall|k: int| 0 <= k < i ==> !(#[trigger] trees[k]).primary,
        i < trees.len() ==> trees[i].primary,
    ensures
        first_primary(trees) == i,
    decreases trees.len(),
{
    if trees.len() > 0 && i > 0 {
        let rest = trees.drop_first();
        assert forall|k: int| 0 <= k < i - 1 implies !(#[trigger] rest[k]).primary by {
            assert(rest[k] == trees[k + 1]);
        }
        lemma_first_primary(rest, i - 1);
    }
}

/// The worktrees with the main one at another path.
pub open spec fn relocated(trees: Seq<WorktreeView>, root: Seq<u8>) -> Seq<WorktreeView> {
    let i = first_primary(trees);
    if i < trees.len() {
        trees.update(i, WorktreeView { path: root, ..trees[i] })
    } else {
        trees
    }
}

fn relocate(trees: &mut Vec<Worktree>, root: &[u8])
    ensures
        final(trees).deep_view() == relocated(old(trees).deep_view(), root@),
{
    let ghost all = trees.deep_view();
    let mut i: usize = 0;
    while i < trees.len()
        invariant
            i <= trees@.len(),
            all == trees.deep_view(),
            all == old(trees).deep_view(),
            forall|k: int| 0 <= k < i ==> !(#[trigger] all[k]).primary,
        decreases trees@.len() - i,
    {
        assert(all[i as int] == trees@[i as int].deep_view());
        if trees[i].primary {
            proof {
                lemma_first_primary(all, i as int);
            }
            trees[i].path = slice_to_vec(root);
            assert(trees.deep_view() =~= relocated(all, root@));
            return;
        }
        i = i + 1;
    }
    proof {
        lemma_first_primary(all, i as int);
    }
}

/// The worktrees with the current one marked.
pub open spec fn marked(trees: Seq<WorktreeView>, current: Option<Seq<u8>>) -> Seq<WorktreeView> {
    trees.map_values(
        |tree: WorktreeView|
            WorktreeView {
                current: current matches Some(root) && same_path(root, tree.path),
                ..tree
            },
    )
}

fn mark(trees: &mut Vec<Worktree>, current: &Option<Vec<u8>>)
    ensures
        final(trees).deep_view() == marked(old(trees).deep_view(), current.deep_view()),
{
    let ghost all = trees.deep_view();
    let ghost goal = marked(all, current.deep_view());
    let mut i: usize = 0;
    while i < trees.len()
        invariant
            i <= trees@.len(),
            trees@.len() == all.len(),
            goal == marked(all, current.deep_view()),
            forall|k: int| 0 <= k < i ==> (#[trigger] trees@[k]).deep_view() == goal[k],
            forall|k: int| i <= k < all.len() ==> (#[trigger] trees@[k]).deep_view() == all[k],
        decreases trees@.len() - i,
    {
        let here = match current {
            Some(root) => paths::same(root.as_slice(), trees[i].path.as_slice()),
            None => false,
        };
        assert(trees@[i as int].deep_view() == all[i as int]);
        trees[i].current = here;
        assert(trees@[i as int].deep_view() == goal[i as int]);
        i = i + 1;
    }
    assert(trees.deep_view() =~= goal);
}

pub open spec fn git_dir_args() -> Seq<Seq<char>> {
    seq!["rev-parse"@, "--absolute-git-dir"@]
}

pub(crate) fn git_dir_question() -> (r: Vec<String>)
    ensures
        r.deep_view() == git_dir_args(),
{
    let r = vec!["rev-parse".to_owned(), "--absolute-git-dir".to_owned()];
    assert(r.deep_view() =~= git_dir_args());
    r
}

/// The registered worktrees, where the program was started at `root`. Git can
/// report the administrative directory of a main worktree that keeps it elsewhere;
/// started in that worktree, the program knows its root.
pub open spec fn rooted_protocol(log: Log, cwd: Seq<u8>, trees: Seq<WorktreeView>, root: Seq<u8>) -> Step<
    Seq<WorktreeView>,
> {
    text_protocol(log, GitContext::Source, cwd, git_dir_args()).bind(
        |git_dir: Seq<char>, log: Log|
            text_protocol(log, GitContext::Source, cwd, common_args()).bind(
                |common: Seq<char>, log: Log|
                    Step::Done(
                        if git_dir == common {
                            relocated(trees, root)
                        } else {
                            trees
                        },
                        log,
                    ),
            ),
    )
}

pub open spec fn marked_inventory_protocol(log: Log, cwd: Seq<u8>) -> Step<Seq<WorktreeView>> {
    source_protocol(log, cwd).attempt().bind(
        |root: Result<Seq<u8>, ErrorView>, log: Log|
            inventory_protocol(log, cwd).bind(
                |trees: Seq<WorktreeView>, log: Log|
                    match root {
                        Ok(root) => rooted_protocol(log, cwd, trees, root).bind(
                            |trees: Seq<WorktreeView>, log: Log|
                                Step::Done(marked(trees, Some(root)), log),
                        ),
                        Err(_) => Step::Done(marked(trees, None), log),
                    },
            ),
    )
}

/// The registered worktrees with the current one marked.
pub fn inventory<'a>(io: &mut Session<'a>, cwd: &[u8]) -> (r: Result<Vec<Worktree>, Stop>)
    ensures
        follows(r, final(io)@, marked_inventory_protocol(old(io)@, cwd@)),
{
    let current = match attempt(source(io, cwd))? {
        Ok(root) => Some(root),
        Err(_) => None,
    };
    let mut trees = git::inventory(io, cwd)?;
    if let Some(root) = &current {
        let git_dir = git::text(io, cwd, &git_dir_question())?;
        let common = git::text(io, cwd, &common_question())?;
        if text::same(git_dir.as_str(), common.as_str()) {
            relocate(&mut trees, root.as_slice());
        }
    }
    mark(&mut trees, &current);
    Ok(trees)
}

/// Which worktrees are looked for.
pub enum Pick<'a> {
    /// The main one.
    Primary,
    /// The one that the program was started in.
    Current,
    /// Those on a branch or at a path.
    Named { branch: &'a str, path: &'a Option<Vec<u8>> },
}

/// Whether a selector means a worktree: by its branch, or by its path where that
/// could be resolved.
pub open spec fn selects(tree: WorktreeView, branch: Seq<char>, path: Option<Seq<u8>>) -> bool {
    tree.branch == Some(branch) || (path matches Some(p) && same_path(tree.path, p))
}

/// The worktrees that a selector means.
pub open spec fn selected(trees: Seq<WorktreeView>, branch: Seq<char>, path: Option<Seq<u8>>) -> Seq<
    WorktreeView,
> {
    trees.filter(|tree: WorktreeView| selects(tree, branch, path))
}

/// A path, where it could be resolved.
pub open spec fn known(path: Result<Seq<u8>, ErrorView>) -> Option<Seq<u8>> {
    match path {
        Ok(path) => Some(path),
        Err(_) => None,
    }
}

impl<'a> Pick<'a> {
    pub open spec fn means(&self, tree: WorktreeView) -> bool {
        match self {
            Pick::Primary => tree.primary,
            Pick::Current => tree.current,
            Pick::Named { branch, path } => selects(tree, branch@, path.deep_view()),
        }
    }

    /// Those of the worktrees that are meant.
    pub open spec fn meant(&self, trees: Seq<WorktreeView>) -> Seq<WorktreeView> {
        trees.filter(|tree: WorktreeView| self.means(tree))
    }

    fn matches_tree(&self, tree: &Worktree) -> (r: bool)
        ensures
            r == self.means(tree.deep_view()),
    {
        match self {
            Pick::Primary => tree.primary,
            Pick::Current => tree.current,
            Pick::Named { branch, path } => {
                let by_branch = match &tree.branch {
                    Some(name) => text::same(name.as_str(), branch),
                    None => false,
                };
                let by_path = match path {
                    Some(p) => paths::same(tree.path.as_slice(), p.as_slice()),
                    None => false,
                };
                by_branch || by_path
            },
        }
    }

    /// The worktrees that are meant.
    fn among(&self, trees: &Vec<Worktree>) -> (r: Vec<Worktree>)
        ensures
            r.deep_view() == self.meant(trees.deep_view()),
    {
        let ghost all = trees.deep_view();
        let ghost f = |tree: WorktreeView| self.means(tree);
        let mut found: Vec<Worktree> = Vec::new();
        let mut i: usize = 0;
        proof {
            reveal(Seq::filter);
            assert(all.take(0).filter(f) =~= Seq::<WorktreeView>::empty());
            assert(found.deep_view() =~= Seq::<WorktreeView>::empty());
        }
        while i < trees.len()
            invariant
                i <= trees@.len(),
                all == trees.deep_view(),
                f == (|tree: WorktreeView| self.means(tree)),
                found.deep_view() == all.take(i as int).filter(f),
            decreases trees@.len() - i,
        {
            let ghost before = found.deep_view();
            proof {
                reveal(Seq::filter);
                assert(all.take(i + 1).drop_last() =~= all.take(i as int));
                assert(all.take(i + 1).last() == trees@[i as int].deep_view());
            }
            if self.matches_tree(&trees[i]) {
                found.push(trees[i].duplicate());
                assert(found.deep_view() =~= before.push(all[i as int]));
            }
            i = i + 1;
        }
        assert(all.take(i as int) =~= all);
        found
    }
}

/// The first of some worktrees.
pub open spec fn first_of(found: Seq<WorktreeView>, missing: Seq<char>, log: Log) -> Step<
    WorktreeView,
> {
    if found.len() == 0 {
        fails(missing, log)
    } else {
        Step::Done(found[0], log)
    }
}

pub open spec fn select_protocol(
    log: Log,
    trees: Seq<WorktreeView>,
    selector: Seq<char>,
    cwd: Seq<u8>,
) -> Step<WorktreeView> {
    selector_protocol(log, encode_utf8(selector), cwd).attempt().bind(
        |path: Result<Seq<u8>, ErrorView>, log: Log|
            {
                let found = selected(trees, selector, known(path));
                if found.len() > 1 {
                    fails("ambiguous worktree selector; use an absolute path"@, log)
                } else if found.len() == 1 {
                    Step::Done(found[0], log)
                } else {
                    match path {
                        Err(error) => Step::Fail(error, log),
                        Ok(_) => fails(
                            "no registered worktree matches that branch or path"@,
                            log,
                        ),
                    }
                }
            },
    )
}

/// The worktree that a selector means. A branch name need not be a path that can
/// be resolved, but where both mean a worktree, they must mean the same one.
pub fn select<'a>(
    io: &mut Session<'a>,
    trees: &Vec<Worktree>,
    selector: &str,
    cwd: &[u8],
) -> (r: Result<Worktree, Stop>)
    ensures
        follows(r, final(io)@, select_protocol(old(io)@, trees.deep_view(), selector@, cwd@)),
{
    let outcome = attempt(naming::selector_path(io, bytes_of(selector).as_slice(), cwd))?;
    let (path, error) = match outcome {
        Ok(path) => (Some(path), None),
        Err(error) => (None, Some(error)),
    };
    let ghost resolved = path.deep_view();
    let pick = Pick::Named { branch: selector, path: &path };
    let mut found = pick.among(trees);
    proof {
        let f = |tree: WorktreeView| pick.means(tree);
        let g = |tree: WorktreeView| selects(tree, selector@, resolved);
        assert(f =~= g);
        assert(found.deep_view() == selected(trees.deep_view(), selector@, resolved));
    }
    if found.len() > 1 {
        return Err(stop("ambiguous worktree selector; use an absolute path"));
    }
    let ghost all = found.deep_view();
    match found.pop() {
        Some(tree) => {
            assert(all[0] == tree.deep_view());
            Ok(tree)
        },
        None => match error {
            Some(error) => Err(Stop::Fail(error)),
            None => Err(stop("no registered worktree matches that branch or path")),
        },
    }
}

/// A path as an answer.
pub open spec fn path_answer(path: Seq<u8>, json: bool) -> Result<Seq<char>, ErrorView> {
    match path_text(path) {
        Err(error) => Err(error),
        Ok(text) => Ok(
            (if json {
                json_path(text)
            } else {
                text
            }) + "\n"@,
        ),
    }
}

/// A path as an answer.
pub fn formatted_path(path: &[u8], json: bool) -> (r: Result<String, Error>)
    ensures
        match path_answer(path@, json) {
            Ok(text) => r matches Ok(t) && t@ == text,
            Err(error) => r matches Err(e) && e.deep_view() == error,
        },
{
    match path_str(path) {
        Err(error) => Err(error),
        Ok(text) => {
            if json {
                Ok(cat(json::path_object(text.as_str()).as_str(), "\n"))
            } else {
                Ok(cat(text.as_str(), "\n"))
            }
        },
    }
}

/// The worktree whose path is asked for.
pub open spec fn chosen_protocol(
    log: Log,
    cwd: Seq<u8>,
    trees: Seq<WorktreeView>,
    selector: Option<Seq<char>>,
    main: bool,
) -> Step<WorktreeView> {
    if main {
        first_of(
            trees.filter(|tree: WorktreeView| tree.primary),
            "no primary working tree"@,
            log,
        )
    } else {
        match selector {
            Some(selector) => select_protocol(log, trees, selector, cwd),
            None => first_of(
                trees.filter(|tree: WorktreeView| tree.current),
                "not inside a working tree"@,
                log,
            ),
        }
    }
}

fn first_meant(trees: &Vec<Worktree>, pick: Pick, missing: &str) -> (r: Result<Worktree, Stop>)
    ensures
        forall|rest: Log| #[trigger]
            follows(
                r,
                rest,
                first_of(
                    pick.meant(trees.deep_view()),
                    missing@,
                    rest,
                ),
            ),
{
    let found = pick.among(trees);
    if found.len() == 0 {
        Err(stop(missing))
    } else {
        Ok(found[0].duplicate())
    }
}

fn chosen<'a>(
    io: &mut Session<'a>,
    cwd: &[u8],
    trees: &Vec<Worktree>,
    selector: Option<&str>,
    main: bool,
) -> (r: Result<Worktree, Stop>)
    ensures
        follows(
            r,
            final(io)@,
            chosen_protocol(
                old(io)@,
                cwd@,
                trees.deep_view(),
                selector.deep_view(),
                main,
            ),
        ),
{
    if main {
        let ghost pick = Pick::Primary;
        assert((|tree: WorktreeView| pick.means(tree)) =~= (|tree: WorktreeView| tree.primary));
        let r = first_meant(trees, Pick::Primary, "no primary working tree");
        assert(follows(
            r,
            io@,
            first_of(
                pick.meant(trees.deep_view()),
                "no primary working tree"@,
                io@,
            ),
        ));
        r
    } else if let Some(selector) = selector {
        select(io, trees, selector, cwd)
    } else {
        let ghost pick = Pick::Current;
        assert((|tree: WorktreeView| pick.means(tree)) =~= (|tree: WorktreeView| tree.current));
        let r = first_meant(trees, Pick::Current, "not inside a working tree");
        assert(follows(
            r,
            io@,
            first_of(
                pick.meant(trees.deep_view()),
                "not inside a working tree"@,
                io@,
            ),
        ));
        r
    }
}

pub open spec fn path_protocol(
    log: Log,
    cwd: Seq<u8>,
    trees: Seq<WorktreeView>,
    selector: Option<Seq<char>>,
    main: bool,
    json: bool,
) -> Step<Seq<char>> {
    chosen_protocol(log, cwd, trees, selector, main).bind(
        |tree: WorktreeView, log: Log|
            validate_protocol(log, cwd, tree.path).context(
                "Git did not resolve an accessible working tree at "@ + lossy(tree.path),
            ).bind(|_valid: (), log: Log| settled(path_answer(tree.path, json), log)),
    )
}

/// The path of the main worktree, of a selected one or of the current one, once
/// Git finds it there.
pub fn path<'a>(
    io: &mut Session<'a>,
    cwd: &[u8],
    trees: &Vec<Worktree>,
    selector: Option<&str>,
    main: bool,
    json: bool,
) -> (r: Result<String, Stop>)
    ensures
        follows(
            r,
            final(io)@,
            path_protocol(
                old(io)@,
                cwd@,
                trees.deep_view(),
                selector.deep_view(),
                main,
                json,
            ),
        ),
{
    let tree = chosen(io, cwd, trees, selector, main)?;
    let note = cat(
        "Git did not resolve an accessible working tree at ",
        read_lossy(tree.path.as_slice()).as_str(),
    );
    context(git::validate_worktree(io, cwd, tree.path.as_slice()), note.as_str())?;
    match formatted_path(tree.path.as_slice(), json) {
        Ok(answer) => Ok(answer),
        Err(error) => Err(Stop::Fail(error)),
    }
}

/// Removes directories one after the other, up to `parent` or the first that
/// cannot be removed.
pub open spec fn prune_protocol(log: Log, chain: Seq<Seq<u8>>, parent: Seq<u8>) -> Step<()>
    decreases chain.len(),
{
    if chain.len() == 0 || same_path(chain[0], parent) {
        Step::Done((), log)
    } else {
        match unit_reply(log, RequestView::RemoveDirectory(chain[0])) {
            Step::Ask(request) => Step::Ask(request),
            Step::Stray => Step::Stray,
            Step::Fail(error, log) => Step::Fail(error, log),
            Step::Done(Ok(_), log) => prune_protocol(log, chain.drop_first(), parent),
            Step::Done(Err(_), log) => Step::Done((), log),
        }
    }
}

fn prune<'a>(io: &mut Session<'a>, chain: &Vec<Vec<u8>>, from: usize, parent: &[u8]) -> (r: Result<
    (),
    Stop,
>)
    requires
        from <= chain@.len(),
    ensures
        follows(
            r,
            final(io)@,
            prune_protocol(old(io)@, chain.deep_view().skip(from as int), parent@),
        ),
    decreases chain@.len() - from,
{
    let ghost left = chain.deep_view().skip(from as int);
    if from == chain.len() {
        return Ok(());
    }
    assert(left[0] == chain@[from as int]@);
    assert(left.drop_first() =~= chain.deep_view().skip(from + 1));
    if paths::same(chain[from].as_slice(), parent) {
        return Ok(());
    }
    match ask_unit(io, Request::RemoveDirectory(slice_to_vec(chain[from].as_slice())))? {
        Ok(_) => prune(io, chain, from + 1, parent),
        Err(_) => Ok(()),
    }
}

/// Removes the empty directories that a namespaced branch leaves behind. They are
/// removed strictly below the configured parent only, and only where that parent
/// can be told.
pub open spec fn tidy_up_protocol(log: Log, cwd: Seq<u8>, path: Seq<u8>) -> Step<()> {
    parent_protocol(log, cwd).attempt().bind(
        |parent: Result<Seq<u8>, ErrorView>, log: Log|
            match parent {
                Err(_) => Step::Done((), log),
                Ok(parent) => match below(path, parent) {
                    None => Step::Done((), log),
                    Some(relative) => if relative.len() == 0 {
                        Step::Done((), log)
                    } else {
                        prune_protocol(log, ancestors_of(path).skip(1), parent)
                    },
                },
            },
    )
}

fn tidy_up<'a>(io: &mut Session<'a>, cwd: &[u8], path: &[u8]) -> (r: Result<(), Stop>)
    ensures
        follows(r, final(io)@, tidy_up_protocol(old(io)@, cwd@, path@)),
{
    match attempt(naming::parent(io, cwd))? {
        Err(_) => Ok(()),
        Ok(parent) => match paths::strip_prefix(path, parent.as_slice()) {
            None => Ok(()),
            Some(relative) => {
                if relative.len() == 0 {
                    return Ok(());
                }
                let chain = paths::ancestors(path);
                assert(ancestors_of(path@).len() > 0);
                prune(io, &chain, 1, parent.as_slice())
            },
        },
    }
}

pub open spec fn remove_args(path: Seq<char>, force: bool) -> Seq<Seq<char>> {
    seq!["worktree"@, "remove"@] + (if force {
        seq!["--force"@]
    } else {
        Seq::empty()
    }) + seq!["--"@, path]
}

pub(crate) fn remove_request(path: &str, force: bool) -> (r: Vec<String>)
    ensures
        r.deep_view() == remove_args(path@, force),
{
    let mut r = vec!["worktree".to_owned(), "remove".to_owned()];
    if force {
        r.push("--force".to_owned());
    }
    r.push("--".to_owned());
    r.push(path.to_owned());
    assert(r.deep_view() =~= remove_args(path@, force));
    r
}

pub open spec fn remove_protocol(
    log: Log,
    cwd: Seq<u8>,
    trees: Seq<WorktreeView>,
    selector: Seq<char>,
    force: bool,
) -> Step<Seq<char>> {
    select_protocol(log, trees, selector, cwd).bind(
        |tree: WorktreeView, log: Log|
            if tree.primary || tree.current || tree.bare {
                fails("cannot remove the primary or current worktree"@, log)
            } else {
                match path_text(tree.path) {
                    Err(error) => Step::Fail(error, log),
                    Ok(path) => run_protocol(
                        log,
                        GitContext::WorktreeMutation,
                        cwd,
                        remove_args(path, force),
                    ).bind(
                        |_out: Seq<u8>, log: Log|
                            tidy_up_protocol(log, cwd, tree.path).bind(
                                |_done: (), log: Log| Step::Done(""@, log),
                            ),
                    ),
                }
            },
    )
}

/// Removes a worktree through Git; its branch stays.
pub fn remove<'a>(
    io: &mut Session<'a>,
    cwd: &[u8],
    trees: &Vec<Worktree>,
    selector: &str,
    force: bool,
) -> (r: Result<String, Stop>)
    ensures
        follows(
            r,
            final(io)@,
            remove_protocol(old(io)@, cwd@, trees.deep_view(), selector@, force),
        ),
{
    let tree = select(io, trees, selector, cwd)?;
    if tree.primary || tree.current || tree.bare {
        return Err(stop("cannot remove the primary or current worktree"));
    }
    match path_str(tree.path.as_slice()) {
        Err(error) => Err(Stop::Fail(error)),
        Ok(path) => {
            let request = remove_request(path.as_str(), force);
            git::run_worktree_mutation(io, cwd, &request)?;
            tidy_up(io, cwd, tree.path.as_slice())?;
            Ok("".to_owned())
        },
    }
}

} // verus!
