//! The course of furnishing a worktree: what is carried over, the ground for it, and the
//! worktree itself.

use vstd::prelude::*;

use vstd::utf8::{decode_utf8, encode_utf8, valid_utf8};

use crate::clone::{
    ignored_args, indexed_args, listing_protocol, lists_protocol, others_args, probe_protocol,
    Entry, EntryView, Stats, SurveyView,
};
use crate::construct::{
    add_args, creation_answer, exclude_args, excludes_protocol, ground_protocol, nested_paths,
    selection_protocol,
};
use crate::create::{probe_directory_protocol, NewOptionsView, SiteView};
use crate::errors::ErrorView;
use crate::git::{
    inventory_protocol, listed_paths, listed_worktrees, steady_optional, worktrees_args,
    WorktreeView,
};
use crate::json::quoted;
use crate::laws::configuration::{each_ended, lemma_split_ended};
use crate::laws::course::{git, question};
use crate::laws::events::succeeded;
use crate::laws::selection::{law_lines_of_git_are_read, quiet, says};
use crate::laws::steady::steady_lists;
use crate::native::{clone_failure, clone_file_protocol};
use crate::paths::{components, join_path, law_parent, parent_of, same_path, within};
use crate::session::{
    extends, Errno, ErrorKind, FileKind, GitContext, IoErrorView, Log, Metadata, OsError, Output,
    Reply, RequestView, Scratch, Step,
};
use crate::text::decimal_text;
use crate::worktrees::git_dir_args;

verus! {

/// An answer, and those after it.
pub open spec fn heard(reply: Reply, rest: Log) -> Log {
    seq![reply] + rest
}

/// The first answer is used, and those after it are left.
pub broadcast proof fn lemma_heard(reply: Reply, rest: Log)
    ensures
        (#[trigger] heard(reply, rest)).len() > 0,
        heard(reply, rest)[0] == reply,
        heard(reply, rest).drop_first() == rest,
{
    assert(heard(reply, rest).drop_first() =~= rest);
}

proof fn lemma_all_listed(paths: Seq<Seq<u8>>)
    requires
        forall|k: int|
            0 <= k < paths.len() ==> (#[trigger] paths[k]).len() > 0 && valid_utf8(paths[k]),
    ensures
        listed_paths(paths) == Ok::<Seq<Seq<u8>>, ErrorView>(paths),
    decreases paths.len(),
{
    if paths.len() > 0 {
        let front = paths.drop_last();
        assert forall|k: int| 0 <= k < front.len() implies (#[trigger] front[k]).len() > 0
            && valid_utf8(front[k]) by {
            assert(front[k] == paths[k]);
        }
        lemma_all_listed(front);
        assert(paths[paths.len() - 1].len() > 0);
        assert(front.push(paths.last()) =~= paths);
    } else {
        assert(paths =~= Seq::empty());
    }
}

/// Whether Git lists paths: each of them with a zero byte behind it.
pub open spec fn lists(out: Output, paths: Seq<Seq<u8>>) -> bool {
    &&& quiet(out)
    &&& out.stdout@ == each_ended(paths, 0u8)
    &&& forall|k: int|
        0 <= k < paths.len() ==> (#[trigger] paths[k]).len() > 0 && valid_utf8(paths[k])
            && !paths[k].contains(0u8)
}

/// Every path that Git lists is read, in that order, whatever was asked.
pub proof fn law_every_listed_path_is_read(
    cwd: Seq<u8>,
    args: Seq<Seq<char>>,
    out: Output,
    paths: Seq<Seq<u8>>,
    rest: Log,
)
    requires
        lists(out, paths),
    ensures
        listing_protocol(heard(git(out), rest), cwd, args) == Step::Done(paths, rest),
{
    law_lines_of_git_are_read(GitContext::Source, cwd, args, out, ""@, rest);
    assert forall|k: int| 0 <= k < paths.len() implies !(#[trigger] paths[k]).contains(0u8) by {}
    lemma_split_ended(paths, 0u8);
    lemma_all_listed(paths);
    assert(paths.push(Seq::empty()).drop_last() =~= paths);
}

proof fn lemma_list_arguments()
    ensures
        indexed_args() == seq!["ls-files"@, "--cached"@, "--full-name"@, "-z"@, "--"@, ":/"@],
        others_args() == seq![
            "ls-files"@,
            "--others"@,
            "--exclude-standard"@,
            "--full-name"@,
            "-z"@,
            "--"@,
            ":/"@,
        ],
        ignored_args() == seq![
            "ls-files"@,
            "--others"@,
            "--ignored"@,
            "--exclude-standard"@,
            "--directory"@,
            "--full-name"@,
            "-z"@,
            "--"@,
            ":/"@,
        ],
{
}

/// Git is asked for what is in the index and for what is ignored, and between them for
/// what else there is where changes are carried over. All but the ignored entries must
/// not be lost.
#[verifier::rlimit(40)]
pub proof fn law_what_git_lists_of_the_source(
    cwd: Seq<u8>,
    dirty: bool,
    first: Output,
    indexed: Seq<Seq<u8>>,
    second: Output,
    others: Seq<Seq<u8>>,
    third: Output,
    ignored: Seq<Seq<u8>>,
    rest: Log,
)
    requires
        lists(first, indexed),
        lists(second, others),
        lists(third, ignored),
    ensures
        lists_protocol(Log::empty(), cwd, dirty) == Step::<
            (Seq<Seq<u8>>, Seq<Seq<u8>>, Seq<Seq<u8>>),
        >::Ask(
            question(cwd, seq!["ls-files"@, "--cached"@, "--full-name"@, "-z"@, "--"@, ":/"@]),
        ),
        lists_protocol(heard(git(first), Log::empty()), cwd, true) == Step::<
            (Seq<Seq<u8>>, Seq<Seq<u8>>, Seq<Seq<u8>>),
        >::Ask(
            question(
                cwd,
                seq![
                    "ls-files"@,
                    "--others"@,
                    "--exclude-standard"@,
                    "--full-name"@,
                    "-z"@,
                    "--"@,
                    ":/"@,
                ],
            ),
        ),
        lists_protocol(heard(git(first), Log::empty()), cwd, false) == Step::<
            (Seq<Seq<u8>>, Seq<Seq<u8>>, Seq<Seq<u8>>),
        >::Ask(
            question(
                cwd,
                seq![
                    "ls-files"@,
                    "--others"@,
                    "--ignored"@,
                    "--exclude-standard"@,
                    "--directory"@,
                    "--full-name"@,
                    "-z"@,
                    "--"@,
                    ":/"@,
                ],
            ),
        ),
        lists_protocol(heard(git(first), heard(git(second), Log::empty())), cwd, true) == Step::<
            (Seq<Seq<u8>>, Seq<Seq<u8>>, Seq<Seq<u8>>),
        >::Ask(
            question(
                cwd,
                seq![
                    "ls-files"@,
                    "--others"@,
                    "--ignored"@,
                    "--exclude-standard"@,
                    "--directory"@,
                    "--full-name"@,
                    "-z"@,
                    "--"@,
                    ":/"@,
                ],
            ),
        ),
        lists_protocol(heard(git(first), heard(git(third), rest)), cwd, false) == Step::Done(
            (indexed, indexed, ignored),
            rest,
        ),
        lists_protocol(
            heard(git(first), heard(git(second), heard(git(third), rest))),
            cwd,
            true,
        ) == Step::Done((indexed, indexed + others, ignored), rest),
{
    lemma_list_arguments();
    let e = Log::empty();
    law_every_listed_path_is_read(cwd, indexed_args(), first, indexed, e);
    law_every_listed_path_is_read(cwd, indexed_args(), first, indexed, heard(git(second), e));
    law_every_listed_path_is_read(cwd, indexed_args(), first, indexed, heard(git(third), rest));
    law_every_listed_path_is_read(
        cwd,
        indexed_args(),
        first,
        indexed,
        heard(git(second), heard(git(third), rest)),
    );
    law_every_listed_path_is_read(cwd, others_args(), second, others, e);
    law_every_listed_path_is_read(cwd, others_args(), second, others, heard(git(third), rest));
    law_every_listed_path_is_read(cwd, ignored_args(), third, ignored, rest);
    assert(indexed + Seq::<Seq<u8>>::empty() =~= indexed);
}

proof fn lemma_member<T>(s: Seq<T>, f: spec_fn(T) -> bool, x: T)
    ensures
        s.filter(f).contains(x) <==> f(x) && s.contains(x),
    decreases s.len(),
{
    reveal(Seq::filter);
    if s.len() > 0 {
        let front = s.drop_last();
        let last = s.last();
        lemma_member(front, f, x);
        if s.contains(x) {
            let i = choose|i: int| 0 <= i < s.len() && s[i] == x;
            if i < front.len() {
                assert(front[i] == x);
            }
        }
        if front.contains(x) {
            let i = choose|i: int| 0 <= i < front.len() && front[i] == x;
            assert(s[i] == x);
        }
        assert(s[s.len() - 1] == last);
        if f(last) {
            let kept = front.filter(f);
            assert(s.filter(f) == kept.push(last));
            assert(kept.push(last)[kept.len() as int] == last);
            if kept.contains(x) {
                let i = choose|i: int| 0 <= i < kept.len() && kept[i] == x;
                assert(kept.push(last)[i] == x);
            }
            if s.filter(f).contains(x) {
                let i = choose|i: int| 0 <= i < s.filter(f).len() && s.filter(f)[i] == x;
                if i < kept.len() {
                    assert(kept[i] == x);
                }
            }
        }
    }
}

/// What is not carried over because it is a worktree of its own: the worktrees that lie in
/// the source, but for the source itself.
pub proof fn law_nested_worktrees_lie_in_the_source(
    trees: Seq<WorktreeView>,
    src: Seq<u8>,
    path: Seq<u8>,
)
    ensures
        nested_paths(trees, src).contains(path) <==> within(path, src) && !same_path(path, src)
            && exists|k: int| 0 <= k < trees.len() && (#[trigger] trees[k]).path == path,
{
    let all = trees.map_values(|tree: WorktreeView| tree.path);
    lemma_member(all, |p: Seq<u8>| !same_path(p, src) && within(p, src), path);
    if all.contains(path) {
        let k = choose|k: int| 0 <= k < all.len() && all[k] == path;
        assert(trees[k].path == path);
    }
    if exists|k: int| 0 <= k < trees.len() && (#[trigger] trees[k]).path == path {
        let k = choose|k: int| 0 <= k < trees.len() && (#[trigger] trees[k]).path == path;
        assert(all[k] == path);
    }
}

/// Whether a step asks for a plan of all that there is to know.
pub open spec fn asks_for_plan(step: Step<Seq<EntryView>>, survey: SurveyView) -> bool {
    step == Step::<Seq<EntryView>>::Ask(RequestView::Plan(survey))
}

/// What is carried over is planned from what is excluded, from the registered worktrees,
/// and from what Git lists. Nothing is planned for an ordinary worktree.
#[verifier::rlimit(40)]
pub proof fn law_what_is_carried_over_is_planned(
    before: Log,
    site: SiteView,
    o: NewOptionsView,
    dst: Seq<u8>,
    exclude: Seq<Seq<u8>>,
    list: Output,
    trees: Seq<WorktreeView>,
    answers: Log,
    lists: (Seq<Seq<u8>>, Seq<Seq<u8>>, Seq<Seq<u8>>),
    entries: Vec<Entry>,
    rest: Log,
)
    requires
        excludes_protocol(before, site.cwd, o.exclude) == Step::Done(exclude, Log::empty()),
        quiet(list),
        listed_worktrees(list.stdout@) == Ok::<Seq<WorktreeView>, ErrorView>(trees),
        lists_protocol(answers, site.cwd, o.dirty) == Step::Done(lists, Log::empty()),
    ensures
        selection_protocol(before, site, o, dst) == Step::<Seq<EntryView>>::Ask(
            question(site.cwd, seq!["worktree"@, "list"@, "--porcelain"@, "-z"@]),
        ),
        o.no_clone ==> selection_protocol(before + heard(git(list), rest), site, o, dst)
            == Step::Done(Seq::<EntryView>::empty(), rest),
        !o.no_clone ==> asks_for_plan(
            selection_protocol(before + heard(git(list), answers), site, o, dst),
            SurveyView {
                source: site.src,
                destination: dst,
                dirty: o.dirty,
                indexed: lists.0,
                protected: lists.1,
                ignored: lists.2,
                exclude,
                nested: nested_paths(trees, site.src),
            },
        ),
        !o.no_clone ==> selection_protocol(
            before + heard(git(list), answers + heard(Reply::Planned(Ok(entries)), rest)),
            site,
            o,
            dst,
        ) == Step::Done(entries.deep_view(), rest),
{
    broadcast use lemma_heard;

    let cwd = site.cwd;
    let e = Log::empty();
    let planned = heard(Reply::Planned(Ok(entries)), rest);
    steady_excludes(before, heard(git(list), rest), cwd, o.exclude);
    steady_excludes(before, heard(git(list), answers), cwd, o.exclude);
    steady_excludes(before, heard(git(list), answers + planned), cwd, o.exclude);
    assert(e + heard(git(list), rest) =~= heard(git(list), rest));
    assert(e + heard(git(list), answers) =~= heard(git(list), answers));
    assert(e + heard(git(list), answers + planned) =~= heard(git(list), answers + planned));
    assert(worktrees_args() =~= seq!["worktree"@, "list"@, "--porcelain"@, "-z"@]);
    lemma_inventory(cwd, list, trees, rest);
    lemma_inventory(cwd, list, trees, answers);
    lemma_inventory(cwd, list, trees, answers + planned);
    steady_lists(answers, planned, cwd, o.dirty);
    assert(e + planned =~= planned);
}

proof fn steady_excludes(log: Log, more: Log, cwd: Seq<u8>, given: Seq<Seq<char>>)
    ensures
        extends(
            excludes_protocol(log, cwd, given),
            excludes_protocol(log + more, cwd, given),
            more,
        ),
{
    steady_optional(log, more, cwd, exclude_args());
}

proof fn lemma_inventory(cwd: Seq<u8>, list: Output, trees: Seq<WorktreeView>, rest: Log)
    requires
        quiet(list),
        listed_worktrees(list.stdout@) == Ok::<Seq<WorktreeView>, ErrorView>(trees),
    ensures
        inventory_protocol(heard(git(list), rest), cwd) == Step::Done(trees, rest),
{
    law_lines_of_git_are_read(GitContext::Source, cwd, worktrees_args(), list, ""@, rest);
}

/// The directory above a place is created first, with all that is above it. For an
/// ordinary worktree that is all.
pub proof fn law_the_directory_above_is_created(
    site: SiteView,
    no_clone: bool,
    dst: Seq<u8>,
    parent: Seq<u8>,
    created: Reply,
    rest: Log,
)
    requires
        parent_of(dst) == Some(parent),
    ensures
        components(parent) == components(dst).drop_last(),
        ground_protocol(Log::empty(), site, no_clone, dst) == Step::<()>::Ask(
            RequestView::CreateDirectories(parent),
        ),
        succeeded(created) && no_clone ==> (ground_protocol(
            heard(created, rest),
            site,
            no_clone,
            dst,
        ) matches Step::Done(_, left) && left == rest),
        succeeded(created) && !no_clone ==> ground_protocol(
            heard(created, Log::empty()),
            site,
            no_clone,
            dst,
        ) == Step::<()>::Ask(question(site.cwd, seq!["rev-parse"@, "--absolute-git-dir"@])),
        created matches Reply::Unit(Err(_)) ==> ground_protocol(
            heard(created, rest),
            site,
            no_clone,
            dst,
        ) is Fail,
{
    broadcast use lemma_heard;

    law_parent(dst);
    assert(git_dir_args() =~= seq!["rev-parse"@, "--absolute-git-dir"@]);
}

/// Whether files can be cloned is tried in the directory of the repository where it lies on
/// the volume of the source, else in the source itself. Where that cannot be told, it is
/// the source, too.
pub proof fn law_where_cloning_is_tried(
    site: SiteView,
    own: Output,
    git_dir: Seq<char>,
    first: Metadata,
    second: Metadata,
    failed: Reply,
    rest: Log,
)
    requires
        says(own, git_dir),
    ensures
        probe_directory_protocol(heard(git(own), Log::empty()), site.cwd, site.src) == Step::<
            Seq<u8>,
        >::Ask(RequestView::Metadata(encode_utf8(git_dir))),
        probe_directory_protocol(
            heard(git(own), heard(Reply::Metadata(Ok(first)), Log::empty())),
            site.cwd,
            site.src,
        ) == Step::<Seq<u8>>::Ask(RequestView::Metadata(site.src)),
        probe_directory_protocol(
            heard(
                git(own),
                heard(Reply::Metadata(Ok(first)), heard(Reply::Metadata(Ok(second)), rest)),
            ),
            site.cwd,
            site.src,
        ) == Step::Done(
            if first.device == second.device {
                encode_utf8(git_dir)
            } else {
                site.src
            },
            rest,
        ),
        failed matches Reply::Metadata(Err(_)) ==> {
            &&& probe_directory_protocol(
                heard(git(own), heard(failed, rest)),
                site.cwd,
                site.src,
            ) == Step::Done(site.src, rest)
            &&& probe_directory_protocol(
                heard(git(own), heard(Reply::Metadata(Ok(first)), heard(failed, rest))),
                site.cwd,
                site.src,
            ) == Step::Done(site.src, rest)
        },
{
    broadcast use lemma_heard;

    let cwd = site.cwd;
    let source = GitContext::Source;
    let e = Log::empty();
    let a = heard(Reply::Metadata(Ok(first)), e);
    let b = heard(Reply::Metadata(Ok(first)), heard(Reply::Metadata(Ok(second)), rest));
    law_lines_of_git_are_read(source, cwd, git_dir_args(), own, git_dir, e);
    law_lines_of_git_are_read(source, cwd, git_dir_args(), own, git_dir, a);
    law_lines_of_git_are_read(source, cwd, git_dir_args(), own, git_dir, b);
    law_lines_of_git_are_read(source, cwd, git_dir_args(), own, git_dir, heard(failed, rest));
    law_lines_of_git_are_read(
        source,
        cwd,
        git_dir_args(),
        own,
        git_dir,
        heard(Reply::Metadata(Ok(first)), heard(failed, rest)),
    );
}

/// Whether a path is one that the system takes.
pub open spec fn nul_free(path: Seq<u8>) -> bool {
    !path.contains(0u8)
}

/// A trial of cloning: a file is made in the one directory and a directory in the other,
/// the file is cloned into it, and both are dropped again. The trial succeeds just where
/// the clone is a file.
pub proof fn law_how_cloning_is_tried(
    source_directory: Seq<u8>,
    destination_parent: Seq<u8>,
    scratch: Scratch,
    cloned: Reply,
    looked: Reply,
    dropped: Reply,
    rest: Log,
)
    requires
        nul_free(scratch.file@),
        nul_free(join_path(scratch.directory@, encode_utf8("clone"@))),
        cloned is Cloned,
        looked is Metadata,
        dropped is Unit,
    ensures
        ({
            let made = Reply::Scratch(Ok(scratch));
            let step = probe_protocol(
                heard(
                    made,
                    heard(
                        cloned,
                        if cloned matches Reply::Cloned(Ok(_)) {
                            heard(looked, heard(dropped, rest))
                        } else {
                            heard(dropped, rest)
                        },
                    ),
                ),
                source_directory,
                destination_parent,
            );
            &&& probe_protocol(Log::empty(), source_directory, destination_parent) == Step::<
                (),
            >::Ask(RequestView::Scratch { source_directory, destination_parent })
            &&& probe_protocol(
                heard(made, Log::empty()),
                source_directory,
                destination_parent,
            ) == Step::<()>::Ask(
                RequestView::Clone {
                    source: scratch.file@,
                    destination: join_path(scratch.directory@, encode_utf8("clone"@)),
                },
            )
            &&& if cloned matches Reply::Cloned(Ok(_)) && (looked matches Reply::Metadata(
                Ok(metadata),
            ) && metadata.kind == FileKind::File) {
                step matches Step::Done(_, left) && left == rest
            } else {
                step matches Step::Fail(_, left) && left == rest
            }
            &&& cloned matches Reply::Cloned(Err(_)) ==> probe_protocol(
                heard(made, heard(cloned, Log::empty())),
                source_directory,
                destination_parent,
            ) == Step::<()>::Ask(RequestView::DropScratch)
            &&& cloned matches Reply::Cloned(Ok(_)) ==> probe_protocol(
                heard(made, heard(cloned, heard(looked, Log::empty()))),
                source_directory,
                destination_parent,
            ) == Step::<()>::Ask(RequestView::DropScratch)
        }),
{
    broadcast use lemma_heard;

}

/// What cloning a file comes to: the length of the clone, where it was made and is a file.
pub proof fn law_what_cloning_comes_to(
    source: Seq<u8>,
    destination: Seq<u8>,
    cloned: Reply,
    looked: Reply,
    rest: Log,
)
    requires
        nul_free(source),
        nul_free(destination),
    ensures
        clone_file_protocol(Log::empty(), source, destination) == Step::<
            Result<u64, IoErrorView>,
        >::Ask(RequestView::Clone { source, destination }),
        cloned matches Reply::Cloned(Ok(_)) ==> {
            &&& clone_file_protocol(heard(cloned, Log::empty()), source, destination) == Step::<
                Result<u64, IoErrorView>,
            >::Ask(RequestView::SymlinkMetadata(destination))
            &&& looked matches Reply::Metadata(Ok(metadata)) ==> (clone_file_protocol(
                heard(cloned, heard(looked, rest)),
                source,
                destination,
            ) matches Step::Done(outcome, left) && left == rest && if metadata.kind
                == FileKind::File {
                outcome == Ok::<u64, IoErrorView>(metadata.length)
            } else {
                outcome is Err
            })
        },
        cloned matches Reply::Cloned(Err(_)) ==> (clone_file_protocol(
            heard(cloned, rest),
            source,
            destination,
        ) matches Step::Done(outcome, left) && left == rest && outcome is Err),
{
    broadcast use lemma_heard;

}

/// What Git is told to add a worktree: not to check anything out where changes are carried
/// over, and to create the branch where it is new.
pub proof fn law_what_git_is_told_to_add(
    branch: Seq<char>,
    path: Seq<char>,
    point: Seq<char>,
)
    ensures
        add_args(false, false, branch, path, point) == seq![
            "worktree"@,
            "add"@,
            "-b"@,
            branch,
            "--"@,
            path,
            point,
        ],
        add_args(true, false, branch, path, point) == seq![
            "worktree"@,
            "add"@,
            "--no-checkout"@,
            "-b"@,
            branch,
            "--"@,
            path,
            point,
        ],
        add_args(false, true, branch, path, point) == seq![
            "worktree"@,
            "add"@,
            "--"@,
            path,
            point,
        ],
        add_args(true, true, branch, path, point) == seq![
            "worktree"@,
            "add"@,
            "--no-checkout"@,
            "--"@,
            path,
            point,
        ],
{
    assert(add_args(false, false, branch, path, point) =~= seq![
        "worktree"@,
        "add"@,
        "-b"@,
        branch,
        "--"@,
        path,
        point,
    ]);
    assert(add_args(true, false, branch, path, point) =~= seq![
        "worktree"@,
        "add"@,
        "--no-checkout"@,
        "-b"@,
        branch,
        "--"@,
        path,
        point,
    ]);
    assert(add_args(false, true, branch, path, point) =~= seq![
        "worktree"@,
        "add"@,
        "--"@,
        path,
        point,
    ]);
    assert(add_args(true, true, branch, path, point) =~= seq![
        "worktree"@,
        "add"@,
        "--no-checkout"@,
        "--"@,
        path,
        point,
    ]);
}

/// What is said of what was cloned.
pub open spec fn counts(stats: Stats) -> Seq<char> {
    "{\"files\":"@ + decimal_text(stats.files as int) + ",\"logical_bytes\":"@ + decimal_text(
        stats.logical_bytes as int,
    ) + ",\"symlinks\":"@ + decimal_text(stats.symlinks as int) + "}"@
}

/// The answer to a creation: the path, or an object that says what was created from what.
pub proof fn law_what_is_answered_to_a_creation(
    o: NewOptionsView,
    src: Seq<u8>,
    branch: Seq<char>,
    commit: Seq<char>,
    dst: Seq<u8>,
    stats: Stats,
)
    requires
        valid_utf8(src),
        valid_utf8(dst),
    ensures
        !o.json ==> creation_answer(o, src, branch, commit, dst, stats) == Ok::<
            Seq<char>,
            ErrorView,
        >(decode_utf8(dst) + "\n"@),
        o.json ==> ({
            let mode = if o.no_clone {
                "none"@
            } else if o.dirty {
                "dirty"@
            } else {
                "ignored"@
            };
            creation_answer(o, src, branch, commit, dst, stats) == Ok::<Seq<char>, ErrorView>(
                "{\"branch\":"@ + quoted(branch) + ",\"clone\":"@ + counts(stats)
                    + ",\"head\":"@ + quoted(commit) + ",\"mode\":"@ + quoted(mode)
                    + ",\"path\":"@ + quoted(decode_utf8(dst)) + ",\"source\":"@ + quoted(
                    decode_utf8(src),
                ) + "}"@ + "\n"@,
            )
        }),
{
}

/// A failure to clone that says that the two places cannot share one counts as unsupported,
/// whatever else it is; any other keeps its kind. What was said of it stays.
pub proof fn law_what_a_failed_clone_counts_as(error: OsError)
    ensures
        clone_failure(error).kind == if error.errno == Errno::Other {
            error.kind
        } else {
            ErrorKind::Unsupported
        },
        clone_failure(error).text == error.text@,
{
}

} // verus!
