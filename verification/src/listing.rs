//! The registered worktrees as a table or as JSON.

use vstd::prelude::*;

use vstd::utf8::{decode_utf8, encode_utf8, encode_utf8_decode_utf8, is_char_boundary, valid_utf8};

use crate::errors::{plain, Error, ErrorView};
use crate::git::{path_str, Worktree, WorktreeView};
use crate::json;
use crate::json::{all_texts, json_worktrees};
use crate::text::{cat, pad, padded};

verus! {

/// How many bytes of a commit name are shown.
pub open spec fn shown_bytes(head: Seq<char>) -> int {
    if encode_utf8(head).len() < 8 {
        encode_utf8(head).len() as int
    } else {
        8
    }
}

/// Whether a commit name can be cut after the bytes that are shown.
pub open spec fn can_cut(head: Seq<char>) -> bool {
    is_char_boundary(encode_utf8(head), shown_bytes(head))
}

/// Whether every commit name can be cut.
pub open spec fn heads_can_be_cut(trees: Seq<WorktreeView>) -> bool {
    forall|k: int|
        0 <= k < trees.len() ==> ((#[trigger] trees[k]).head matches Some(head) ==> can_cut(head))
}

/// The beginning of a commit name.
pub open spec fn short_head(head: Seq<char>) -> Seq<char> {
    decode_utf8(encode_utf8(head).subrange(0, shown_bytes(head)))
}

pub open spec fn head_text(tree: WorktreeView) -> Seq<char> {
    match tree.head {
        Some(head) => short_head(head),
        None => "--------"@,
    }
}

pub open spec fn kind_text(tree: WorktreeView) -> Seq<char> {
    if tree.branch is Some {
        "branch"@
    } else if tree.bare {
        "bare"@
    } else {
        "detached"@
    }
}

pub open spec fn branch_text(tree: WorktreeView) -> Seq<char> {
    match tree.branch {
        Some(branch) => branch,
        None => "-"@,
    }
}

pub open spec fn status_text(tree: WorktreeView) -> Seq<char> {
    if tree.locked && tree.prunable {
        "locked,prunable"@
    } else if tree.locked {
        "locked"@
    } else if tree.prunable {
        "prunable"@
    } else {
        "-"@
    }
}

/// The number of characters of the longest text.
pub open spec fn widest(texts: Seq<Seq<char>>) -> nat
    decreases texts.len(),
{
    if texts.len() == 0 {
        0
    } else {
        let before = widest(texts.drop_last());
        if before < texts.last().len() {
            texts.last().len()
        } else {
            before
        }
    }
}

/// The columns that are filled up.
pub open spec fn path_column(trees: Seq<WorktreeView>) -> Seq<Seq<char>> {
    trees.map_values(|tree: WorktreeView| decode_utf8(tree.path))
}

pub open spec fn kind_column(trees: Seq<WorktreeView>) -> Seq<Seq<char>> {
    trees.map_values(|tree: WorktreeView| kind_text(tree))
}

pub open spec fn branch_column(trees: Seq<WorktreeView>) -> Seq<Seq<char>> {
    trees.map_values(|tree: WorktreeView| branch_text(tree))
}

/// How wide the columns are.
#[derive(Clone, Copy)]
pub struct Widths {
    pub path: usize,
    pub kind: usize,
    pub branch: usize,
}

/// One row of the table.
pub open spec fn row_text(tree: WorktreeView, path: nat, kind: nat, branch: nat) -> Seq<char> {
    (if tree.current {
        "* "@
    } else {
        "  "@
    }) + padded(decode_utf8(tree.path), path) + " "@ + head_text(tree) + " "@ + padded(
        kind_text(tree),
        kind,
    ) + " "@ + padded(branch_text(tree), branch) + " "@ + status_text(tree) + "\n"@
}

/// The rows of the table.
pub open spec fn rows_text(trees: Seq<WorktreeView>, path: nat, kind: nat, branch: nat) -> Seq<char>
    decreases trees.len(),
{
    if trees.len() == 0 {
        ""@
    } else {
        rows_text(trees.drop_last(), path, kind, branch) + row_text(
            trees.last(),
            path,
            kind,
            branch,
        )
    }
}

/// The worktrees as an answer: an array, or a table with aligned columns.
pub open spec fn list_answer(trees: Seq<WorktreeView>, json: bool) -> Result<Seq<char>, ErrorView> {
    if json {
        match json_worktrees(trees) {
            Ok(text) => Ok(text + "\n"@),
            Err(error) => Err(error),
        }
    } else if !all_texts(trees) {
        Err(plain("non-UTF-8 path"@))
    } else {
        Ok(
            rows_text(
                trees,
                widest(path_column(trees)),
                widest(kind_column(trees)),
                widest(branch_column(trees)),
            ),
        )
    }
}

fn cut_head(head: &str) -> (r: String)
    requires
        can_cut(head@),
    ensures
        r@ == short_head(head@),
{
    let n = head.as_bytes().len();
    let k = if n < 8 {
        n
    } else {
        8
    };
    let (shown, _) = head.split_at(k);
    proof {
        encode_utf8_decode_utf8(shown@);
    }
    shown.to_owned()
}

fn head_of(tree: &Worktree) -> (r: String)
    requires
        tree.deep_view().head matches Some(head) ==> can_cut(head),
    ensures
        r@ == head_text(tree.deep_view()),
{
    match &tree.head {
        Some(head) => cut_head(head.as_str()),
        None => "--------".to_owned(),
    }
}

fn kind_of(tree: &Worktree) -> (r: &'static str)
    ensures
        r@ == kind_text(tree.deep_view()),
{
    if tree.branch.is_some() {
        "branch"
    } else if tree.bare {
        "bare"
    } else {
        "detached"
    }
}

fn branch_of(tree: &Worktree) -> (r: &str)
    ensures
        r@ == branch_text(tree.deep_view()),
{
    match &tree.branch {
        Some(branch) => branch.as_str(),
        None => "-",
    }
}

fn status_of(tree: &Worktree) -> (r: &'static str)
    ensures
        r@ == status_text(tree.deep_view()),
{
    if tree.locked && tree.prunable {
        "locked,prunable"
    } else if tree.locked {
        "locked"
    } else if tree.prunable {
        "prunable"
    } else {
        "-"
    }
}

fn larger(a: usize, b: usize) -> (r: usize)
    ensures
        r == if a < b {
            b
        } else {
            a
        },
{
    if a < b {
        b
    } else {
        a
    }
}

/// The paths as texts, and how wide the columns are.
fn measure(trees: &Vec<Worktree>) -> (r: Result<(Vec<String>, Widths), Error>)
    ensures
        match r {
            Ok((paths, widths)) => {
                &&& all_texts(trees.deep_view())
                &&& paths.deep_view() == path_column(trees.deep_view())
                &&& widths.path == widest(path_column(trees.deep_view()))
                &&& widths.kind == widest(kind_column(trees.deep_view()))
                &&& widths.branch == widest(branch_column(trees.deep_view()))
            },
            Err(error) => !all_texts(trees.deep_view()) && error.deep_view() == plain(
                "non-UTF-8 path"@,
            ),
        },
{
    let ghost all = trees.deep_view();
    let mut paths: Vec<String> = Vec::new();
    let mut widths = Widths { path: 0, kind: 0, branch: 0 };
    let mut i: usize = 0;
    assert(paths.deep_view() =~= path_column(all.take(0)));
    while i < trees.len()
        invariant
            i <= trees@.len(),
            all == trees.deep_view(),
            forall|k: int| 0 <= k < i ==> valid_utf8(#[trigger] all[k].path),
            paths.deep_view() == path_column(all.take(i as int)),
            widths.path == widest(path_column(all.take(i as int))),
            widths.kind == widest(kind_column(all.take(i as int))),
            widths.branch == widest(branch_column(all.take(i as int))),
        decreases trees@.len() - i,
    {
        let tree = &trees[i];
        assert(all[i as int] == tree.deep_view());
        match path_str(tree.path.as_slice()) {
            Err(error) => {
                assert(!valid_utf8(all[i as int].path));
                return Err(error);
            },
            Ok(path) => {
                proof {
                    lemma_column_grows(all, i as int);
                }
                widths.path = larger(widths.path, path.as_str().unicode_len());
                widths.kind = larger(widths.kind, kind_of(tree).unicode_len());
                widths.branch = larger(widths.branch, branch_of(tree).unicode_len());
                let ghost before = paths.deep_view();
                let ghost text = path@;
                paths.push(path);
                assert(paths.deep_view() =~= before.push(text));
            },
        }
        i = i + 1;
    }
    assert(all.take(i as int) =~= all);
    Ok((paths, widths))
}

proof fn lemma_column_grows(all: Seq<WorktreeView>, i: int)
    requires
        0 <= i < all.len(),
    ensures
        path_column(all.take(i + 1)) == path_column(all.take(i)).push(decode_utf8(all[i].path)),
        kind_column(all.take(i + 1)) == kind_column(all.take(i)).push(kind_text(all[i])),
        branch_column(all.take(i + 1)) == branch_column(all.take(i)).push(branch_text(all[i])),
        path_column(all.take(i + 1)).drop_last() == path_column(all.take(i)),
        kind_column(all.take(i + 1)).drop_last() == kind_column(all.take(i)),
        branch_column(all.take(i + 1)).drop_last() == branch_column(all.take(i)),
{
    assert(path_column(all.take(i + 1)) =~= path_column(all.take(i)).push(
        decode_utf8(all[i].path),
    ));
    assert(kind_column(all.take(i + 1)) =~= kind_column(all.take(i)).push(kind_text(all[i])));
    assert(branch_column(all.take(i + 1)) =~= branch_column(all.take(i)).push(branch_text(all[i])));
    assert(path_column(all.take(i + 1)).drop_last() =~= path_column(all.take(i)));
    assert(kind_column(all.take(i + 1)).drop_last() =~= kind_column(all.take(i)));
    assert(branch_column(all.take(i + 1)).drop_last() =~= branch_column(all.take(i)));
}

fn row(tree: &Worktree, path: &str, widths: Widths) -> (r: String)
    requires
        path@ == decode_utf8(tree.path@),
        tree.deep_view().head matches Some(head) ==> can_cut(head),
    ensures
        r@ == row_text(
            tree.deep_view(),
            widths.path as nat,
            widths.kind as nat,
            widths.branch as nat,
        ),
{
    let mut r = if tree.current {
        "* ".to_owned()
    } else {
        "  ".to_owned()
    };
    r.append(pad(path, widths.path).as_str());
    r.append(" ");
    r.append(head_of(tree).as_str());
    r.append(" ");
    r.append(pad(kind_of(tree), widths.kind).as_str());
    r.append(" ");
    r.append(pad(branch_of(tree), widths.branch).as_str());
    r.append(" ");
    r.append(status_of(tree));
    r.append("\n");
    r
}

/// The worktrees as an answer: an array, or a table with aligned columns.
pub fn list(trees: &Vec<Worktree>, json: bool) -> (r: Result<String, Error>)
    requires
        json || heads_can_be_cut(trees.deep_view()),
    ensures
        match list_answer(trees.deep_view(), json) {
            Ok(text) => r matches Ok(t) && t@ == text,
            Err(error) => r matches Err(e) && e.deep_view() == error,
        },
{
    if json {
        return match json::worktrees(trees) {
            Ok(text) => Ok(cat(text.as_str(), "\n")),
            Err(error) => Err(error),
        };
    }
    let ghost all = trees.deep_view();
    match measure(trees) {
        Err(error) => Err(error),
        Ok((paths, widths)) => {
            let mut r = "".to_owned();
            let mut i: usize = 0;
            assert(all.take(0).len() == 0);
            assert(paths@.len() == paths.deep_view().len());
            while i < trees.len()
                invariant
                    i <= trees@.len(),
                    all == trees.deep_view(),
                    heads_can_be_cut(all),
                    paths@.len() == trees@.len(),
                    paths.deep_view() == path_column(all),
                    r@ == rows_text(
                        all.take(i as int),
                        widths.path as nat,
                        widths.kind as nat,
                        widths.branch as nat,
                    ),
                decreases trees@.len() - i,
            {
                proof {
                    assert(all[i as int] == trees@[i as int].deep_view());
                    assert(paths.deep_view()[i as int] == paths@[i as int]@);
                    assert(path_column(all)[i as int] == decode_utf8(all[i as int].path));
                    assert(all.take(i + 1).drop_last() =~= all.take(i as int));
                    assert(all.take(i + 1).last() == all[i as int]);
                }
                r.append(row(&trees[i], paths[i].as_str(), widths).as_str());
                i = i + 1;
            }
            assert(all.take(i as int) =~= all);
            Ok(r)
        },
    }
}

/// Whether every commit name can be cut.
pub fn can_cut_heads(trees: &Vec<Worktree>) -> (r: bool)
    ensures
        r == heads_can_be_cut(trees.deep_view()),
{
    let ghost all = trees.deep_view();
    let mut i: usize = 0;
    while i < trees.len()
        invariant
            i <= trees@.len(),
            all == trees.deep_view(),
            forall|k: int|
                0 <= k < i ==> ((#[trigger] all[k]).head matches Some(head) ==> can_cut(head)),
        decreases trees@.len() - i,
    {
        assert(all[i as int] == trees@[i as int].deep_view());
        if let Some(head) = &trees[i].head {
            let n = head.as_str().as_bytes().len();
            let k = if n < 8 {
                n
            } else {
                8
            };
            if !head.as_str().is_char_boundary(k) {
                assert(!can_cut(head@));
                return false;
            }
        }
        i = i + 1;
    }
    true
}

} // verus!
