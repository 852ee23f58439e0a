//! Answers as JSON texts.

use vstd::prelude::*;

use vstd::utf8::{decode_utf8, valid_utf8};

use crate::clone::Stats;
use crate::encoding::read_utf8;
use crate::errors::{failure, plain, Error, ErrorView};
use crate::git::{Worktree, WorktreeView};
use crate::text::{decimal, decimal_text};

verus! {

/// A hexadecimal digit.
pub open spec fn hex_digit(n: int) -> char {
    if n < 10 {
        (48 + n) as char
    } else {
        (87 + n) as char
    }
}

/// A character inside a JSON string.
pub open spec fn escaped(c: char) -> Seq<char> {
    if c == '"' {
        seq!['\\', '"']
    } else if c == '\\' {
        seq!['\\', '\\']
    } else if c == '\u{8}' {
        seq!['\\', 'b']
    } else if c == '\t' {
        seq!['\\', 't']
    } else if c == '\n' {
        seq!['\\', 'n']
    } else if c == '\u{c}' {
        seq!['\\', 'f']
    } else if c == '\r' {
        seq!['\\', 'r']
    } else if (c as int) < 32 {
        seq!['\\', 'u', '0', '0', hex_digit(c as int / 16), hex_digit(c as int % 16)]
    } else {
        seq![c]
    }
}

/// The characters inside a JSON string.
pub open spec fn escaped_text(text: Seq<char>) -> Seq<char>
    decreases text.len(),
{
    if text.len() == 0 {
        Seq::empty()
    } else {
        escaped_text(text.drop_last()) + escaped(text.last())
    }
}

/// A text as a JSON string.
pub open spec fn quoted(text: Seq<char>) -> Seq<char> {
    seq!['"'] + escaped_text(text) + seq!['"']
}

/// Calls `serde_json::to_string` on a string: the text between quotation marks,
/// with quotation marks, backslashes and control characters escaped and every
/// other character as it is. On a string the call does not fail.
#[verifier::external_body]
fn quote(text: &str) -> (r: String)
    ensures
        r@ == quoted(text@),
{
    serde_json::to_string(text).unwrap()
}

pub open spec fn json_option(text: Option<Seq<char>>) -> Seq<char> {
    match text {
        Some(text) => quoted(text),
        None => "null"@,
    }
}

fn option_text(text: &Option<String>) -> (r: String)
    ensures
        r@ == json_option(text.deep_view()),
{
    match text {
        Some(text) => quote(text.as_str()),
        None => "null".to_owned(),
    }
}

pub open spec fn json_bool(b: bool) -> Seq<char> {
    if b {
        "true"@
    } else {
        "false"@
    }
}

fn bool_text(b: bool) -> (r: &'static str)
    ensures
        r@ == json_bool(b),
{
    if b {
        "true"
    } else {
        "false"
    }
}

/// A worktree as a JSON object.
pub open spec fn json_worktree(tree: WorktreeView) -> Seq<char> {
    "{\"path\":"@ + quoted(decode_utf8(tree.path)) + ",\"branch\":"@ + json_option(tree.branch)
        + ",\"head\":"@ + json_option(tree.head) + ",\"current\":"@ + json_bool(tree.current)
        + ",\"primary\":"@ + json_bool(tree.primary) + ",\"detached\":"@ + json_bool(tree.detached)
        + ",\"locked\":"@ + json_bool(tree.locked) + ",\"lock_reason\":"@ + json_option(
        tree.lock_reason,
    ) + ",\"prunable\":"@ + json_bool(tree.prunable) + ",\"prune_reason\":"@ + json_option(
        tree.prune_reason,
    ) + ",\"bare\":"@ + json_bool(tree.bare) + "}"@
}

fn worktree_text(tree: &Worktree, path: &str) -> (r: String)
    requires
        valid_utf8(tree.path@),
        path@ == decode_utf8(tree.path@),
    ensures
        r@ == json_worktree(tree.deep_view()),
{
    let mut r = "{\"path\":".to_owned();
    r.append(quote(path).as_str());
    r.append(",\"branch\":");
    r.append(option_text(&tree.branch).as_str());
    r.append(",\"head\":");
    r.append(option_text(&tree.head).as_str());
    r.append(",\"current\":");
    r.append(bool_text(tree.current));
    r.append(",\"primary\":");
    r.append(bool_text(tree.primary));
    r.append(",\"detached\":");
    r.append(bool_text(tree.detached));
    r.append(",\"locked\":");
    r.append(bool_text(tree.locked));
    r.append(",\"lock_reason\":");
    r.append(option_text(&tree.lock_reason).as_str());
    r.append(",\"prunable\":");
    r.append(bool_text(tree.prunable));
    r.append(",\"prune_reason\":");
    r.append(option_text(&tree.prune_reason).as_str());
    r.append(",\"bare\":");
    r.append(bool_text(tree.bare));
    r.append("}");
    r
}

/// Whether every path is a text.
pub open spec fn all_texts(trees: Seq<WorktreeView>) -> bool {
    forall|k: int| 0 <= k < trees.len() ==> valid_utf8(#[trigger] trees[k].path)
}

/// The elements of a JSON array of worktrees.
pub open spec fn json_elements(trees: Seq<WorktreeView>) -> Seq<char>
    decreases trees.len(),
{
    if trees.len() == 0 {
        ""@
    } else if trees.len() == 1 {
        json_worktree(trees[0])
    } else {
        json_elements(trees.drop_last()) + ","@ + json_worktree(trees.last())
    }
}

/// Worktrees as a JSON array.
pub open spec fn json_worktrees(trees: Seq<WorktreeView>) -> Result<Seq<char>, ErrorView> {
    if all_texts(trees) {
        Ok("["@ + json_elements(trees) + "]"@)
    } else {
        Err(plain("path contains invalid UTF-8 characters"@))
    }
}

/// Worktrees as a JSON array.
pub fn worktrees(trees: &Vec<Worktree>) -> (r: Result<String, Error>)
    ensures
        match json_worktrees(trees.deep_view()) {
            Ok(text) => r matches Ok(t) && t@ == text,
            Err(error) => r matches Err(e) && e.deep_view() == error,
        },
{
    let ghost all = trees.deep_view();
    let mut elements = "".to_owned();
    let mut i: usize = 0;
    assert(all.take(0).len() == 0);
    while i < trees.len()
        invariant
            i <= trees@.len(),
            all == trees.deep_view(),
            elements@ == json_elements(all.take(i as int)),
            forall|k: int| 0 <= k < i ==> valid_utf8(#[trigger] all[k].path),
        decreases trees@.len() - i,
    {
        assert(all[i as int] == trees@[i as int].deep_view());
        match read_utf8(trees[i].path.as_slice()) {
            Err(_) => {
                assert(!valid_utf8(all[i as int].path));
                return Err(failure("path contains invalid UTF-8 characters"));
            },
            Ok(path) => {
                let element = worktree_text(&trees[i], path.as_str());
                let ghost some = all.take(i + 1);
                assert(some.last() == all[i as int]);
                assert(some.drop_last() =~= all.take(i as int));
                if i == 0 {
                    elements = element;
                } else {
                    elements.append(",");
                    elements.append(element.as_str());
                }
            },
        }
        i = i + 1;
    }
    assert(all.take(i as int) =~= all);
    let mut r = "[".to_owned();
    r.append(elements.as_str());
    r.append("]");
    Ok(r)
}

/// What was cloned, as a JSON object.
pub open spec fn json_stats(stats: Stats) -> Seq<char> {
    "{\"files\":"@ + decimal_text(stats.files as int) + ",\"logical_bytes\":"@ + decimal_text(
        stats.logical_bytes as int,
    ) + ",\"symlinks\":"@ + decimal_text(stats.symlinks as int) + "}"@
}

fn stats_text(stats: Stats) -> (r: String)
    ensures
        r@ == json_stats(stats),
{
    let mut r = "{\"files\":".to_owned();
    r.append(decimal(stats.files).as_str());
    r.append(",\"logical_bytes\":");
    r.append(decimal(stats.logical_bytes).as_str());
    r.append(",\"symlinks\":");
    r.append(decimal(stats.symlinks).as_str());
    r.append("}");
    r
}

/// A created worktree as a JSON object.
pub open spec fn json_creation(
    path: Seq<char>,
    branch: Seq<char>,
    head: Seq<char>,
    source: Seq<char>,
    mode: Seq<char>,
    stats: Stats,
) -> Seq<char> {
    "{\"branch\":"@ + quoted(branch) + ",\"clone\":"@ + json_stats(stats) + ",\"head\":"@ + quoted(
        head,
    ) + ",\"mode\":"@ + quoted(mode) + ",\"path\":"@ + quoted(path) + ",\"source\":"@ + quoted(source)
        + "}"@
}

/// A created worktree as a JSON object.
pub fn creation(path: &str, branch: &str, head: &str, source: &str, mode: &str, stats: Stats) -> (r:
    String)
    ensures
        r@ == json_creation(path@, branch@, head@, source@, mode@, stats),
{
    let mut r = "{\"branch\":".to_owned();
    r.append(quote(branch).as_str());
    r.append(",\"clone\":");
    r.append(stats_text(stats).as_str());
    r.append(",\"head\":");
    r.append(quote(head).as_str());
    r.append(",\"mode\":");
    r.append(quote(mode).as_str());
    r.append(",\"path\":");
    r.append(quote(path).as_str());
    r.append(",\"source\":");
    r.append(quote(source).as_str());
    r.append("}");
    r
}

/// A path as a JSON object.
pub open spec fn json_path(path: Seq<char>) -> Seq<char> {
    "{\"path\":"@ + quoted(path) + "}"@
}

/// A path as a JSON object.
pub fn path_object(path: &str) -> (r: String)
    ensures
        r@ == json_path(path@),
{
    let mut r = "{\"path\":".to_owned();
    r.append(quote(path).as_str());
    r.append("}");
    r
}

} // verus!
