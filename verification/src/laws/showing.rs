//! What is shown of worktrees, of numbers and of failures.

use vstd::prelude::*;

use vstd::utf8::{decode_utf8, encode_utf8};

use crate::encoding::lossy;
use crate::errors::{chain_text, plain, status_of, ErrorView};
use crate::git::{failure_detail, run_protocol, WorktreeView};
use crate::json::{all_texts, json_elements, json_worktree, quoted};
use crate::laws::configuration::each_ended;
use crate::laws::course::git;
use crate::laws::events::succeeded;
use crate::laws::furnishing::{heard, lemma_heard};
use crate::listing::{
    branch_column, can_cut, kind_column, list_answer, path_column, row_text, rows_text, short_head,
    shown_bytes, widest,
};
use crate::sequences::joined;
use crate::session::{GitContext, Log, Output, Reply, RequestView, Step};
use crate::text::{decimal_text, digit, padded, trimmed};

verus! {

/// A text filled up with spaces: the text itself, and nothing but spaces behind it.
pub proof fn law_padding_adds_spaces(text: Seq<char>, width: nat)
    ensures
        padded(text, width).take(text.len() as int) == text,
        padded(text, width).len() == if text.len() < width {
            width
        } else {
            text.len()
        },
        forall|i: int| text.len() <= i < padded(text, width).len() ==> padded(text, width)[i] == ' ',
{
    assert(padded(text, width).take(text.len() as int) =~= text);
}

/// A column is as wide as its widest text, and no wider.
pub proof fn law_columns_are_as_wide_as_needed(texts: Seq<Seq<char>>)
    ensures
        forall|k: int| 0 <= k < texts.len() ==> (#[trigger] texts[k]).len() <= widest(texts),
        texts.len() > 0 ==> exists|k: int|
            0 <= k < texts.len() && (#[trigger] texts[k]).len() == widest(texts),
        texts.len() == 0 ==> widest(texts) == 0,
    decreases texts.len(),
{
    if texts.len() > 0 {
        let front = texts.drop_last();
        law_columns_are_as_wide_as_needed(front);
        assert forall|k: int| 0 <= k < texts.len() implies (#[trigger] texts[k]).len() <= widest(
            texts,
        ) by {
            if k < front.len() {
                assert(front[k].len() <= widest(front));
                assert(front[k] == texts[k]);
            }
        }
        if widest(front) < texts.last().len() || front.len() == 0 {
            assert(texts[texts.len() - 1].len() == widest(texts));
        } else {
            let k = choose|k: int|
                0 <= k < front.len() && (#[trigger] front[k]).len() == widest(front);
            assert(texts[k] == front[k]);
        }
    }
}

/// Of a commit name in ASCII the first eight characters are shown, or all where there are
/// no more.
pub proof fn law_eight_characters_of_a_commit_are_shown(head: Seq<char>)
    requires
        vstd::utf8::is_ascii_chars(head),
    ensures
        short_head(head) == if head.len() < 8 {
            head
        } else {
            head.take(8)
        },
{
    vstd::utf8::is_ascii_chars_encode_utf8(head);
    let some = if head.len() < 8 {
        head
    } else {
        head.take(8)
    };
    assert(vstd::utf8::is_ascii_chars(some)) by {
        assert forall|i: int| 0 <= i < some.len() implies #[trigger] some[i] == head[i] by {}
    }
    vstd::utf8::is_ascii_chars_encode_utf8(some);
    let n = shown_bytes(head);
    assert(encode_utf8(head).subrange(0, n) =~= encode_utf8(some));
    vstd::utf8::encode_utf8_decode_utf8(some);
}

/// What a row says of a worktree: whether it is the current one, its path, its commit, what
/// is checked out there, its branch, and how it stands.
pub open spec fn shown(tree: WorktreeView, path: nat, kind: nat, branch: nat) -> Seq<char> {
    let mark = if tree.current {
        "* "@
    } else {
        "  "@
    };
    let head = match tree.head {
        Some(head) => short_head(head),
        None => "--------"@,
    };
    let checked_out = match tree.branch {
        Some(_) => "branch"@,
        None => if tree.bare {
            "bare"@
        } else {
            "detached"@
        },
    };
    let name = match tree.branch {
        Some(branch) => branch,
        None => "-"@,
    };
    let status = match (tree.locked, tree.prunable) {
        (true, true) => "locked,prunable"@,
        (true, false) => "locked"@,
        (false, true) => "prunable"@,
        (false, false) => "-"@,
    };
    mark + padded(decode_utf8(tree.path), path) + " "@ + head + " "@ + padded(checked_out, kind)
        + " "@ + padded(name, branch) + " "@ + status
}

proof fn lemma_rows(trees: Seq<WorktreeView>, path: nat, kind: nat, branch: nat)
    ensures
        rows_text(trees, path, kind, branch) == each_ended(
            trees.map_values(|tree: WorktreeView| shown(tree, path, kind, branch)),
            '\n',
        ),
    decreases trees.len(),
{
    let f = |tree: WorktreeView| shown(tree, path, kind, branch);
    let lines = trees.map_values(f);
    if trees.len() == 0 {
        reveal_strlit("");
        assert(rows_text(trees, path, kind, branch) =~= Seq::<char>::empty());
    } else {
        let front = trees.drop_last();
        lemma_rows(front, path, kind, branch);
        assert(lines =~= front.map_values(f).push(f(trees.last())));
        lemma_ended_push(front.map_values(f), f(trees.last()), '\n');
        reveal_strlit("\n");
        assert("\n"@ =~= seq!['\n']);
        assert(row_text(trees.last(), path, kind, branch) =~= f(trees.last()) + seq!['\n']);
        assert(rows_text(trees, path, kind, branch) =~= each_ended(front.map_values(f), '\n') + (f(
            trees.last(),
        ) + seq!['\n']));
    }
}

proof fn lemma_ended_push<T>(items: Seq<Seq<T>>, last: Seq<T>, x: T)
    ensures
        each_ended(items.push(last), x) == each_ended(items, x) + (last + seq![x]),
    decreases items.len(),
{
    let all = items.push(last);
    if items.len() == 0 {
        assert(all.drop_first() =~= Seq::<Seq<T>>::empty());
        reveal_with_fuel(each_ended, 2);
        assert(each_ended(all, x) =~= each_ended(items, x) + (last + seq![x]));
    } else {
        assert(all.drop_first() =~= items.drop_first().push(last));
        lemma_ended_push(items.drop_first(), last, x);
        assert(each_ended(all, x) =~= each_ended(items, x) + (last + seq![x]));
    }
}

/// The table has one line for each worktree, in their order, and each column is as wide as
/// its widest text.
pub proof fn law_every_worktree_has_its_row(trees: Seq<WorktreeView>)
    ensures
        all_texts(trees) ==> list_answer(trees, false) == Ok::<Seq<char>, ErrorView>(
            each_ended(
                trees.map_values(
                    |tree: WorktreeView|
                        shown(
                            tree,
                            widest(path_column(trees)),
                            widest(kind_column(trees)),
                            widest(branch_column(trees)),
                        ),
                ),
                '\n',
            ),
        ),
        !all_texts(trees) ==> list_answer(trees, false) is Err && list_answer(trees, true) is Err,
{
    lemma_rows(
        trees,
        widest(path_column(trees)),
        widest(kind_column(trees)),
        widest(branch_column(trees)),
    );
}

/// A text or nothing, as an object has it.
pub open spec fn text_or_null(text: Option<Seq<char>>) -> Seq<char> {
    match text {
        Some(text) => quoted(text),
        None => "null"@,
    }
}

/// Yes or no, as an object has it.
pub open spec fn yes_or_no(b: bool) -> Seq<char> {
    if b {
        "true"@
    } else {
        "false"@
    }
}

/// What an object says of a worktree.
pub open spec fn described(tree: WorktreeView) -> Seq<char> {
    "{\"path\":"@ + quoted(decode_utf8(tree.path)) + ",\"branch\":"@ + text_or_null(tree.branch)
        + ",\"head\":"@ + text_or_null(tree.head) + ",\"current\":"@ + yes_or_no(tree.current)
        + ",\"primary\":"@ + yes_or_no(tree.primary) + ",\"detached\":"@ + yes_or_no(tree.detached)
        + ",\"locked\":"@ + yes_or_no(tree.locked) + ",\"lock_reason\":"@ + text_or_null(
        tree.lock_reason,
    ) + ",\"prunable\":"@ + yes_or_no(tree.prunable) + ",\"prune_reason\":"@ + text_or_null(
        tree.prune_reason,
    ) + ",\"bare\":"@ + yes_or_no(tree.bare) + "}"@
}

proof fn lemma_joined_push<T>(items: Seq<Seq<T>>, last: Seq<T>, x: T)
    requires
        items.len() > 0,
    ensures
        joined(items.push(last), x) == joined(items, x) + seq![x] + last,
    decreases items.len(),
{
    let all = items.push(last);
    assert(all.drop_first() =~= items.drop_first().push(last));
    if items.len() == 1 {
        reveal_with_fuel(joined, 2);
        assert(all.drop_first()[0] == last);
        assert(joined(all, x) =~= joined(items, x) + seq![x] + last);
    } else {
        lemma_joined_push(items.drop_first(), last, x);
        assert(joined(all, x) =~= joined(items, x) + seq![x] + last);
    }
}

proof fn lemma_elements(trees: Seq<WorktreeView>)
    requires
        trees.len() > 0,
    ensures
        json_elements(trees) == joined(
            trees.map_values(|tree: WorktreeView| described(tree)),
            ',',
        ),
    decreases trees.len(),
{
    let f = |tree: WorktreeView| described(tree);
    let all = trees.map_values(f);
    if trees.len() == 1 {
        assert(all[0] == f(trees[0]));
        assert(json_worktree(trees[0]) == f(trees[0]));
    } else {
        let front = trees.drop_last();
        lemma_elements(front);
        assert(all =~= front.map_values(f).push(f(trees.last())));
        lemma_joined_push(front.map_values(f), f(trees.last()), ',');
        reveal_strlit(",");
        assert(","@ =~= seq![',']);
        assert(json_worktree(trees.last()) == f(trees.last()));
        assert(json_elements(trees) =~= joined(front.map_values(f), ',') + seq![','] + f(
            trees.last(),
        ));
    }
}

/// The array has one object for each worktree, in their order, with a comma between
/// neighbours.
pub proof fn law_every_worktree_has_its_object(trees: Seq<WorktreeView>)
    requires
        all_texts(trees),
    ensures
        trees.len() > 0 ==> list_answer(trees, true) == Ok::<Seq<char>, ErrorView>(
            "["@ + joined(trees.map_values(|tree: WorktreeView| described(tree)), ',') + "]"@
                + "\n"@,
        ),
        trees.len() == 0 ==> list_answer(trees, true) == Ok::<Seq<char>, ErrorView>(
            "[]"@ + "\n"@,
        ),
{
    if trees.len() > 0 {
        lemma_elements(trees);
    } else {
        reveal_strlit("");
        reveal_strlit("[");
        reveal_strlit("]");
        reveal_strlit("[]");
        assert("["@ + ""@ + "]"@ =~= "[]"@);
    }
}

/// The value of a digit.
pub open spec fn digit_value(c: char) -> int {
    c as int - 48
}

/// The number that digits write.
pub open spec fn number_of(text: Seq<char>) -> int
    decreases text.len(),
{
    if text.len() == 0 {
        0
    } else {
        10 * number_of(text.drop_last()) + digit_value(text.last())
    }
}

/// A number is written in digits that give it back, without a zero before them.
pub proof fn law_numbers_are_read_as_written(n: int)
    requires
        0 <= n,
    ensures
        number_of(decimal_text(n)) == n,
        decimal_text(n).len() > 0,
        n > 0 ==> decimal_text(n)[0] != '0',
        forall|i: int| 0 <= i < decimal_text(n).len() ==> '0' <= #[trigger] decimal_text(n)[i] <= '9',
    decreases n,
{
    if n < 10 {
        let text = decimal_text(n);
        assert(text.drop_last() =~= Seq::<char>::empty());
        reveal_with_fuel(number_of, 2);
        assert(digit_value(digit(n)) == n);
    } else {
        law_numbers_are_read_as_written(n / 10);
        let text = decimal_text(n);
        assert(text.drop_last() =~= decimal_text(n / 10));
        assert(text.last() == digit(n % 10));
        assert(digit_value(digit(n % 10)) == n % 10);
        assert(text[0] == decimal_text(n / 10)[0]);
    }
}

proof fn lemma_chain_front(first: Seq<char>, chain: Seq<Seq<char>>)
    requires
        chain.len() > 0,
    ensures
        chain_text(seq![first] + chain) == first + ": "@ + chain_text(chain),
    decreases chain.len(),
{
    let all = seq![first] + chain;
    if chain.len() == 1 {
        reveal_with_fuel(chain_text, 2);
        assert(all.drop_last() =~= seq![first]);
        assert(chain_text(all) =~= first + ": "@ + chain_text(chain));
    } else {
        lemma_chain_front(first, chain.drop_last());
        assert(all.drop_last() =~= seq![first] + chain.drop_last());
        assert(chain_text(all) =~= first + ": "@ + chain_text(chain));
    }
}

/// A failure that was met while doing something tells of that first, and then of itself. It
/// stays a failure of the same sort, and so does the exit status.
pub proof fn law_contexts_are_told_first(error: ErrorView, context: Seq<char>)
    ensures
        error.chain.len() > 0 ==> error.wrap(context).message() == context + ": "@
            + error.message(),
        error.wrap(context).headline() == context,
        error.wrap(context).usage == error.usage,
        status_of(error.wrap(context)) == status_of(error),
        status_of(error) == if error.usage {
            2int
        } else {
            1int
        },
        forall|text: Seq<char>| (#[trigger] plain(text)).message() == text,
{
    if error.chain.len() > 0 {
        lemma_chain_front(context, error.chain);
    }
}

/// What Git writes as diagnostics is passed on before its answer counts. A command that
/// failed is a failure that names the command.
pub proof fn law_diagnostics_are_passed_on(
    context: GitContext,
    cwd: Seq<u8>,
    args: Seq<Seq<char>>,
    out: Output,
    reported: Reply,
    rest: Log,
)
    requires
        args.len() > 0,
    ensures
        out.success && out.stderr@.len() > 0 ==> {
            &&& run_protocol(heard(git(out), Log::empty()), context, cwd, args) == Step::<
                Seq<u8>,
            >::Ask(RequestView::Report(out.stderr@))
            &&& succeeded(reported) ==> run_protocol(
                heard(git(out), heard(reported, rest)),
                context,
                cwd,
                args,
            ) == Step::Done(out.stdout@, rest)
            &&& reported matches Reply::Unit(Err(_)) ==> run_protocol(
                heard(git(out), heard(reported, rest)),
                context,
                cwd,
                args,
            ) is Fail
        },
        !out.success ==> (run_protocol(heard(git(out), rest), context, cwd, args) matches Step::Fail(
            error,
            left,
        ) && left == rest && error.headline().take(("git "@ + args[0] + ": "@).len() as int)
            == "git "@ + args[0] + ": "@),
{
    broadcast use lemma_heard;

    if !out.success {
        let first = "git "@ + args[0] + ": "@;
        let whole = first + failure_detail(out);
        assert(whole.take(first.len() as int) =~= first);
        assert(run_protocol(heard(git(out), rest), context, cwd, args) == Step::<Seq<u8>>::Fail(
            plain(whole),
            rest,
        ));
    }
}

/// A command that failed says what it wrote as diagnostics, without the white space around
/// it; where that is nothing, what it wrote as its answer; and where that is nothing
/// either, how it ended.
pub proof fn law_what_a_failed_command_says(
    context: GitContext,
    cwd: Seq<u8>,
    args: Seq<Seq<char>>,
    out: Output,
    rest: Log,
)
    requires
        args.len() > 0,
        !out.success,
    ensures
        ({
            let said = trimmed(lossy(out.stderr@));
            let wrote = trimmed(lossy(out.stdout@));
            let detail = if said.len() > 0 {
                said
            } else if wrote.len() > 0 {
                wrote
            } else {
                out.status@
            };
            run_protocol(heard(git(out), rest), context, cwd, args) == Step::<Seq<u8>>::Fail(
                plain("git "@ + args[0] + ": "@ + detail),
                rest,
            )
        }),
{
    broadcast use lemma_heard;

}

/// A commit name in ASCII can always be shown.
pub proof fn law_commit_names_can_be_cut(head: Seq<char>)
    requires
        vstd::utf8::is_ascii_chars(head),
    ensures
        can_cut(head),
{
    vstd::utf8::is_ascii_chars_encode_utf8(head);
    vstd::utf8::encode_utf8_valid_utf8(head);
    let bytes = encode_utf8(head);
    let n = shown_bytes(head);
    if n < bytes.len() {
        vstd::utf8::is_char_boundary_iff_not_is_continuation_byte(bytes, n);
        assert(bytes[n] == head[n] as u8);
    } else {
        vstd::utf8::is_char_boundary_start_end_of_seq(bytes);
    }
}

} // verus!
