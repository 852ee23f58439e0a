//! What Git writes of worktrees is read back.

use vstd::prelude::*;

use vstd::utf8::{decode_utf8, encode_utf8, valid_utf8};

use crate::git::{blank, field_parts, listed_worktrees, with_field, WorktreeView};
use crate::laws::records::{lemma_listing_read, listing_text, read_alone, whole_record};
use crate::sequences::lemma_first_is;

verus! {

/// A field with a value.
pub open spec fn valued(name: Seq<char>, value: Seq<char>) -> Seq<u8> {
    encode_utf8(name + " "@ + value)
}

/// A field where there is one.
pub open spec fn perhaps(there: bool, field: Seq<u8>) -> Seq<Seq<u8>> {
    if there {
        seq![field]
    } else {
        Seq::empty()
    }
}

/// A mark with the reason for it.
pub open spec fn reasoned(
    there: bool,
    name: Seq<char>,
    reason: Option<Seq<char>>,
) -> Seq<Seq<u8>> {
    perhaps(
        there,
        match reason {
            Some(reason) => valued(name, reason),
            None => encode_utf8(name),
        },
    )
}

/// What Git writes of a worktree, field by field.
pub open spec fn written(tree: WorktreeView) -> Seq<Seq<u8>> {
    seq![valued("worktree"@, decode_utf8(tree.path))] + perhaps(
        tree.head is Some,
        valued("HEAD"@, tree.head->0),
    ) + perhaps(tree.branch is Some, valued("branch"@, "refs/heads/"@ + tree.branch->0)) + perhaps(
        tree.bare,
        encode_utf8("bare"@),
    ) + perhaps(tree.detached, encode_utf8("detached"@)) + reasoned(
        tree.locked,
        "locked"@,
        tree.lock_reason,
    ) + reasoned(tree.prunable, "prunable"@, tree.prune_reason)
}

/// Whether a worktree can be written: its path is a text, a reason comes only with its mark,
/// and no field holds a zero byte. Which one is current or the main one is not written.
pub open spec fn writable(tree: WorktreeView) -> bool {
    &&& tree.path.len() > 0
    &&& valid_utf8(tree.path)
    &&& tree.lock_reason is Some ==> tree.locked
    &&& tree.prune_reason is Some ==> tree.prunable
    &&& !tree.current
    &&& !tree.primary
    &&& forall|k: int| 0 <= k < written(tree).len() ==> !(#[trigger] written(tree)[k]).contains(0u8)
}

/// Whether a name holds no space.
pub open spec fn spaceless(name: Seq<char>) -> bool {
    forall|i: int| 0 <= i < name.len() ==> name[i] != ' '
}

proof fn lemma_valued(name: Seq<char>, value: Seq<char>)
    requires
        spaceless(name),
        name.len() > 0,
    ensures
        valid_utf8(valued(name, value)),
        valued(name, value).len() > 0,
        field_parts(decode_utf8(valued(name, value))) == (name, Some(value)),
{
    let text = name + " "@ + value;
    vstd::utf8::encode_utf8_valid_utf8(text);
    vstd::utf8::encode_utf8_decode_utf8(text);
    reveal_strlit(" ");
    let n = name.len() as int;
    assert forall|j: int| 0 <= j < n implies text[j] != ' ' by {
        assert(text[j] == name[j]);
    }
    assert(text[n] == ' ');
    lemma_first_is(text, ' ', n);
    assert(text.take(n) =~= name);
    assert(text.skip(n + 1) =~= value);
    lemma_some_bytes(text);
}

proof fn lemma_flag(name: Seq<char>)
    requires
        spaceless(name),
        name.len() > 0,
    ensures
        valid_utf8(encode_utf8(name)),
        encode_utf8(name).len() > 0,
        field_parts(decode_utf8(encode_utf8(name))) == (name, None::<Seq<char>>),
{
    vstd::utf8::encode_utf8_valid_utf8(name);
    vstd::utf8::encode_utf8_decode_utf8(name);
    lemma_first_is(name, ' ', name.len() as int);
    lemma_some_bytes(name);
}

proof fn lemma_some_bytes(text: Seq<char>)
    requires
        text.len() > 0,
    ensures
        encode_utf8(text).len() > 0,
{
    vstd::utf8::encode_utf8_decode_utf8(text);
    if encode_utf8(text).len() == 0 {
        assert(decode_utf8(encode_utf8(text)).len() == 0);
    }
}

proof fn lemma_names()
    ensures
        spaceless("worktree"@) && "worktree"@.len() > 0,
        spaceless("HEAD"@) && "HEAD"@.len() > 0,
        spaceless("branch"@) && "branch"@.len() > 0,
        spaceless("bare"@) && "bare"@.len() > 0,
        spaceless("detached"@) && "detached"@.len() > 0,
        spaceless("locked"@) && "locked"@.len() > 0,
        spaceless("prunable"@) && "prunable"@.len() > 0,
        "worktree"@.len() == 8 && "HEAD"@.len() == 4 && "branch"@.len() == 6 && "bare"@.len() == 4,
        "detached"@.len() == 8 && "locked"@.len() == 6 && "prunable"@.len() == 8,
        "worktree"@[0] == 'w' && "HEAD"@[0] == 'H' && "branch"@[0] == 'b' && "bare"@[0] == 'b',
        "detached"@[0] == 'd' && "locked"@[0] == 'l' && "prunable"@[0] == 'p',
{
    reveal_strlit("worktree");
    reveal_strlit("HEAD");
    reveal_strlit("branch");
    reveal_strlit("bare");
    reveal_strlit("detached");
    reveal_strlit("locked");
    reveal_strlit("prunable");
}

/// Whether all fields are texts, and not empty.
spec fn texts_only(row: Seq<Seq<u8>>) -> bool {
    forall|k: int| 0 <= k < row.len() ==> (#[trigger] row[k]).len() > 0 && valid_utf8(row[k])
}

/// A field more changes a record as its name and its value say.
proof fn lemma_field(
    row: Seq<Seq<u8>>,
    there: bool,
    field: Seq<u8>,
    name: Seq<char>,
    value: Option<Seq<char>>,
)
    requires
        texts_only(row),
        there ==> field.len() > 0 && valid_utf8(field) && field_parts(decode_utf8(field)) == (
            name,
            value,
        ),
    ensures
        texts_only(row + perhaps(there, field)),
        read_alone(row + perhaps(there, field)) == if there {
            with_field(read_alone(row), name, value)
        } else {
            read_alone(row)
        },
{
    let all = row + perhaps(there, field);
    if there {
        assert(all.drop_last() =~= row);
        assert(all.last() == field);
    } else {
        assert(all =~= row);
    }
}

/// What each field changes.
proof fn lemma_with_field(record: WorktreeView, value: Seq<char>)
    ensures
        with_field(record, "worktree"@, Some(value)) == (WorktreeView {
            path: encode_utf8(value),
            ..record
        }),
        with_field(record, "HEAD"@, Some(value)) == (WorktreeView { head: Some(value), ..record }),
        with_field(record, "branch"@, Some("refs/heads/"@ + value)) == (WorktreeView {
            branch: Some(value),
            ..record
        }),
        with_field(record, "bare"@, None) == (WorktreeView { bare: true, ..record }),
        with_field(record, "detached"@, None) == (WorktreeView { detached: true, ..record }),
        with_field(record, "locked"@, None) == (WorktreeView {
            locked: true,
            lock_reason: None,
            ..record
        }),
        with_field(record, "locked"@, Some(value)) == (WorktreeView {
            locked: true,
            lock_reason: Some(value),
            ..record
        }),
        with_field(record, "prunable"@, None) == (WorktreeView {
            prunable: true,
            prune_reason: None,
            ..record
        }),
        with_field(record, "prunable"@, Some(value)) == (WorktreeView {
            prunable: true,
            prune_reason: Some(value),
            ..record
        }),
{
    lemma_names();
    let full = "refs/heads/"@ + value;
    assert(full.take("refs/heads/"@.len() as int) =~= "refs/heads/"@);
    assert(full.skip("refs/heads/"@.len() as int) =~= value);
}

/// A mark is read with its reason.
proof fn lemma_reasoned(row: Seq<Seq<u8>>, there: bool, name: Seq<char>, reason: Option<Seq<char>>)
    requires
        texts_only(row),
        spaceless(name),
        name.len() > 0,
    ensures
        texts_only(row + reasoned(there, name, reason)),
        read_alone(row + reasoned(there, name, reason)) == if there {
            with_field(read_alone(row), name, reason)
        } else {
            read_alone(row)
        },
{
    match reason {
        Some(text) => {
            lemma_valued(name, text);
            lemma_field(row, there, valued(name, text), name, reason);
        },
        None => {
            lemma_flag(name);
            lemma_field(row, there, encode_utf8(name), name, reason);
        },
    }
}

/// The fields that name what is checked out are read.
#[verifier::rlimit(40)]
proof fn lemma_checked_out(tree: WorktreeView) -> (row: Seq<Seq<u8>>)
    requires
        tree.path.len() > 0,
        valid_utf8(tree.path),
    ensures
        row == seq![valued("worktree"@, decode_utf8(tree.path))] + perhaps(
            tree.head is Some,
            valued("HEAD"@, tree.head->0),
        ) + perhaps(tree.branch is Some, valued("branch"@, "refs/heads/"@ + tree.branch->0)),
        texts_only(row),
        read_alone(row) == (WorktreeView {
            path: tree.path,
            head: tree.head,
            branch: tree.branch,
            ..blank()
        }),
{
    lemma_names();
    let path = decode_utf8(tree.path);
    vstd::utf8::decode_utf8_encode_utf8(tree.path);
    let none = Seq::<Seq<u8>>::empty();
    let field = valued("worktree"@, path);
    lemma_valued("worktree"@, path);
    lemma_field(none, true, field, "worktree"@, Some(path));
    lemma_with_field(blank(), path);
    let a = seq![field];
    assert(none + perhaps(true, field) =~= a);
    let b = a + perhaps(tree.head is Some, valued("HEAD"@, tree.head->0));
    lemma_valued("HEAD"@, tree.head->0);
    lemma_field(a, tree.head is Some, valued("HEAD"@, tree.head->0), "HEAD"@, Some(tree.head->0));
    lemma_with_field(read_alone(a), tree.head->0);
    let full = "refs/heads/"@ + tree.branch->0;
    lemma_valued("branch"@, full);
    lemma_field(b, tree.branch is Some, valued("branch"@, full), "branch"@, Some(full));
    lemma_with_field(read_alone(b), tree.branch->0);
    b + perhaps(tree.branch is Some, valued("branch"@, full))
}

#[verifier::rlimit(40)]
proof fn lemma_read_back(tree: WorktreeView)
    requires
        tree.path.len() > 0,
        valid_utf8(tree.path),
        tree.lock_reason is Some ==> tree.locked,
        tree.prune_reason is Some ==> tree.prunable,
        !tree.current,
        !tree.primary,
    ensures
        read_alone(written(tree)) == tree,
        texts_only(written(tree)),
{
    lemma_names();
    let c = lemma_checked_out(tree);
    let d = c + perhaps(tree.bare, encode_utf8("bare"@));
    lemma_flag("bare"@);
    lemma_field(c, tree.bare, encode_utf8("bare"@), "bare"@, None);
    lemma_with_field(read_alone(c), ""@);
    let e = d + perhaps(tree.detached, encode_utf8("detached"@));
    lemma_flag("detached"@);
    lemma_field(d, tree.detached, encode_utf8("detached"@), "detached"@, None);
    lemma_with_field(read_alone(d), ""@);
    let f = e + reasoned(tree.locked, "locked"@, tree.lock_reason);
    lemma_reasoned(e, tree.locked, "locked"@, tree.lock_reason);
    lemma_with_field(
        read_alone(e),
        match tree.lock_reason {
            Some(reason) => reason,
            None => ""@,
        },
    );
    lemma_reasoned(f, tree.prunable, "prunable"@, tree.prune_reason);
    lemma_with_field(
        read_alone(f),
        match tree.prune_reason {
            Some(reason) => reason,
            None => ""@,
        },
    );
    assert(f + reasoned(tree.prunable, "prunable"@, tree.prune_reason) =~= written(tree));
}

/// A listing of worktrees is read back as it was written: each worktree with its path, its
/// commit, its branch and its marks, in the same order. The first one is the main one,
/// unless the repository is bare.
pub proof fn law_worktrees_are_read_as_written(trees: Seq<WorktreeView>)
    requires
        forall|i: int| 0 <= i < trees.len() ==> writable(#[trigger] trees[i]),
    ensures
        listed_worktrees(
            listing_text(trees.map_values(|tree: WorktreeView| written(tree))),
        ) matches Ok(read) && read.len() == trees.len() && forall|i: int|
            #![trigger read[i]]
            #![trigger trees[i]]
            0 <= i < trees.len() ==> read[i] == (WorktreeView {
                primary: i == 0 && !trees[i].bare,
                ..trees[i]
            }),
{
    let rows = trees.map_values(|tree: WorktreeView| written(tree));
    assert forall|i: int| 0 <= i < rows.len() implies whole_record(#[trigger] rows[i]) by {
        assert(writable(trees[i]));
        lemma_read_back(trees[i]);
        assert(rows[i] == written(trees[i]));
        assert forall|k: int| 0 <= k < rows[i].len() implies (#[trigger] rows[i][k]).len() > 0
            && valid_utf8(rows[i][k]) && !rows[i][k].contains(0u8) by {
            assert(written(trees[i])[k].len() > 0);
        }
    }
    lemma_listing_read(rows);
    let alone = rows.map_values(|row: Seq<Seq<u8>>| read_alone(row));
    assert(alone =~= trees) by {
        assert forall|i: int| 0 <= i < trees.len() implies #[trigger] alone[i] == trees[i] by {
            assert(writable(trees[i]));
            lemma_read_back(trees[i]);
        }
    }
    assert forall|i: int| 0 <= i < trees.len() implies !(#[trigger] trees[i]).primary by {
        assert(writable(trees[i]));
    }
}

} // verus!
