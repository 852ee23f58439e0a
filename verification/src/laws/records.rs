//! How the records of a listing are told apart.

use vstd::prelude::*;

use vstd::utf8::{decode_utf8, valid_utf8};

use crate::errors::ErrorView;
use crate::git::{
    blank, field_parts, listed_worktrees, records, with_field, with_primary, WorktreeView,
};
use crate::sequences::{lemma_first_is, split};

verus! {

/// Fields with a zero byte after each.
pub open spec fn terminated(fields: Seq<Seq<u8>>) -> Seq<u8>
    decreases fields.len(),
{
    if fields.len() == 0 {
        Seq::empty()
    } else {
        fields[0] + seq![0u8] + terminated(fields.drop_first())
    }
}

/// A record as Git writes it: its fields, and then an empty one.
pub open spec fn record_text(row: Seq<Seq<u8>>) -> Seq<u8> {
    terminated(row.push(Seq::empty()))
}

/// Records one after the other.
pub open spec fn listing_text(rows: Seq<Seq<Seq<u8>>>) -> Seq<u8>
    decreases rows.len(),
{
    if rows.len() == 0 {
        Seq::empty()
    } else {
        listing_text(rows.drop_last()) + record_text(rows.last())
    }
}

/// Whether fields make a record: texts that are not empty, and that name a path.
pub open spec fn whole_record(row: Seq<Seq<u8>>) -> bool {
    &&& read_alone(row).path.len() > 0
    &&& forall|k: int|
        0 <= k < row.len() ==> {
            &&& (#[trigger] row[k]).len() > 0
            &&& valid_utf8(row[k])
            &&& !row[k].contains(0u8)
        }
}

/// What the fields of one record say.
pub open spec fn read_alone(row: Seq<Seq<u8>>) -> WorktreeView
    decreases row.len(),
{
    if row.len() == 0 {
        blank()
    } else {
        let (name, value) = field_parts(decode_utf8(row.last()));
        with_field(read_alone(row.drop_last()), name, value)
    }
}

proof fn lemma_split_terminated(fields: Seq<Seq<u8>>, tail: Seq<u8>)
    requires
        forall|k: int| 0 <= k < fields.len() ==> !(#[trigger] fields[k]).contains(0u8),
    ensures
        split(terminated(fields) + tail, 0u8) == fields + split(tail, 0u8),
    decreases fields.len(),
{
    if fields.len() == 0 {
        assert(terminated(fields) + tail =~= tail);
        assert(fields + split(tail, 0u8) =~= split(tail, 0u8));
    } else {
        let f = fields[0];
        let more = fields.drop_first();
        let s = terminated(fields) + tail;
        assert(s =~= f + seq![0u8] + (terminated(more) + tail));
        assert forall|j: int| 0 <= j < f.len() implies s[j] != 0u8 by {
            assert(s[j] == f[j]);
            assert(f.contains(f[j]));
        }
        lemma_first_is(s, 0u8, f.len() as int);
        assert(s.take(f.len() as int) =~= f);
        assert(s.skip(f.len() as int + 1) =~= terminated(more) + tail);
        assert forall|k: int| 0 <= k < more.len() implies !(#[trigger] more[k]).contains(0u8) by {
            assert(more[k] == fields[k + 1]);
        }
        lemma_split_terminated(more, tail);
        assert(split(s, 0u8) =~= fields + split(tail, 0u8));
    }
}

proof fn lemma_terminated_joined(a: Seq<Seq<u8>>, b: Seq<Seq<u8>>)
    ensures
        terminated(a + b) == terminated(a) + terminated(b),
    decreases a.len(),
{
    if a.len() == 0 {
        assert(a + b =~= b);
        assert(terminated(a) + terminated(b) =~= terminated(b));
    } else {
        assert((a + b).drop_first() =~= a.drop_first() + b);
        lemma_terminated_joined(a.drop_first(), b);
        assert(terminated(a + b) =~= terminated(a) + terminated(b));
    }
}

proof fn lemma_row_read(before: Seq<Seq<u8>>, trees: Seq<WorktreeView>, row: Seq<Seq<u8>>, n: int)
    requires
        records(before) == Ok::<(Seq<WorktreeView>, WorktreeView), ErrorView>((trees, blank())),
        whole_record(row),
        0 <= n <= row.len(),
    ensures
        records(before + row.take(n)) == Ok::<(Seq<WorktreeView>, WorktreeView), ErrorView>(
            (trees, read_alone(row.take(n))),
        ),
    decreases n,
{
    if n == 0 {
        assert(before + row.take(0) =~= before);
        assert(row.take(0).len() == 0);
    } else {
        lemma_row_read(before, trees, row, n - 1);
        let some = row.take(n);
        assert(some.drop_last() =~= row.take(n - 1));
        assert(some.last() == row[n - 1]);
        assert((before + some).drop_last() =~= before + row.take(n - 1));
        assert((before + some).last() == row[n - 1]);
        assert(decode_utf8(row[n - 1]).len() > 0);
    }
}

/// A record adds one worktree to those before it, which its own fields alone make.
proof fn lemma_record_read(before: Seq<Seq<u8>>, trees: Seq<WorktreeView>, row: Seq<Seq<u8>>)
    requires
        records(before) == Ok::<(Seq<WorktreeView>, WorktreeView), ErrorView>((trees, blank())),
        whole_record(row),
    ensures
        records(before + row.push(Seq::empty())) == Ok::<
            (Seq<WorktreeView>, WorktreeView),
            ErrorView,
        >((trees.push(read_alone(row)), blank())),
{
    let n = row.len() as int;
    lemma_row_read(before, trees, row, n);
    assert(row.take(n) =~= row);
    let all = before + row.push(Seq::empty());
    assert(all.drop_last() =~= before + row);
    assert(all.last() =~= Seq::<u8>::empty());
    assert(valid_utf8(all.last()));
    assert(decode_utf8(all.last()).len() == 0);
}

/// The fields of records, with an empty one after each.
spec fn fields_of(rows: Seq<Seq<Seq<u8>>>) -> Seq<Seq<u8>>
    decreases rows.len(),
{
    if rows.len() == 0 {
        Seq::empty()
    } else {
        fields_of(rows.drop_last()) + rows.last().push(Seq::empty())
    }
}

proof fn lemma_rows_read(rows: Seq<Seq<Seq<u8>>>)
    requires
        forall|i: int| 0 <= i < rows.len() ==> whole_record(#[trigger] rows[i]),
    ensures
        records(fields_of(rows)) == Ok::<(Seq<WorktreeView>, WorktreeView), ErrorView>(
            (rows.map_values(|row: Seq<Seq<u8>>| read_alone(row)), blank()),
        ),
        terminated(fields_of(rows)) == listing_text(rows),
        forall|k: int|
            0 <= k < fields_of(rows).len() ==> !(#[trigger] fields_of(rows)[k]).contains(0u8),
    decreases rows.len(),
{
    let trees = rows.map_values(|row: Seq<Seq<u8>>| read_alone(row));
    if rows.len() == 0 {
        assert(trees =~= Seq::<WorktreeView>::empty());
    } else {
        let init = rows.drop_last();
        let row = rows.last();
        assert forall|i: int| 0 <= i < init.len() implies whole_record(#[trigger] init[i]) by {
            assert(init[i] == rows[i]);
        }
        lemma_rows_read(init);
        let before = init.map_values(|row: Seq<Seq<u8>>| read_alone(row));
        assert(whole_record(rows[rows.len() - 1]));
        lemma_record_read(fields_of(init), before, row);
        assert(trees =~= before.push(read_alone(row)));
        lemma_terminated_joined(fields_of(init), row.push(Seq::empty()));
        let all = fields_of(rows);
        assert forall|k: int| 0 <= k < all.len() implies !(#[trigger] all[k]).contains(0u8) by {
            let m = fields_of(init).len();
            if k < m {
                assert(all[k] == fields_of(init)[k]);
            } else if k < m + row.len() {
                assert(all[k] == row[k - m]);
            }
        }
    }
}

/// What a listing of whole records is read as.
pub proof fn lemma_listing_read(rows: Seq<Seq<Seq<u8>>>)
    requires
        forall|i: int| 0 <= i < rows.len() ==> whole_record(#[trigger] rows[i]),
    ensures
        listed_worktrees(listing_text(rows)) == Ok::<Seq<WorktreeView>, ErrorView>(
            with_primary(rows.map_values(|row: Seq<Seq<u8>>| read_alone(row))),
        ),
{
    lemma_rows_read(rows);
    let all = fields_of(rows);
    let nothing = Seq::<u8>::empty();
    lemma_split_terminated(all, nothing);
    assert(terminated(all) + nothing =~= listing_text(rows));
    lemma_first_is(nothing, 0u8, 0);
    assert(split(nothing, 0u8) =~= seq![nothing]);
    let whole = all + seq![nothing];
    assert(whole.drop_last() =~= all);
    assert(valid_utf8(nothing));
    assert(decode_utf8(nothing).len() == 0);
}

/// Records are read one by one: a listing of whole records gives as many worktrees,
/// in their order, and each is the one that its record gives alone, apart from the
/// mark of the main worktree.
pub proof fn law_records_are_read_one_by_one(rows: Seq<Seq<Seq<u8>>>)
    requires
        forall|i: int| 0 <= i < rows.len() ==> whole_record(#[trigger] rows[i]),
    ensures
        listed_worktrees(listing_text(rows)) matches Ok(trees) && trees.len() == rows.len() && (
        forall|i: int|
            #![trigger trees[i]]
            #![trigger rows[i]]
            0 <= i < rows.len() ==> (listed_worktrees(record_text(rows[i])) matches Ok(alone)
                && alone.len() == 1 && trees[i] == (WorktreeView {
                primary: trees[i].primary,
                ..alone[0]
            }))),
{
    lemma_listing_read(rows);
    assert forall|i: int| 0 <= i < rows.len() implies #[trigger] listed_worktrees(
        record_text(rows[i]),
    ) == Ok::<Seq<WorktreeView>, ErrorView>(with_primary(seq![read_alone(rows[i])])) by {
        let one = seq![rows[i]];
        assert(whole_record(rows[i]));
        assert(one.drop_last() =~= Seq::<Seq<Seq<u8>>>::empty());
        lemma_listing_read(one);
        assert(listing_text(one.drop_last()) =~= Seq::<u8>::empty());
        assert(one.last() == rows[i]);
        assert(listing_text(one) =~= record_text(rows[i]));
        assert(one.map_values(|row: Seq<Seq<u8>>| read_alone(row)) =~= seq![read_alone(rows[i])]);
    }
}

} // verus!
