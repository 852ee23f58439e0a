//! The order in which entries are carried over.

use vstd::prelude::*;

use crate::clone::EntryView;
use crate::order::{law_path_order, sorts};
use crate::paths::{
    component_below, components, is_name, path_below, same_path, sequence_below, within, word_below,
};

verus! {

proof fn lemma_words_differ(common: Seq<u8>, a: Seq<u8>, b: Seq<u8>)
    requires
        b.len() > 0,
        a.len() == 0 || a[0] < b[0],
    ensures
        word_below(common + a, common + b),
        !word_below(common + b, common + a),
    decreases common.len(),
{
    if common.len() == 0 {
        assert(common + a =~= a);
        assert(common + b =~= b);
    } else {
        lemma_words_differ(common.drop_first(), a, b);
        assert((common + a).drop_first() =~= common.drop_first() + a);
        assert((common + b).drop_first() =~= common.drop_first() + b);
    }
}

proof fn lemma_sequences_differ(common: Seq<Seq<u8>>, a: Seq<Seq<u8>>, b: Seq<Seq<u8>>)
    requires
        b.len() > 0,
        a.len() == 0 || (a[0] != b[0] && component_below(a[0], b[0])),
    ensures
        sequence_below(common + a, common + b),
    decreases common.len(),
{
    if common.len() == 0 {
        assert(common + a =~= a);
        assert(common + b =~= b);
    } else {
        lemma_sequences_differ(common.drop_first(), a, b);
        assert((common + a).drop_first() =~= common.drop_first() + a);
        assert((common + b).drop_first() =~= common.drop_first() + b);
    }
}

/// A directory comes before everything in it.
pub proof fn law_directories_come_before_what_they_hold(directory: Seq<u8>, path: Seq<u8>)
    requires
        within(path, directory),
        !same_path(path, directory),
    ensures
        path_below(directory, path),
{
    let d = components(directory);
    let p = components(path);
    assert(p.take(d.len() as int) == d);
    let rest = p.skip(d.len() as int);
    assert(rest.len() > 0) by {
        if rest.len() == 0 {
            assert(p.take(p.len() as int) =~= p);
        }
    }
    let none = Seq::<Seq<u8>>::empty();
    lemma_sequences_differ(d, none, rest);
    assert(d + none =~= d);
    assert(d + rest =~= p);
}

/// Two paths that part at some name are in the order of these names: one that goes on where
/// the other ends comes behind it, and otherwise the first byte that differs decides.
pub proof fn law_names_are_in_the_order_of_their_bytes(
    a: Seq<u8>,
    b: Seq<u8>,
    n: int,
    common: Seq<u8>,
    x: Seq<u8>,
    y: Seq<u8>,
)
    requires
        0 <= n < components(a).len(),
        n < components(b).len(),
        components(a).take(n) == components(b).take(n),
        is_name(components(a)[n]),
        is_name(components(b)[n]),
        components(a)[n] == common + x,
        components(b)[n] == common + y,
        y.len() > 0,
        x.len() == 0 || x[0] < y[0],
    ensures
        path_below(a, b),
        !path_below(b, a),
{
    let p = components(a);
    let q = components(b);
    lemma_words_differ(common, x, y);
    assert(common + x != common + y) by {
        assert(word_below(common + x, common + y) && !word_below(common + y, common + x));
    }
    lemma_sequences_differ(p.take(n), p.skip(n), q.skip(n));
    assert(p.take(n) + p.skip(n) =~= p);
    assert(q.take(n) + q.skip(n) =~= q);
    law_path_order(a, b);
}

/// Entries that are put in order have each directory before everything in it.
pub proof fn law_plans_have_directories_first(
    met: Seq<EntryView>,
    plan: Seq<EntryView>,
    i: int,
    j: int,
)
    requires
        sorts(met, plan),
        0 <= i < plan.len(),
        0 <= j < plan.len(),
        within(plan[j].relative, plan[i].relative),
        !same_path(plan[j].relative, plan[i].relative),
    ensures
        i < j,
{
    law_directories_come_before_what_they_hold(plan[i].relative, plan[j].relative);
    law_path_order(plan[i].relative, plan[j].relative);
    if j < i {
        assert(!path_below(plan[i].relative, plan[j].relative));
    }
}

/// Putting entries in order keeps each of them, and as often as it was there.
pub proof fn law_plans_keep_every_entry(met: Seq<EntryView>, plan: Seq<EntryView>, entry: EntryView)
    requires
        sorts(met, plan),
    ensures
        plan.len() == met.len(),
        plan.contains(entry) <==> met.contains(entry),
        plan.to_multiset().count(entry) == met.to_multiset().count(entry),
{
    plan.to_multiset_ensures();
    met.to_multiset_ensures();
    assert(plan.contains(entry) <==> plan.to_multiset().count(entry) > 0);
    assert(met.contains(entry) <==> met.to_multiset().count(entry) > 0);
}

} // verus!
