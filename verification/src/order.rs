//! The order of paths, and putting planned entries into it.

use vstd::prelude::*;

use vstd::slice::slice_subrange;

use crate::clone::{Entry, EntryView};
use crate::paths::{
    components, current_word, equal_bytes, lemma_spans, marks, parent_word, path_below, rank,
    root_word, same_path, sequence_below, spans, spans_of, word_below, DOT, SLASH,
};

verus! {

/// Of two words exactly one comes first, or they are the same.
proof fn lemma_words(a: Seq<u8>, b: Seq<u8>)
    ensures
        !(word_below(a, b) && word_below(b, a)),
        word_below(a, b) || word_below(b, a) <==> a != b,
    decreases a.len(),
{
    if a.len() > 0 && b.len() > 0 && a[0] == b[0] {
        lemma_words(a.drop_first(), b.drop_first());
        if a.drop_first() == b.drop_first() {
            assert(a =~= seq![a[0]] + a.drop_first());
            assert(b =~= seq![b[0]] + b.drop_first());
        }
    } else if a.len() == 0 && b.len() == 0 {
        assert(a =~= b);
    }
}

proof fn lemma_words_transitive(a: Seq<u8>, b: Seq<u8>, c: Seq<u8>)
    requires
        word_below(a, b),
        word_below(b, c),
    ensures
        word_below(a, c),
    decreases a.len(),
{
    if a.len() > 0 && a[0] == b[0] && b[0] == c[0] {
        lemma_words_transitive(a.drop_first(), b.drop_first(), c.drop_first());
    }
}

proof fn lemma_sequences(a: Seq<Seq<u8>>, b: Seq<Seq<u8>>)
    ensures
        !(sequence_below(a, b) && sequence_below(b, a)),
        sequence_below(a, b) || sequence_below(b, a) <==> a != b,
    decreases a.len(),
{
    if a.len() > 0 && b.len() > 0 {
        lemma_words(a[0], b[0]);
        if a[0] == b[0] {
            lemma_sequences(a.drop_first(), b.drop_first());
            if a.drop_first() == b.drop_first() {
                assert(a =~= seq![a[0]] + a.drop_first());
                assert(b =~= seq![b[0]] + b.drop_first());
            }
        }
    } else if a.len() == 0 && b.len() == 0 {
        assert(a =~= b);
    }
}

proof fn lemma_sequences_transitive(a: Seq<Seq<u8>>, b: Seq<Seq<u8>>, c: Seq<Seq<u8>>)
    requires
        sequence_below(a, b),
        sequence_below(b, c),
    ensures
        sequence_below(a, c),
    decreases a.len(),
{
    if a.len() > 0 {
        lemma_words(a[0], b[0]);
        lemma_words(b[0], c[0]);
        lemma_words(a[0], c[0]);
        if a[0] == b[0] && b[0] == c[0] {
            lemma_sequences_transitive(a.drop_first(), b.drop_first(), c.drop_first());
        } else if word_below(a[0], b[0]) && word_below(b[0], c[0]) {
            lemma_words_transitive(a[0], b[0], c[0]);
        }
    }
}

/// Of two paths exactly one comes first, unless they name the same entry.
pub proof fn law_path_order(a: Seq<u8>, b: Seq<u8>)
    ensures
        !(path_below(a, b) && path_below(b, a)),
        path_below(a, b) || path_below(b, a) <==> !same_path(a, b),
{
    lemma_sequences(components(a), components(b));
}

/// What comes before a path comes before everything after it.
pub proof fn law_path_order_transitive(a: Seq<u8>, b: Seq<u8>, c: Seq<u8>)
    requires
        path_below(a, b),
        path_below(b, c),
    ensures
        path_below(a, c),
{
    lemma_sequences_transitive(components(a), components(b), components(c));
}

proof fn lemma_not_after(a: Seq<u8>, b: Seq<u8>, c: Seq<u8>)
    requires
        !path_below(b, a),
        !path_below(c, b),
    ensures
        !path_below(c, a),
{
    law_path_order(a, b);
    law_path_order(b, c);
    law_path_order(a, c);
    if path_below(a, b) && path_below(b, c) {
        law_path_order_transitive(a, b, c);
    }
}

/// How one word stands to another.
enum Relation {
    Below,
    Same,
    Above,
}

fn compare_words(a: &[u8], b: &[u8]) -> (r: Relation)
    ensures
        match r {
            Relation::Below => word_below(a@, b@),
            Relation::Same => a@ == b@,
            Relation::Above => word_below(b@, a@),
        },
{
    let mut i: usize = 0;
    assert(a@.skip(0) =~= a@);
    assert(b@.skip(0) =~= b@);
    while i < a.len() && i < b.len()
        invariant
            i <= a@.len(),
            i <= b@.len(),
            a@.take(i as int) == b@.take(i as int),
            word_below(a@, b@) == word_below(a@.skip(i as int), b@.skip(i as int)),
            word_below(b@, a@) == word_below(b@.skip(i as int), a@.skip(i as int)),
        decreases a@.len() - i,
    {
        if a[i] < b[i] {
            return Relation::Below;
        }
        if b[i] < a[i] {
            return Relation::Above;
        }
        assert(a@.skip(i as int).drop_first() =~= a@.skip(i + 1));
        assert(b@.skip(i as int).drop_first() =~= b@.skip(i + 1));
        assert(a@.take(i + 1) =~= a@.take(i as int).push(a@[i as int]));
        assert(b@.take(i + 1) =~= b@.take(i as int).push(b@[i as int]));
        i = i + 1;
    }
    if i < b.len() {
        Relation::Below
    } else if i < a.len() {
        Relation::Above
    } else {
        assert(a@ =~= a@.take(i as int));
        assert(b@ =~= b@.take(i as int));
        Relation::Same
    }
}

fn rank_of(w: &[u8]) -> (r: u8)
    ensures
        r == rank(w@),
{
    let root: Vec<u8> = vec![SLASH];
    let current: Vec<u8> = vec![DOT];
    let up: Vec<u8> = vec![DOT, DOT];
    assert(root@ =~= root_word());
    assert(current@ =~= current_word());
    assert(up@ =~= parent_word());
    if equal_bytes(w, root.as_slice()) {
        0
    } else if equal_bytes(w, current.as_slice()) {
        1
    } else if equal_bytes(w, up.as_slice()) {
        2
    } else {
        3
    }
}

/// Whether `a` comes before `b`.
pub fn precedes(a: &[u8], b: &[u8]) -> (r: bool)
    ensures
        r == path_below(a@, b@),
{
    let s = spans(a);
    let t = spans(b);
    let ghost c = components(a@);
    let ghost d = components(b@);
    proof {
        lemma_spans(a@);
        lemma_spans(b@);
        assert(c.skip(0) =~= c);
        assert(d.skip(0) =~= d);
        assert(marks(s@).len() == s@.len());
        assert(marks(t@).len() == t@.len());
    }
    let mut k: usize = 0;
    while k < s.len() && k < t.len()
        invariant
            k <= s@.len(),
            k <= t@.len(),
            marks(s@) == spans_of(a@),
            marks(t@) == spans_of(b@),
            c == components(a@),
            d == components(b@),
            c.len() == s@.len(),
            d.len() == t@.len(),
            sequence_below(c, d) == sequence_below(c.skip(k as int), d.skip(k as int)),
        decreases s@.len() - k,
    {
        let (i, j) = s[k];
        let (u, v) = t[k];
        proof {
            lemma_spans(a@);
            lemma_spans(b@);
            assert(marks(s@)[k as int] == (i as int, j as int));
            assert(marks(t@)[k as int] == (u as int, v as int));
        }
        let x = slice_subrange(a, i, j);
        let y = slice_subrange(b, u, v);
        assert(x@ == c[k as int]);
        assert(y@ == d[k as int]);
        assert(c.skip(k as int)[0] == c[k as int]);
        assert(d.skip(k as int)[0] == d[k as int]);
        match compare_words(x, y) {
            Relation::Same => {},
            Relation::Below => {
                proof {
                    lemma_words(x@, y@);
                }
                return rank_of(x) <= rank_of(y);
            },
            Relation::Above => {
                proof {
                    lemma_words(x@, y@);
                }
                return rank_of(x) < rank_of(y);
            },
        }
        assert(c.skip(k as int).drop_first() =~= c.skip(k + 1));
        assert(d.skip(k as int).drop_first() =~= d.skip(k + 1));
        k = k + 1;
    }
    k < t.len()
}

/// Whether no entry comes before one that stands ahead of it.
pub open spec fn in_order(s: Seq<EntryView>) -> bool {
    forall|i: int, j: int|
        #![trigger s[i], s[j]]
        0 <= i <= j < s.len() ==> !path_below(s[j].relative, s[i].relative)
}

/// The entries of a path, in the order in which they stand.
pub open spec fn alike(s: Seq<EntryView>, path: Seq<u8>) -> Seq<EntryView>
    decreases s.len(),
{
    if s.len() == 0 {
        Seq::empty()
    } else if same_path(s.last().relative, path) {
        alike(s.drop_last(), path).push(s.last())
    } else {
        alike(s.drop_last(), path)
    }
}

/// Whether `out` holds the entries of `s`, in order. Entries of the same path stand
/// as they stood.
pub open spec fn sorts(s: Seq<EntryView>, out: Seq<EntryView>) -> bool {
    &&& in_order(out)
    &&& out.to_multiset() == s.to_multiset()
    &&& forall|path: Seq<u8>| #[trigger] alike(out, path) == alike(s, path)
}

proof fn lemma_alike_push(s: Seq<EntryView>, e: EntryView, path: Seq<u8>)
    ensures
        alike(s.push(e), path) == if same_path(e.relative, path) {
            alike(s, path).push(e)
        } else {
            alike(s, path)
        },
{
    assert(s.push(e).drop_last() =~= s);
}

proof fn lemma_alike_joined(a: Seq<EntryView>, b: Seq<EntryView>, path: Seq<u8>)
    ensures
        alike(a + b, path) == alike(a, path) + alike(b, path),
    decreases b.len(),
{
    if b.len() == 0 {
        assert(a + b =~= a);
        assert(alike(a, path) + alike(b, path) =~= alike(a, path));
    } else {
        lemma_alike_joined(a, b.drop_last(), path);
        assert((a + b).drop_last() =~= a + b.drop_last());
        assert((alike(a, path) + alike(b.drop_last(), path)).push(b.last()) =~= alike(a, path)
            + alike(b.drop_last(), path).push(b.last()));
    }
}

/// There are entries of a path where one stands.
proof fn lemma_alike_held(s: Seq<EntryView>, i: int)
    requires
        0 <= i < s.len(),
    ensures
        alike(s, s[i].relative).len() > 0,
    decreases s.len(),
{
    if i < s.len() - 1 {
        lemma_alike_held(s.drop_last(), i);
        assert(s.drop_last()[i] == s[i]);
    }
}

/// Where there are entries of a path, one stands.
proof fn lemma_alike_found(s: Seq<EntryView>, path: Seq<u8>) -> (i: int)
    requires
        alike(s, path).len() > 0,
    ensures
        0 <= i < s.len(),
        same_path(s[i].relative, path),
    decreases s.len(),
{
    if same_path(s.last().relative, path) {
        s.len() - 1
    } else {
        lemma_alike_found(s.drop_last(), path)
    }
}

/// There is only one way to put entries in order.
pub proof fn law_sorted_once(s: Seq<EntryView>, a: Seq<EntryView>, b: Seq<EntryView>)
    requires
        sorts(s, a),
        sorts(s, b),
    ensures
        a == b,
{
    assert forall|path: Seq<u8>| #[trigger] alike(a, path) == alike(b, path) by {
        assert(alike(a, path) == alike(s, path));
        assert(alike(b, path) == alike(s, path));
    }
    lemma_same_order(a, b);
}

/// Entries that are in order, and stand alike, are the same.
pub proof fn lemma_same_order(a: Seq<EntryView>, b: Seq<EntryView>)
    requires
        in_order(a),
        in_order(b),
        forall|path: Seq<u8>| #[trigger] alike(a, path) == alike(b, path),
    ensures
        a == b,
    decreases a.len(),
{
    if b.len() > 0 {
        lemma_alike_held(b, b.len() - 1);
        assert(alike(a, b.last().relative) == alike(b, b.last().relative));
    }
    if a.len() == 0 {
        assert(a =~= b);
    } else {
        let x = a.last();
        lemma_alike_held(a, a.len() - 1);
        assert(alike(a, x.relative) == alike(b, x.relative));
        let i = lemma_alike_found(b, x.relative);
        let y = b.last();
        let j = lemma_alike_found(a, y.relative);
        assert(!path_below(b[b.len() - 1].relative, b[i].relative));
        assert(!path_below(a[a.len() - 1].relative, a[j].relative));
        law_path_order(x.relative, y.relative);
        assert(same_path(x.relative, y.relative));
        assert(alike(a, x.relative).last() == x);
        assert(alike(b, x.relative).last() == y);
        let front = a.drop_last();
        let other = b.drop_last();
        assert forall|path: Seq<u8>| #[trigger] alike(front, path) == alike(other, path) by {
            assert(alike(a, path) == alike(b, path));
            if same_path(x.relative, path) {
                assert(alike(front, path) =~= alike(a, path).drop_last());
                assert(alike(other, path) =~= alike(b, path).drop_last());
            }
        }
        assert forall|i: int, j: int|
            #![trigger front[i], front[j]]
            0 <= i <= j < front.len() implies !path_below(front[j].relative, front[i].relative) by {
            assert(front[i] == a[i] && front[j] == a[j]);
        }
        assert forall|i: int, j: int|
            #![trigger other[i], other[j]]
            0 <= i <= j < other.len() implies !path_below(other[j].relative, other[i].relative) by {
            assert(other[i] == b[i] && other[j] == b[j]);
        }
        lemma_same_order(front, other);
        assert(a =~= front.push(x));
        assert(b =~= other.push(y));
    }
}

/// The views of entries.
spec fn seen(v: Seq<Entry>) -> Seq<EntryView> {
    v.map_values(|e: Entry| e.deep_view())
}

/// Whether `s` runs backwards in order.
spec fn backwards(s: Seq<EntryView>) -> bool {
    forall|i: int, j: int|
        #![trigger s[i], s[j]]
        0 <= i <= j < s.len() ==> !path_below(s[i].relative, s[j].relative)
}

/// Whether nothing in `a` comes after something in `b`.
spec fn all_before(a: Seq<EntryView>, b: Seq<EntryView>) -> bool {
    forall|i: int, j: int|
        #![trigger a[i], b[j]]
        0 <= i < a.len() && 0 <= j < b.len() ==> !path_below(b[j].relative, a[i].relative)
}

/// The entries of a vector, the last one first.
fn turned(v: Vec<Entry>) -> (r: Vec<Entry>)
    requires
        backwards(seen(v@)),
    ensures
        in_order(seen(r@)),
        seen(r@).to_multiset() == seen(v@).to_multiset(),
        seen(r@) == seen(v@).reverse(),
{
    let ghost whole = seen(v@);
    let mut rest = v;
    let mut out: Vec<Entry> = Vec::new();
    proof {
        assert(seen(out@) =~= Seq::<EntryView>::empty());
        seen(out@).to_multiset_ensures();
        assert(whole.to_multiset() =~= seen(rest@).to_multiset().add(seen(out@).to_multiset()));
    }
    loop
        invariant
            whole == seen(v@),
            backwards(seen(rest@)),
            in_order(seen(out@)),
            rest@.len() + out@.len() == whole.len(),
            seen(rest@) == whole.take(rest@.len() as int),
            seen(out@) == whole.skip(rest@.len() as int).reverse(),
            whole.to_multiset() == seen(rest@).to_multiset().add(seen(out@).to_multiset()),
            forall|i: int, j: int|
                #![trigger seen(rest@)[i], seen(out@)[j]]
                0 <= i < rest@.len() && 0 <= j < out@.len() ==> !path_below(
                    seen(rest@)[i].relative,
                    seen(out@)[j].relative,
                ),
        decreases rest@.len(),
    {
        let ghost before = seen(rest@);
        let ghost done = seen(out@);
        match rest.pop() {
            None => {
                proof {
                    assert(seen(rest@) =~= Seq::<EntryView>::empty());
                    seen(rest@).to_multiset_ensures();
                    assert(whole.to_multiset() =~= seen(out@).to_multiset());
                    assert(whole.skip(0) =~= whole);
                }
                return out;
            },
            Some(entry) => {
                let ghost e = entry.deep_view();
                out.push(entry);
                proof {
                    assert(before =~= seen(rest@).push(e));
                    assert(seen(out@) =~= done.push(e));
                    assert(seen(rest@) =~= whole.take(rest@.len() as int));
                    let n = rest@.len() as int;
                    assert(before.last() == e);
                    assert(before.last() == whole[n]);
                    assert(whole.skip(n) =~= seq![e] + whole.skip(n + 1));
                    assert(seen(out@) =~= whole.skip(n).reverse());
                    seen(rest@).to_multiset_ensures();
                    done.to_multiset_ensures();
                    assert(whole.to_multiset() =~= seen(rest@).to_multiset().add(
                        seen(out@).to_multiset(),
                    ));
                    assert(e == before[before.len() - 1]);
                    assert forall|i: int, j: int|
                        #![trigger seen(rest@)[i], seen(out@)[j]]
                        0 <= i < rest@.len() && 0 <= j < out@.len() implies !path_below(
                        seen(rest@)[i].relative,
                        seen(out@)[j].relative,
                    ) by {
                        assert(seen(rest@)[i] == before[i]);
                        if j < done.len() {
                            assert(seen(out@)[j] == done[j]);
                        }
                    }
                    assert forall|i: int, j: int|
                        #![trigger seen(out@)[i], seen(out@)[j]]
                        0 <= i <= j < out@.len() implies !path_below(
                        seen(out@)[j].relative,
                        seen(out@)[i].relative,
                    ) by {
                        if j == done.len() {
                            if i < done.len() {
                                assert(seen(out@)[i] == done[i]);
                                law_path_order(e.relative, done[i].relative);
                            } else {
                                law_path_order(e.relative, e.relative);
                            }
                        } else {
                            assert(seen(out@)[i] == done[i]);
                            assert(seen(out@)[j] == done[j]);
                        }
                    }
                    assert forall|i: int, j: int|
                        #![trigger seen(rest@)[i], seen(rest@)[j]]
                        0 <= i <= j < rest@.len() implies !path_below(
                        seen(rest@)[i].relative,
                        seen(rest@)[j].relative,
                    ) by {
                        assert(seen(rest@)[i] == before[i]);
                        assert(seen(rest@)[j] == before[j]);
                    }
                }
            },
        }
    }
}

/// The entries of a path in two sequences and, backwards, in a third.
spec fn joint(
    left: Seq<EntryView>,
    right: Seq<EntryView>,
    out: Seq<EntryView>,
    path: Seq<u8>,
) -> Seq<EntryView> {
    alike(left, path) + alike(right, path) + alike(out.reverse(), path)
}

proof fn lemma_alike_reversed(out: Seq<EntryView>, e: EntryView, path: Seq<u8>)
    ensures
        alike(out.push(e).reverse(), path) == (if same_path(e.relative, path) {
            seq![e]
        } else {
            Seq::empty()
        }) + alike(out.reverse(), path),
{
    assert(out.push(e).reverse() =~= seq![e] + out.reverse());
    lemma_alike_joined(seq![e], out.reverse(), path);
    assert(seq![e].drop_last() =~= Seq::<EntryView>::empty());
    assert(seq![e].last() == e);
    assert(alike(Seq::<EntryView>::empty(), path) =~= Seq::<EntryView>::empty());
    assert(Seq::<EntryView>::empty().push(e) =~= seq![e]);
}

/// The last entry of the right sequence moved into the third.
proof fn lemma_joint_right(
    left: Seq<EntryView>,
    right: Seq<EntryView>,
    out: Seq<EntryView>,
    e: EntryView,
    path: Seq<u8>,
)
    ensures
        joint(left, right, out.push(e), path) == joint(left, right.push(e), out, path),
{
    lemma_alike_push(right, e, path);
    lemma_alike_reversed(out, e, path);
    assert(joint(left, right, out.push(e), path) =~= joint(left, right.push(e), out, path));
}

/// The last entry of the left sequence moved into the third, where everything in
/// the right one comes before it.
proof fn lemma_joint_left(
    left: Seq<EntryView>,
    right: Seq<EntryView>,
    out: Seq<EntryView>,
    e: EntryView,
    path: Seq<u8>,
)
    requires
        in_order(right),
        right.len() > 0 ==> path_below(right.last().relative, e.relative),
    ensures
        joint(left, right, out.push(e), path) == joint(left.push(e), right, out, path),
{
    lemma_alike_push(left, e, path);
    lemma_alike_reversed(out, e, path);
    if same_path(e.relative, path) && alike(right, path).len() > 0 {
        let i = lemma_alike_found(right, path);
        assert(!path_below(right[right.len() - 1].relative, right[i].relative));
    }
    assert(joint(left, right, out.push(e), path) =~= joint(left.push(e), right, out, path));
}

/// Two ordered vectors as one, backwards. Of entries of the same path those of the
/// first vector stay ahead.
fn merged(a: Vec<Entry>, b: Vec<Entry>) -> (r: Vec<Entry>)
    requires
        in_order(seen(a@)),
        in_order(seen(b@)),
    ensures
        backwards(seen(r@)),
        seen(r@).to_multiset() == seen(a@).to_multiset().add(seen(b@).to_multiset()),
        forall|path: Seq<u8>| #[trigger]
            alike(seen(r@).reverse(), path) == alike(seen(a@), path) + alike(seen(b@), path),
{
    let ghost whole = seen(a@).to_multiset().add(seen(b@).to_multiset());
    let mut left = a;
    let mut right = b;
    let mut out: Vec<Entry> = Vec::new();
    proof {
        assert(seen(out@) =~= Seq::<EntryView>::empty());
        seen(out@).to_multiset_ensures();
        assert(whole =~= seen(left@).to_multiset().add(seen(right@).to_multiset()).add(
            seen(out@).to_multiset(),
        ));
        assert(seen(out@).reverse() =~= Seq::<EntryView>::empty());
        assert forall|path: Seq<u8>| #[trigger]
            joint(seen(left@), seen(right@), seen(out@), path) == alike(seen(a@), path) + alike(
                seen(b@),
                path,
            ) by {
            assert(alike(seen(out@).reverse(), path) =~= Seq::<EntryView>::empty());
            assert(joint(seen(left@), seen(right@), seen(out@), path) =~= alike(seen(a@), path)
                + alike(seen(b@), path));
        }
    }
    loop
        invariant
            whole == seen(a@).to_multiset().add(seen(b@).to_multiset()),
            in_order(seen(left@)),
            in_order(seen(right@)),
            backwards(seen(out@)),
            all_before(seen(left@), seen(out@)),
            all_before(seen(right@), seen(out@)),
            whole == seen(left@).to_multiset().add(seen(right@).to_multiset()).add(
                seen(out@).to_multiset(),
            ),
            forall|path: Seq<u8>| #[trigger]
                joint(seen(left@), seen(right@), seen(out@), path) == alike(seen(a@), path) + alike(
                    seen(b@),
                    path,
                ),
        decreases left@.len() + right@.len(),
    {
        let n = left.len();
        let m = right.len();
        let ghost l = seen(left@);
        let ghost r = seen(right@);
        let ghost o = seen(out@);
        if n == 0 && m == 0 {
            proof {
                l.to_multiset_ensures();
                r.to_multiset_ensures();
                assert(l =~= Seq::<EntryView>::empty());
                assert(r =~= Seq::<EntryView>::empty());
                assert(whole =~= o.to_multiset());
                assert forall|path: Seq<u8>| #[trigger]
                    alike(o.reverse(), path) == alike(seen(a@), path) + alike(seen(b@), path) by {
                    assert(joint(l, r, o, path) =~= alike(o.reverse(), path));
                }
            }
            return out;
        }
        let from_left = if m == 0 {
            true
        } else if n == 0 {
            false
        } else {
            precedes(right[m - 1].relative.as_slice(), left[n - 1].relative.as_slice())
        };
        if from_left {
            assert(l[n - 1] == left@[n - 1].deep_view());
            if m > 0 {
                assert(r[m - 1] == right@[m - 1].deep_view());
                proof {
                    law_path_order(l[n - 1].relative, r[m - 1].relative);
                }
            }
            if let Some(entry) = left.pop() {
                let ghost e = entry.deep_view();
                out.push(entry);
                proof {
                    assert(l =~= seen(left@).push(e));
                    assert(seen(out@) =~= o.push(e));
                    lemma_taken(seen(left@), r, o, e);
                    seen(left@).to_multiset_ensures();
                    o.to_multiset_ensures();
                    assert(whole =~= seen(left@).to_multiset().add(r.to_multiset()).add(
                        seen(out@).to_multiset(),
                    ));
                    assert forall|path: Seq<u8>| #[trigger]
                        joint(seen(left@), r, seen(out@), path) == alike(seen(a@), path) + alike(
                            seen(b@),
                            path,
                        ) by {
                        lemma_joint_left(seen(left@), r, o, e, path);
                        assert(joint(l, r, o, path) == alike(seen(a@), path) + alike(
                            seen(b@),
                            path,
                        ));
                    }
                }
            }
        } else {
            assert(r[m - 1] == right@[m - 1].deep_view());
            if n > 0 {
                assert(l[n - 1] == left@[n - 1].deep_view());
            }
            if let Some(entry) = right.pop() {
                let ghost e = entry.deep_view();
                out.push(entry);
                proof {
                    assert(r =~= seen(right@).push(e));
                    assert(seen(out@) =~= o.push(e));
                    lemma_taken(seen(right@), l, o, e);
                    seen(right@).to_multiset_ensures();
                    o.to_multiset_ensures();
                    assert(whole =~= l.to_multiset().add(seen(right@).to_multiset()).add(
                        seen(out@).to_multiset(),
                    ));
                    assert forall|path: Seq<u8>| #[trigger]
                        joint(l, seen(right@), seen(out@), path) == alike(seen(a@), path) + alike(
                            seen(b@),
                            path,
                        ) by {
                        lemma_joint_right(l, seen(right@), o, e, path);
                        assert(joint(l, r, o, path) == alike(seen(a@), path) + alike(
                            seen(b@),
                            path,
                        ));
                    }
                }
            }
        }
    }
}

/// The largest entry of two ordered sequences moved behind those that were larger.
proof fn lemma_taken(
    rest: Seq<EntryView>,
    other: Seq<EntryView>,
    out: Seq<EntryView>,
    e: EntryView,
)
    requires
        in_order(rest.push(e)),
        in_order(other),
        backwards(out),
        all_before(rest.push(e), out),
        all_before(other, out),
        other.len() > 0 ==> !path_below(e.relative, other.last().relative),
    ensures
        in_order(rest),
        backwards(out.push(e)),
        all_before(rest, out.push(e)),
        all_before(other, out.push(e)),
{
    let all = rest.push(e);
    let wide = out.push(e);
    law_path_order(e.relative, e.relative);
    assert(all[rest.len() as int] == e);
    assert forall|i: int, j: int|
        #![trigger rest[i], rest[j]]
        0 <= i <= j < rest.len() implies !path_below(rest[j].relative, rest[i].relative) by {
        assert(rest[i] == all[i] && rest[j] == all[j]);
    }
    assert forall|i: int, j: int|
        #![trigger wide[i], wide[j]]
        0 <= i <= j < wide.len() implies !path_below(wide[i].relative, wide[j].relative) by {
        if j == out.len() {
            if i < out.len() {
                assert(wide[i] == out[i]);
                assert(!path_below(out[i].relative, all[rest.len() as int].relative));
            }
        } else {
            assert(wide[i] == out[i] && wide[j] == out[j]);
        }
    }
    assert forall|i: int, j: int|
        #![trigger rest[i], wide[j]]
        0 <= i < rest.len() && 0 <= j < wide.len() implies !path_below(
        wide[j].relative,
        rest[i].relative,
    ) by {
        assert(rest[i] == all[i]);
        if j < out.len() {
            assert(wide[j] == out[j]);
        } else {
            assert(!path_below(all[rest.len() as int].relative, all[i].relative));
        }
    }
    assert forall|i: int, j: int|
        #![trigger other[i], wide[j]]
        0 <= i < other.len() && 0 <= j < wide.len() implies !path_below(
        wide[j].relative,
        other[i].relative,
    ) by {
        if j < out.len() {
            assert(wide[j] == out[j]);
        } else {
            let last = other[other.len() - 1];
            assert(!path_below(last.relative, other[i].relative));
            lemma_not_after(other[i].relative, last.relative, e.relative);
        }
    }
}

/// The entries, in the order of their paths.
pub fn sorted(entries: Vec<Entry>) -> (r: Vec<Entry>)
    ensures
        sorts(entries.deep_view(), r.deep_view()),
    decreases entries@.len(),
{
    let n = entries.len();
    let ghost whole = entries.deep_view();
    if n <= 1 {
        proof {
            if n == 1 {
                law_path_order(whole[0].relative, whole[0].relative);
            }
        }
        return entries;
    }
    let mut front = entries;
    let back = front.split_off(n / 2);
    proof {
        assert(whole =~= front.deep_view() + back.deep_view());
        vstd::seq_lib::lemma_multiset_commutative(front.deep_view(), back.deep_view());
    }
    let ghost first = front.deep_view();
    let ghost second = back.deep_view();
    let front = sorted(front);
    let back = sorted(back);
    proof {
        assert(seen(front@) =~= front.deep_view());
        assert(seen(back@) =~= back.deep_view());
    }
    let r = turned(merged(front, back));
    proof {
        assert(seen(r@) =~= r.deep_view());
        assert forall|path: Seq<u8>| #[trigger] alike(r.deep_view(), path) == alike(whole, path) by {
            lemma_alike_joined(first, second, path);
            assert(alike(front.deep_view(), path) == alike(first, path));
            assert(alike(back.deep_view(), path) == alike(second, path));
        }
    }
    r
}

} // verus!
