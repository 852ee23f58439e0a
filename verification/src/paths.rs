//! Unix paths as byte strings, read component by component.
//!
//! A path is a sequence of bytes. Its components are the words between slashes,
//! with a leading slash as a component of its own. Empty words do not count, nor
//! does a `.` anywhere but at the very beginning of a relative path. Two paths
//! name the same entry when their components are the same.

use vstd::prelude::*;

use vstd::slice::{slice_subrange, slice_to_vec};

use crate::sequences::{first, joined, lemma_first, lemma_first_is};

verus! {

/// The byte that separates components.
pub const SLASH: u8 = 47;

/// The byte that `.` and `..` are made of.
pub const DOT: u8 = 46;

/// The component that a leading slash stands for.
pub open spec fn root_word() -> Seq<u8> {
    seq![SLASH]
}

/// The component `.`.
pub open spec fn current_word() -> Seq<u8> {
    seq![DOT]
}

/// The component `..`.
pub open spec fn parent_word() -> Seq<u8> {
    seq![DOT, DOT]
}

/// Whether a component names an entry of a directory.
pub open spec fn is_name(w: Seq<u8>) -> bool {
    w != root_word() && w != current_word() && w != parent_word()
}

/// Where the word that begins at `i` ends.
pub open spec fn word_end(p: Seq<u8>, i: int) -> int {
    i + first(p.skip(i), SLASH)
}

/// The positions of the components of `p` that begin at `i` or later.
pub open spec fn spans_from(p: Seq<u8>, i: int) -> Seq<(int, int)>
    decreases p.len() - i,
{
    if i < 0 || i >= p.len() {
        Seq::empty()
    } else if p[i] == SLASH {
        spans_from(p, i + 1)
    } else {
        proof {
            lemma_word_end(p, i);
        }
        let j = word_end(p, i);
        let rest = spans_from(p, j);
        if i > 0 && p.subrange(i, j) == current_word() {
            rest
        } else {
            seq![(i, j)] + rest
        }
    }
}

/// The positions of the components of `p`.
pub open spec fn spans_of(p: Seq<u8>) -> Seq<(int, int)> {
    if absolute_path(p) {
        seq![(0int, 1int)] + spans_from(p, 1)
    } else {
        spans_from(p, 0)
    }
}

/// The words of `p` at the given positions.
pub open spec fn words_at(p: Seq<u8>, spans: Seq<(int, int)>) -> Seq<Seq<u8>> {
    spans.map_values(|s: (int, int)| p.subrange(s.0, s.1))
}

/// The components of `p`.
pub open spec fn components(p: Seq<u8>) -> Seq<Seq<u8>> {
    words_at(p, spans_of(p))
}

/// Whether `p` begins at the root.
pub open spec fn absolute_path(p: Seq<u8>) -> bool {
    p.len() > 0 && p[0] == SLASH
}

/// Whether two paths have the same components.
pub open spec fn same_path(a: Seq<u8>, b: Seq<u8>) -> bool {
    components(a) == components(b)
}

/// Whether `p` is `base` or lies below it.
pub open spec fn within(p: Seq<u8>, base: Seq<u8>) -> bool {
    let (c, b) = (components(p), components(base));
    b.len() <= c.len() && c.take(b.len() as int) == b
}

/// Whether a path is among others, whatever its spelling.
pub open spec fn listed(paths: Seq<Seq<u8>>, p: Seq<u8>) -> bool {
    exists|k: int| 0 <= k < paths.len() && same_path(#[trigger] paths[k], p)
}

/// What is left of `p` below `base`, as it is written in `p`.
pub open spec fn below(p: Seq<u8>, base: Seq<u8>) -> Option<Seq<u8>> {
    if within(p, base) {
        let s = spans_of(p);
        let k = components(base).len() as int;
        Some(
            if k == s.len() {
                Seq::empty()
            } else {
                p.subrange(s[k].0, s.last().1)
            },
        )
    } else {
        None
    }
}

/// The path without its last component; the root and the empty path have none.
pub open spec fn parent_of(p: Seq<u8>) -> Option<Seq<u8>> {
    let s = spans_of(p);
    if s.len() == 0 || p.subrange(s.last().0, s.last().1) == root_word() {
        None
    } else if s.len() == 1 {
        Some(Seq::empty())
    } else {
        Some(p.subrange(0, s[s.len() - 2].1))
    }
}

/// The last component, where it is a name.
pub open spec fn name_of(p: Seq<u8>) -> Option<Seq<u8>> {
    let c = components(p);
    if c.len() > 0 && is_name(c.last()) {
        Some(c.last())
    } else {
        None
    }
}

/// `b` seen from `a`: an absolute `b` stands for itself.
pub open spec fn join_path(a: Seq<u8>, b: Seq<u8>) -> Seq<u8> {
    if absolute_path(b) {
        b
    } else if a.len() == 0 || a.last() == SLASH {
        a + b
    } else {
        a.push(SLASH) + b
    }
}

/// The path itself, its parent, the parent of that, and so on.
pub open spec fn ancestors_of(p: Seq<u8>) -> Seq<Seq<u8>>
    decreases p.len(),
{
    match parent_of(p) {
        Some(q) => {
            proof {
                lemma_parent_shorter(p);
            }
            seq![p] + ancestors_of(q)
        },
        None => seq![p],
    }
}

/// Components written with one slash between neighbours.
pub open spec fn rendered(c: Seq<Seq<u8>>) -> Seq<u8> {
    if c.len() > 0 && c[0] == root_word() {
        root_word() + joined(c.drop_first(), SLASH)
    } else {
        joined(c, SLASH)
    }
}

/// The one spelling of the components of `p`.
pub open spec fn normal(p: Seq<u8>) -> Seq<u8> {
    rendered(components(p))
}

/// The order of words of the same kind, byte by byte.
pub open spec fn word_below(a: Seq<u8>, b: Seq<u8>) -> bool
    decreases a.len(),
{
    if b.len() == 0 {
        false
    } else if a.len() == 0 {
        true
    } else if a[0] != b[0] {
        a[0] < b[0]
    } else {
        word_below(a.drop_first(), b.drop_first())
    }
}

/// The root comes before `.`, that before `..`, and that before every name.
pub open spec fn rank(w: Seq<u8>) -> int {
    if w == root_word() {
        0
    } else if w == current_word() {
        1
    } else if w == parent_word() {
        2
    } else {
        3
    }
}

/// The order of single components.
pub open spec fn component_below(a: Seq<u8>, b: Seq<u8>) -> bool {
    rank(a) < rank(b) || (rank(a) == rank(b) && word_below(a, b))
}

/// The order of component sequences: the first difference decides, and a path
/// comes before what lies below it.
pub open spec fn sequence_below(a: Seq<Seq<u8>>, b: Seq<Seq<u8>>) -> bool
    decreases a.len(),
{
    if b.len() == 0 {
        false
    } else if a.len() == 0 {
        true
    } else if a[0] != b[0] {
        component_below(a[0], b[0])
    } else {
        sequence_below(a.drop_first(), b.drop_first())
    }
}

/// The order of paths.
pub open spec fn path_below(a: Seq<u8>, b: Seq<u8>) -> bool {
    sequence_below(components(a), components(b))
}

pub proof fn lemma_word_end(p: Seq<u8>, i: int)
    requires
        0 <= i <= p.len(),
    ensures
        i <= word_end(p, i) <= p.len(),
        i < p.len() && p[i] != SLASH ==> i < word_end(p, i),
        forall|k: int| i <= k < word_end(p, i) ==> p[k] != SLASH,
        word_end(p, i) < p.len() ==> p[word_end(p, i)] == SLASH,
{
    let t = p.skip(i);
    lemma_first(t, SLASH);
    assert forall|k: int| i <= k < word_end(p, i) implies p[k] != SLASH by {
        assert(t[k - i] == p[k]);
    }
    if i < p.len() {
        assert(t[0] == p[i]);
    }
}

/// A word ends where the first slash from `i` on stands.
proof fn lemma_word_end_is(p: Seq<u8>, i: int, j: int)
    requires
        0 <= i <= j <= p.len(),
        forall|k: int| i <= k < j ==> p[k] != SLASH,
        j < p.len() ==> p[j] == SLASH,
    ensures
        word_end(p, i) == j,
{
    let t = p.skip(i);
    assert forall|k: int| 0 <= k < j - i implies t[k] != SLASH by {
        assert(t[k] == p[k + i]);
    }
    lemma_first_is(t, SLASH, j - i);
}

/// What the words at the positions from `i` on look like.
pub open spec fn good_word(p: Seq<u8>, s: (int, int)) -> bool {
    &&& 0 <= s.0 < s.1 <= p.len()
    &&& !p.subrange(s.0, s.1).contains(SLASH)
    &&& p.subrange(s.0, s.1) == current_word() ==> s.0 == 0
}

pub proof fn lemma_spans_from(p: Seq<u8>, i: int)
    requires
        0 <= i,
    ensures
        forall|k: int|
            0 <= k < spans_from(p, i).len() ==> good_word(p, #[trigger] spans_from(p, i)[k])
                && spans_from(p, i)[k].0 >= i,
        forall|k: int, l: int|
            0 <= k < l < spans_from(p, i).len() ==> (#[trigger] spans_from(p, i)[k]).1 <= (
            #[trigger] spans_from(p, i)[l]).0,
    decreases p.len() - i,
{
    if i >= p.len() {
    } else if p[i] == SLASH {
        lemma_spans_from(p, i + 1);
        assert(spans_from(p, i) == spans_from(p, i + 1));
    } else {
        lemma_word_end(p, i);
        let j = word_end(p, i);
        lemma_spans_from(p, j);
        let w = p.subrange(i, j);
        assert(!w.contains(SLASH)) by {
            if w.contains(SLASH) {
                let k = choose|k: int| 0 <= k < w.len() && w[k] == SLASH;
                assert(p[i + k] == SLASH);
            }
        }
        let rest = spans_from(p, j);
        let all = spans_from(p, i);
        if i > 0 && w == current_word() {
            assert(all == rest);
        } else {
            assert(all =~= seq![(i, j)] + rest);
            assert(all[0] == (i, j));
            assert forall|k: int| 0 <= k < all.len() implies good_word(p, #[trigger] all[k])
                && all[k].0 >= i by {
                if k > 0 {
                    assert(all[k] == rest[k - 1]);
                }
            }
            assert forall|k: int, l: int| 0 <= k < l < all.len() implies (#[trigger] all[k]).1 <= (
            #[trigger] all[l]).0 by {
                assert(all[l] == rest[l - 1]);
                if k > 0 {
                    assert(all[k] == rest[k - 1]);
                }
            }
        }
    }
}

/// The positions of the components rise, lie inside the path, and only the first
/// component can be the root or `.`.
pub proof fn lemma_spans(p: Seq<u8>)
    ensures
        forall|k: int|
            0 <= k < spans_of(p).len() ==> 0 <= (#[trigger] spans_of(p)[k]).0 < spans_of(p)[k].1
                <= p.len(),
        forall|k: int, l: int|
            0 <= k < l < spans_of(p).len() ==> (#[trigger] spans_of(p)[k]).1 <= (
            #[trigger] spans_of(p)[l]).0,
        forall|k: int|
            0 < k < spans_of(p).len() ==> good_word(p, #[trigger] spans_of(p)[k]) && spans_of(
                p,
            )[k].0 > 0,
        spans_of(p).len() > 0 ==> spans_of(p)[0].0 == 0 || !absolute_path(p),
        !absolute_path(p) && spans_of(p).len() > 0 ==> good_word(p, spans_of(p)[0]),
        absolute_path(p) ==> spans_of(p).len() > 0 && p.subrange(
            spans_of(p)[0].0,
            spans_of(p)[0].1,
        ) == root_word(),
        components(p).len() == spans_of(p).len(),
{
    if absolute_path(p) {
        lemma_spans_from(p, 1);
        let rest = spans_from(p, 1);
        let all = spans_of(p);
        assert(all =~= seq![(0int, 1int)] + rest);
        assert(all[0] == (0int, 1int));
        assert(p.subrange(0, 1) =~= root_word());
        assert forall|k: int| 0 < k < all.len() implies good_word(p, #[trigger] all[k]) && all[k].0
            > 0 by {
            assert(all[k] == rest[k - 1]);
        }
        assert forall|k: int| 0 <= k < all.len() implies 0 <= (#[trigger] all[k]).0 < all[k].1
            <= p.len() by {
            if k > 0 {
                assert(good_word(p, all[k]));
            }
        }
        assert forall|k: int, l: int| 0 <= k < l < all.len() implies (#[trigger] all[k]).1 <= (
        #[trigger] all[l]).0 by {
            assert(all[l] == rest[l - 1]);
            if k > 0 {
                assert(all[k] == rest[k - 1]);
            }
        }
    } else {
        lemma_spans_from(p, 0);
        let all = spans_of(p);
        assert forall|k: int| 0 < k < all.len() implies good_word(p, #[trigger] all[k]) && all[k].0
            > 0 by {
            assert(good_word(p, all[0]));
            assert(all[0].1 <= all[k].0);
        }
    }
}

pub proof fn lemma_parent_shorter(p: Seq<u8>)
    ensures
        parent_of(p) matches Some(q) ==> q.len() < p.len(),
{
    lemma_spans(p);
}

/// A component that is no root: a word without slash, and not empty.
pub open spec fn plain_word(w: Seq<u8>) -> bool {
    w.len() > 0 && !w.contains(SLASH)
}

/// A sequence that some path has as its components.
pub open spec fn well_formed(c: Seq<Seq<u8>>) -> bool {
    &&& forall|k: int| 0 < k < c.len() ==> plain_word(#[trigger] c[k]) && c[k] != current_word()
    &&& c.len() > 0 ==> c[0] == root_word() || plain_word(c[0])
}

/// The components of every path are well formed.
pub proof fn lemma_components_well_formed(p: Seq<u8>)
    ensures
        well_formed(components(p)),
        components(p).len() == spans_of(p).len(),
        absolute_path(p) <==> components(p).len() > 0 && components(p)[0] == root_word(),
{
    lemma_spans(p);
    let s = spans_of(p);
    let c = components(p);
    assert forall|k: int| 0 < k < c.len() implies plain_word(#[trigger] c[k]) && c[k]
        != current_word() by {
        assert(good_word(p, s[k]));
    }
    if c.len() > 0 && !absolute_path(p) {
        assert(good_word(p, s[0]));
        assert(plain_word(c[0]));
        assert(root_word()[0] == SLASH);
        assert(root_word().contains(SLASH));
    }
}

/// Words written after one another are read back from where they begin.
proof fn lemma_words_read(q: Seq<u8>, c: Seq<Seq<u8>>)
    requires
        forall|k: int|
            0 <= k < c.len() ==> plain_word(#[trigger] c[k]) && (c[k] != current_word() || (k == 0
                && q.len() == 0)),
    ensures
        words_at(q + joined(c, SLASH), spans_from(q + joined(c, SLASH), q.len() as int)) == c,
    decreases c.len(),
{
    let p = q + joined(c, SLASH);
    let i = q.len() as int;
    if c.len() == 0 {
        assert(words_at(p, spans_from(p, i)) =~= c);
    } else {
        let w = c[0];
        let rest = c.drop_first();
        let j = i + w.len();
        assert(plain_word(w));
        assert(p.subrange(i, j) =~= w);
        assert forall|k: int| i <= k < j implies p[k] != SLASH by {
            assert(p[k] == w[k - i]);
            assert(w.contains(w[k - i]));
        }
        if c.len() == 1 {
            assert(j == p.len());
            lemma_word_end_is(p, i, j);
            assert(spans_from(p, j) =~= Seq::<(int, int)>::empty());
            assert(spans_from(p, i) =~= seq![(i, j)]);
            assert(words_at(p, spans_from(p, i)) =~= c);
        } else {
            assert(p[j] == SLASH);
            lemma_word_end_is(p, i, j);
            let q2 = q + w + seq![SLASH];
            assert(p =~= q2 + joined(rest, SLASH));
            assert forall|k: int| 0 <= k < rest.len() implies plain_word(#[trigger] rest[k]) && (
            rest[k] != current_word() || (k == 0 && q2.len() == 0)) by {
                assert(rest[k] == c[k + 1]);
            }
            lemma_words_read(q2, rest);
            assert(spans_from(p, j) == spans_from(p, j + 1));
            assert(spans_from(p, i) =~= seq![(i, j)] + spans_from(p, j));
            assert(words_at(p, spans_from(p, i)) =~= seq![w] + words_at(p, spans_from(p, j)));
            assert(words_at(p, spans_from(p, i)) =~= c);
        }
    }
}

/// Well-formed components are the components of their own spelling.
pub proof fn lemma_rendered(c: Seq<Seq<u8>>)
    requires
        well_formed(c),
    ensures
        components(rendered(c)) == c,
{
    let p = rendered(c);
    if c.len() > 0 && c[0] == root_word() {
        let rest = c.drop_first();
        assert forall|k: int| 0 <= k < rest.len() implies plain_word(#[trigger] rest[k]) && (rest[k]
            != current_word() || (k == 0 && root_word().len() == 0)) by {
            assert(rest[k] == c[k + 1]);
        }
        lemma_words_read(root_word(), rest);
        assert(p[0] == SLASH);
        assert(absolute_path(p));
        assert(p.subrange(0, 1) =~= root_word());
        assert(components(p) =~= seq![root_word()] + words_at(p, spans_from(p, 1)));
        assert(components(p) =~= c);
    } else {
        assert forall|k: int| 0 <= k < c.len() implies plain_word(#[trigger] c[k]) && (c[k]
            != current_word() || (k == 0 && Seq::<u8>::empty().len() == 0)) by {}
        lemma_words_read(Seq::<u8>::empty(), c);
        assert(p =~= Seq::<u8>::empty() + joined(c, SLASH));
        assert(!absolute_path(p)) by {
            if c.len() > 0 {
                assert(p[0] == c[0][0]);
                assert(c[0].contains(c[0][0]));
            }
        }
    }
}

/// The normal spelling names the same entry, and two paths name the same entry
/// exactly when their normal spellings are equal.
pub proof fn law_normal(a: Seq<u8>, b: Seq<u8>)
    ensures
        same_path(normal(a), a),
        normal(a) == normal(b) <==> same_path(a, b),
{
    lemma_components_well_formed(a);
    lemma_components_well_formed(b);
    lemma_rendered(components(a));
    lemma_rendered(components(b));
}

/// A path is within another when the components of that one come first in it,
/// so being within is transitive.
pub proof fn law_within_transitive(a: Seq<u8>, b: Seq<u8>, c: Seq<u8>)
    requires
        within(a, b),
        within(b, c),
    ensures
        within(a, c),
{
    let (x, y, z) = (components(a), components(b), components(c));
    assert(x.take(z.len() as int) =~= x.take(y.len() as int).take(z.len() as int));
}

/// Reading `a + t` from `i` gives the words of `a` and then those of the tail,
/// where a slash stands at the seam.
proof fn lemma_spans_tail(a: Seq<u8>, t: Seq<u8>, i: int)
    requires
        0 <= i <= a.len(),
        t.len() == 0 || t[0] == SLASH || (a.len() > 0 && a.last() == SLASH),
    ensures
        spans_from(a + t, i) == spans_from(a, i) + spans_from(a + t, a.len() as int),
    decreases a.len() - i,
{
    let p = a + t;
    if i == a.len() {
        assert(spans_from(a, i) =~= Seq::<(int, int)>::empty());
        assert(spans_from(p, i) =~= spans_from(a, i) + spans_from(p, i));
    } else if a[i] == SLASH {
        lemma_spans_tail(a, t, i + 1);
    } else {
        lemma_word_end(a, i);
        let j = word_end(a, i);
        assert(j == a.len() ==> a.last() != SLASH) by {
            if j == a.len() {
                assert(a[j - 1] != SLASH);
            }
        }
        lemma_word_end_is(p, i, j);
        lemma_spans_tail(a, t, j);
        assert(p.subrange(i, j) =~= a.subrange(i, j));
        assert(spans_from(p, i) =~= spans_from(a, i) + spans_from(p, a.len() as int));
    }
}

/// What is joined to a path lies within it, unless it is absolute.
pub proof fn law_join_within(a: Seq<u8>, b: Seq<u8>)
    requires
        !absolute_path(b),
    ensures
        within(join_path(a, b), a),
{
    let p = join_path(a, b);
    if a.len() == 0 {
        assert(components(a) =~= Seq::<Seq<u8>>::empty());
        assert(components(p).take(0) =~= components(a));
    } else {
        let t = p.skip(a.len() as int);
        assert(p =~= a + t);
        let start: int = if absolute_path(a) {
            1
        } else {
            0
        };
        lemma_spans_tail(a, t, start);
        lemma_spans(a);
        let s = spans_of(a);
        let tail = spans_from(p, a.len() as int);
        assert(spans_of(p) =~= s + tail);
        let c = components(p);
        assert forall|k: int| 0 <= k < s.len() implies #[trigger] c[k] == components(a)[k] by {
            assert(s[k].1 <= a.len());
            assert(p.subrange(s[k].0, s[k].1) =~= a.subrange(s[k].0, s[k].1));
        }
        assert(c.take(s.len() as int) =~= components(a));
    }
}

/// The last component of a path gives its parent a shorter list of components:
/// the path lies within its parent, with one component more.
pub proof fn law_parent(p: Seq<u8>)
    ensures
        parent_of(p) matches Some(q) ==> components(q) == components(p).drop_last(),
        parent_of(p) is None <==> components(p).len() == 0 || components(p).last() == root_word(),
{
    lemma_spans(p);
    let s = spans_of(p);
    if let Some(q) = parent_of(p) {
        if s.len() == 1 {
            assert(components(q) =~= components(p).drop_last());
        } else {
            let e = s[s.len() - 2].1;
            let t = p.subrange(e, p.len() as int);
            let (start, pre): (int, Seq<(int, int)>) = if absolute_path(p) {
                (1, seq![(0int, 1int)])
            } else {
                (0, Seq::empty())
            };
            assert(q =~= p.take(e));
            assert(s[0].1 <= e) by {
                if s.len() > 2 {
                    assert(s[0].1 <= s[s.len() - 2].0);
                }
            }
            assert(absolute_path(q) == absolute_path(p));
            assert(s =~= pre + spans_from(p, start));
            if s.len() - 1 - pre.len() > 0 {
                lemma_spans_cut(p, start, s.len() - 1 - pre.len());
            }
            assert(spans_of(q) =~= s.drop_last()) by {
                if pre.len() == 1 && s.len() == 2 {
                    assert(e == 1);
                    assert(spans_from(q, 1) =~= Seq::<(int, int)>::empty());
                }
            }
            assert forall|k: int| 0 <= k < s.len() - 1 implies #[trigger] components(q)[k]
                == components(p)[k] by {
                assert(s[k].1 <= e) by {
                    if k < s.len() - 2 {
                        assert(s[k].1 <= s[s.len() - 2].0);
                    }
                }
                assert(q.subrange(s[k].0, s[k].1) =~= p.subrange(s[k].0, s[k].1));
            }
            assert(components(q) =~= components(p).drop_last());
        }
    }
}

/// Cutting a path behind its `n`th word from `i` on keeps the words before the cut.
proof fn lemma_spans_cut(p: Seq<u8>, i: int, n: int)
    requires
        0 <= i,
        0 < n <= spans_from(p, i).len(),
    ensures
        spans_from(p.take(spans_from(p, i)[n - 1].1), i) == spans_from(p, i).take(n),
    decreases p.len() - i,
{
    lemma_spans_from(p, i);
    let all = spans_from(p, i);
    let e = all[n - 1].1;
    let q = p.take(e);
    assert(good_word(p, all[n - 1]));
    assert(i < e);
    if p[i] == SLASH {
        lemma_spans_cut(p, i + 1, n);
    } else {
        lemma_word_end(p, i);
        let j = word_end(p, i);
        let rest = spans_from(p, j);
        if i > 0 && p.subrange(i, j) == current_word() {
            lemma_spans_cut(p, j, n);
            lemma_spans_from(p, j);
            assert(rest[n - 1].0 >= j);
            lemma_word_end_is(q, i, j);
            assert(q.subrange(i, j) =~= p.subrange(i, j));
        } else {
            assert(all =~= seq![(i, j)] + rest);
            if n == 1 {
                assert(e == j);
                lemma_word_end_is(q, i, j);
                assert(q.subrange(i, j) =~= p.subrange(i, j));
                assert(spans_from(q, j) =~= Seq::<(int, int)>::empty());
                assert(spans_from(q, i) =~= all.take(1));
            } else {
                lemma_spans_from(p, j);
                assert(all[n - 1] == rest[n - 2]);
                assert(rest[n - 2].0 >= j);
                lemma_spans_cut(p, j, n - 1);
                lemma_word_end_is(q, i, j);
                assert(q.subrange(i, j) =~= p.subrange(i, j));
                assert(spans_from(q, i) =~= all.take(n));
            }
        }
    }
}


/// Reading from behind a prefix gives the words of what stands behind it.
proof fn lemma_spans_shift(q: Seq<u8>, b: Seq<u8>, i: int)
    requires
        q.len() > 0,
        0 <= i <= b.len(),
        i == 0 && b.len() > 0 ==> b[0] != SLASH && b.subrange(0, word_end(b, 0)) != current_word(),
    ensures
        words_at(q + b, spans_from(q + b, q.len() + i)) == words_at(b, spans_from(b, i)),
    decreases b.len() - i,
{
    let p = q + b;
    let n = q.len() as int;
    if i >= b.len() {
        assert(words_at(p, spans_from(p, n + i)) =~= words_at(b, spans_from(b, i)));
    } else if b[i] == SLASH {
        lemma_spans_shift(q, b, i + 1);
    } else {
        lemma_word_end(b, i);
        let j = word_end(b, i);
        lemma_word_end_is(p, n + i, n + j);
        lemma_spans_shift(q, b, j);
        let w = b.subrange(i, j);
        assert(p.subrange(n + i, n + j) =~= w);
        if !(i > 0 && w == current_word()) {
            assert(words_at(p, spans_from(p, n + i)) =~= seq![w] + words_at(
                p,
                spans_from(p, n + j),
            ));
            assert(words_at(b, spans_from(b, i)) =~= seq![w] + words_at(b, spans_from(b, j)));
        }
    }
}

/// Reading from where a word begins gives that word and those behind it.
proof fn lemma_spans_suffix(p: Seq<u8>, i: int, n: int)
    requires
        0 <= i,
        0 <= n < spans_from(p, i).len(),
    ensures
        spans_from(p, spans_from(p, i)[n].0) == spans_from(p, i).skip(n),
    decreases p.len() - i,
{
    let all = spans_from(p, i);
    if p[i] == SLASH {
        lemma_spans_suffix(p, i + 1, n);
    } else {
        lemma_word_end(p, i);
        let j = word_end(p, i);
        let rest = spans_from(p, j);
        if i > 0 && p.subrange(i, j) == current_word() {
            lemma_spans_suffix(p, j, n);
        } else {
            assert(all =~= seq![(i, j)] + rest);
            if n == 0 {
                assert(all.skip(0) =~= all);
            } else {
                assert(all[n] == rest[n - 1]);
                lemma_spans_suffix(p, j, n - 1);
                assert(all.skip(n) =~= rest.skip(n - 1));
            }
        }
    }
}

/// The first word of a relative path is read up to its end.
proof fn lemma_first_word(b: Seq<u8>)
    requires
        b.len() > 0,
        !absolute_path(b),
    ensures
        components(b).len() > 0,
        components(b)[0] == b.subrange(0, word_end(b, 0)),
{
    lemma_word_end(b, 0);
    let j = word_end(b, 0);
    assert(spans_of(b) =~= seq![(0int, j)] + spans_from(b, j));
    assert(spans_of(b)[0] == (0int, j));
}

/// Whether a path is written from where it is joined: it is relative and does not
/// begin with `.`.
pub open spec fn joinable(b: Seq<u8>) -> bool {
    !absolute_path(b) && (components(b).len() > 0 ==> components(b)[0] != current_word())
}

/// Joining two paths puts their components one after the other.
pub proof fn law_join(a: Seq<u8>, b: Seq<u8>)
    requires
        a.len() > 0,
        joinable(b),
    ensures
        components(join_path(a, b)) == components(a) + components(b),
{
    let p = join_path(a, b);
    let t = p.skip(a.len() as int);
    assert(p =~= a + t);
    let start: int = if absolute_path(a) {
        1
    } else {
        0
    };
    lemma_spans_tail(a, t, start);
    lemma_spans(a);
    let s = spans_of(a);
    let tail = spans_from(p, a.len() as int);
    assert(spans_of(p) =~= s + tail);
    let q = p.take(p.len() - b.len());
    assert(p =~= q + b);
    if b.len() > 0 {
        lemma_first_word(b);
    }
    lemma_spans_shift(q, b, 0);
    assert(spans_of(b) == spans_from(b, 0));
    assert(tail == spans_from(p, q.len() as int)) by {
        if q.len() > a.len() {
            assert(p[a.len() as int] == SLASH);
        }
    }
    let c = components(p);
    assert forall|k: int| 0 <= k < s.len() implies #[trigger] c[k] == components(a)[k] by {
        assert(s[k].1 <= a.len());
        assert(p.subrange(s[k].0, s[k].1) =~= a.subrange(s[k].0, s[k].1));
    }
    assert forall|k: int| s.len() <= k < c.len() implies #[trigger] c[k] == components(b)[k
        - s.len()] by {
        assert(c[k] == words_at(p, tail)[k - s.len()]);
        assert(words_at(p, tail) == components(b));
    }
    assert(c.len() == s.len() + words_at(p, tail).len());
    assert(c =~= components(a) + components(b));
}

/// The components of a path from the `k`th on are read where that one begins.
proof fn lemma_spans_behind(p: Seq<u8>, start: int, k: int)
    requires
        0 <= start,
        0 <= k < spans_from(p, start).len(),
    ensures
        spans_from(p.take(spans_from(p, start).last().1), spans_from(p, start)[k].0)
            == spans_from(p, start).skip(k),
{
    let all = spans_from(p, start);
    lemma_spans_cut(p, start, all.len() as int);
    assert(all.take(all.len() as int) =~= all);
    lemma_spans_suffix(p.take(all.last().1), start, k);
}

/// Cutting off what stands behind the last component keeps the components.
proof fn lemma_words_behind(p: Seq<u8>, k: int)
    requires
        0 <= k < spans_of(p).len(),
    ensures
        words_at(p.take(spans_of(p).last().1), spans_of(p).skip(k)) == components(p).skip(k),
{
    lemma_spans(p);
    let s = spans_of(p);
    let e = s.last().1;
    let q = p.take(e);
    let c = components(p);
    let d = words_at(q, s.skip(k));
    assert forall|x: int| 0 <= x < d.len() implies #[trigger] d[x] == c[k + x] by {
        if k + x < s.len() - 1 {
            assert(s[k + x].1 <= s[s.len() - 1].0);
        }
        assert(q.subrange(s[k + x].0, s[k + x].1) =~= p.subrange(s[k + x].0, s[k + x].1));
    }
    assert(d =~= c.skip(k));
}

/// A word at a position from which a path is read ends where the path says.
proof fn lemma_word_read(q: Seq<u8>, b: int)
    requires
        0 <= b < q.len(),
        q[b] != SLASH,
        spans_from(q, b).len() > 0,
        spans_from(q, b)[0].0 == b,
    ensures
        word_end(q, b) == spans_from(q, b)[0].1,
{
    lemma_word_end(q, b);
    let j = word_end(q, b);
    lemma_spans_from(q, j);
    if b > 0 && q.subrange(b, j) == current_word() {
        assert(spans_from(q, j)[0].0 >= j);
    }
}

/// A path without what comes behind its last component has the same components.
proof fn lemma_trimmed_end(p: Seq<u8>)
    requires
        spans_of(p).len() > 0,
    ensures
        spans_of(p)[0].0 == 0,
        components(p.take(spans_of(p).last().1)) == components(p),
{
    lemma_spans(p);
    let s = spans_of(p);
    let q = p.take(s.last().1);
    let n = s.len() as int;
    if absolute_path(p) {
        let more = spans_from(p, 1);
        assert(s =~= seq![(0int, 1int)] + more);
        if n == 1 {
            assert(more.len() == 0);
            assert(spans_from(q, 1) =~= more);
        } else {
            assert(more.last() == s.last());
            lemma_spans_cut(p, 1, n - 1);
            assert(more.take(n - 1) =~= more);
        }
        assert(absolute_path(q));
    } else {
        lemma_word_end(p, 0);
        lemma_spans_cut(p, 0, n);
        assert(s.take(n) =~= s);
    }
    assert(spans_of(q) =~= s);
    assert forall|k: int| 0 <= k < n implies #[trigger] components(q)[k] == components(p)[k] by {
        assert(s[k].1 <= s.last().1) by {
            if k < n - 1 {
                assert(s[k].1 <= s[n - 1].0);
            }
        }
        assert(q.subrange(s[k].0, s[k].1) =~= p.subrange(s[k].0, s[k].1));
    }
    assert(components(q) =~= components(p));
}

/// What is left of a path below another one has the components that are left, and
/// can be joined again, unless that one has no component at all.
pub proof fn law_below(p: Seq<u8>, base: Seq<u8>)
    ensures
        below(p, base) matches Some(relative) ==> {
            &&& components(relative) == components(p).skip(components(base).len() as int)
            &&& components(base).len() > 0 ==> joinable(relative)
        },
{
    if let Some(relative) = below(p, base) {
        lemma_spans(p);
        let s = spans_of(p);
        let k = components(base).len() as int;
        if k == s.len() {
            assert(components(relative) =~= components(p).skip(k));
        } else if k == 0 {
            lemma_trimmed_end(p);
            assert(relative =~= p.take(s.last().1));
            assert(components(p).skip(0) =~= components(p));
        } else {
            let b = s[k].0;
            let e = s.last().1;
            let q = p.take(e);
            lemma_words_behind(p, k);
            if absolute_path(p) {
                assert(s =~= seq![(0int, 1int)] + spans_from(p, 1));
                lemma_spans_behind(p, 1, k - 1);
                assert(spans_from(p, 1).skip(k - 1) =~= s.skip(k));
                assert(spans_from(p, 1)[k - 1] == s[k]);
                assert(spans_from(p, 1).last() == s.last());
            } else {
                lemma_spans_behind(p, 0, k);
            }
            assert(spans_from(q, b) == s.skip(k));
            assert(spans_from(q, b)[0] == s[k]);
            assert(good_word(p, s[k]));
            assert(s[k].1 <= e) by {
                if k < s.len() - 1 {
                    assert(s[k].1 <= s[s.len() - 1].0);
                }
            }
            let front = p.take(b);
            assert(q =~= front + relative);
            let word = p.subrange(b, s[k].1);
            assert(relative[0] == word[0]);
            assert(word.contains(word[0]));
            lemma_first_word(relative);
            lemma_word_end(relative, 0);
            let j = word_end(relative, 0);
            assert(q[b] == relative[0]);
            lemma_word_read(q, b);
            assert forall|x: int| b <= x < b + j implies q[x] != SLASH by {
                assert(q[x] == relative[x - b]);
            }
            assert(b + j < q.len() ==> q[b + j] == relative[j]);
            lemma_word_end_is(q, b, b + j);
            assert(relative.subrange(0, j) =~= word);
            lemma_spans_shift(front, relative, 0);
        }
    }
}

/// Whether a path ends with its last component.
pub open spec fn trimmed(p: Seq<u8>) -> bool {
    spans_of(p).len() > 0 && spans_of(p).last().1 == p.len()
}

/// A name joined to a path that ends with its last component can be taken off
/// again.
pub proof fn law_join_name(a: Seq<u8>, w: Seq<u8>)
    requires
        trimmed(a),
        plain_word(w),
        is_name(w),
    ensures
        trimmed(join_path(a, w)),
        components(join_path(a, w)) == components(a).push(w),
        name_of(join_path(a, w)) == Some(w),
        parent_of(join_path(a, w)) == Some(a),
        absolute_path(join_path(a, w)) == absolute_path(a),
{
    lemma_spans(a);
    assert(a.len() > 0);
    assert(w.contains(w[0]));
    assert forall|x: int| 0 <= x < w.len() implies w[x] != SLASH by {
        assert(w.contains(w[x]));
    }
    lemma_word_end_is(w, 0, w.len() as int);
    assert(w.subrange(0, w.len() as int) =~= w);
    lemma_first_word(w);
    assert(spans_of(w) =~= seq![(0int, w.len() as int)]) by {
        assert(spans_from(w, w.len() as int) =~= Seq::<(int, int)>::empty());
    }
    assert(components(w) =~= seq![w]);
    law_join(a, w);
    let p = join_path(a, w);
    let t = p.skip(a.len() as int);
    assert(p =~= a + t);
    let start: int = if absolute_path(a) {
        1
    } else {
        0
    };
    lemma_spans_tail(a, t, start);
    let s = spans_of(a);
    let tail = spans_from(p, a.len() as int);
    assert(spans_of(p) =~= s + tail);
    lemma_spans(p);
    assert(tail.len() == 1);
    let n = p.len() - w.len();
    assert(tail == spans_from(p, n)) by {
        if n > a.len() {
            assert(p[a.len() as int] == SLASH);
        }
    }
    assert forall|x: int| n <= x < p.len() implies p[x] != SLASH by {
        assert(p[x] == w[x - n]);
    }
    lemma_word_end_is(p, n, p.len() as int);
    assert(p.subrange(n, p.len() as int) =~= w);
    assert(spans_from(p, p.len() as int) =~= Seq::<(int, int)>::empty());
    assert(tail =~= seq![(n, p.len() as int)]);
    assert(spans_of(p).last() == tail[0]);
    assert(spans_of(p)[spans_of(p).len() - 2] == s.last());
    assert(p.subrange(0, a.len() as int) =~= a);
    assert(components(a) + components(w) =~= components(a).push(w));
    assert(w != root_word());
}

/// A parent ends with its last component, and begins as the path does.
pub proof fn law_parent_trimmed(p: Seq<u8>)
    requires
        absolute_path(p),
    ensures
        parent_of(p) matches Some(q) ==> trimmed(q) && absolute_path(q),
{
    lemma_spans(p);
    let s = spans_of(p);
    if let Some(q) = parent_of(p) {
        assert(s.len() >= 2);
        let e = s[s.len() - 2].1;
        assert(q =~= p.take(e));
        assert(s[0].1 <= e) by {
            if s.len() > 2 {
                assert(s[0].1 <= s[s.len() - 2].0);
            }
        }
        assert(absolute_path(q));
        assert(s =~= seq![(0int, 1int)] + spans_from(p, 1));
        if s.len() > 2 {
            lemma_spans_cut(p, 1, s.len() - 2);
            assert(spans_from(p, 1)[s.len() - 3] == s[s.len() - 2]);
            assert(spans_of(q) =~= s.drop_last());
        } else {
            assert(spans_from(q, 1) =~= Seq::<(int, int)>::empty());
            assert(spans_of(q) =~= seq![(0int, 1int)]);
        }
    }
}

/// An absolute path of names in its normal spelling is its parent with its last
/// name joined to it.
pub proof fn law_normal_parent(p: Seq<u8>)
    requires
        absolute_path(p),
        normal(p) == p,
        forall|k: int| 0 < k < components(p).len() ==> is_name(#[trigger] components(p)[k]),
    ensures
        trimmed(p),
        name_of(p) is Some <==> parent_of(p) is Some,
        name_of(p) matches Some(w) ==> (parent_of(p) matches Some(q) && join_path(q, w) == p),
    decreases components(p).len(),
{
    lemma_components_well_formed(p);
    law_parent(p);
    let c = components(p);
    if c.len() == 1 {
        assert(c.drop_first() =~= Seq::<Seq<u8>>::empty());
        assert(p =~= root_word());
        assert(spans_from(p, 1) =~= Seq::<(int, int)>::empty());
        assert(spans_of(p) =~= seq![(0int, 1int)]);
        assert(!is_name(c.last()));
    } else {
        let w = c.last();
        let d = c.drop_last();
        let q = rendered(d);
        assert(plain_word(c[c.len() - 1]) && is_name(c[c.len() - 1]));
        assert(well_formed(d)) by {
            assert forall|k: int| 0 < k < d.len() implies plain_word(#[trigger] d[k]) && d[k]
                != current_word() by {
                assert(d[k] == c[k]);
            }
            assert(d[0] == c[0]);
        }
        lemma_rendered(d);
        lemma_components_well_formed(q);
        assert(normal(q) == q);
        assert forall|k: int| 0 < k < components(q).len() implies is_name(
            #[trigger] components(q)[k],
        ) by {
            assert(components(q)[k] == c[k]);
        }
        law_normal_parent(q);
        assert(c.drop_first() =~= d.drop_first().push(w));
        lemma_joined_push(d.drop_first(), w, SLASH);
        assert(w.contains(w[0]));
        if d.len() == 1 {
            assert(d.drop_first() =~= Seq::<Seq<u8>>::empty());
            assert(q =~= root_word());
            assert(p =~= join_path(q, w));
        } else {
            assert(q.last() != SLASH) by {
                let x = d[d.len() - 1];
                assert(x == c[d.len() - 1]);
                assert(plain_word(x));
                assert(d.drop_first() =~= d.drop_first().drop_last().push(x));
                lemma_joined_push(d.drop_first().drop_last(), x, SLASH);
                assert(q.last() == x.last());
                assert(x.contains(x.last()));
            }
            assert(p =~= join_path(q, w));
        }
        law_join_name(q, w);
    }
}

/// Positions held in machine integers, as integers.
pub open spec fn marks(v: Seq<(usize, usize)>) -> Seq<(int, int)> {
    v.map_values(|s: (usize, usize)| (s.0 as int, s.1 as int))
}

/// Whether two byte strings are equal.
pub fn equal_bytes(a: &[u8], b: &[u8]) -> (r: bool)
    ensures
        r == (a@ == b@),
{
    if a.len() != b.len() {
        return false;
    }
    let mut i: usize = 0;
    while i < a.len()
        invariant
            a@.len() == b@.len(),
            i <= a@.len(),
            a@.take(i as int) == b@.take(i as int),
        decreases a@.len() - i,
    {
        if a[i] != b[i] {
            assert(a@[i as int] != b@[i as int]);
            return false;
        }
        assert(a@.take(i + 1) =~= a@.take(i as int).push(a@[i as int]));
        assert(b@.take(i + 1) =~= b@.take(i as int).push(b@[i as int]));
        i = i + 1;
    }
    assert(a@.take(i as int) =~= a@);
    assert(b@.take(i as int) =~= b@);
    true
}

/// Whether `p` begins at the root.
pub fn is_absolute(p: &[u8]) -> (r: bool)
    ensures
        r == absolute_path(p@),
{
    p.len() > 0 && p[0] == SLASH
}

/// The positions of the components of `p`.
pub fn spans(p: &[u8]) -> (r: Vec<(usize, usize)>)
    ensures
        marks(r@) == spans_of(p@),
{
    let n = p.len();
    let mut out: Vec<(usize, usize)> = Vec::new();
    let mut i: usize = 0;
    if is_absolute(p) {
        out.push((0, 1));
        i = 1;
        assert(marks(out@) =~= seq![(0int, 1int)]);
    } else {
        assert(marks(out@) + spans_from(p@, 0) =~= spans_of(p@));
    }
    while i < n
        invariant
            n == p@.len(),
            i <= n,
            marks(out@) + spans_from(p@, i as int) == spans_of(p@),
        decreases n - i,
    {
        if p[i] == SLASH {
            i = i + 1;
        } else {
            let mut j: usize = i;
            while j < n && p[j] != SLASH
                invariant
                    n == p@.len(),
                    i <= j <= n,
                    forall|k: int| i <= k < j ==> p@[k] != SLASH,
                decreases n - j,
            {
                j = j + 1;
            }
            proof {
                lemma_word_end_is(p@, i as int, j as int);
            }
            assert(p@[i as int] != SLASH);
            let ghost before = marks(out@);
            let dot = i > 0 && j - i == 1 && p[i] == DOT;
            proof {
                let w = p@.subrange(i as int, j as int);
                assert(w == current_word() <==> j - i == 1 && p@[i as int] == DOT) by {
                    if j - i == 1 && p@[i as int] == DOT {
                        assert(w =~= current_word());
                    }
                    if w == current_word() {
                        assert(w[0] == DOT);
                        assert(w.len() == 1);
                    }
                }
            }
            if !dot {
                out.push((i, j));
                proof {
                    assert(marks(out@) =~= before.push((i as int, j as int)));
                    assert(marks(out@) + spans_from(p@, j as int) =~= before + spans_from(
                        p@,
                        i as int,
                    ));
                }
            }
            i = j;
        }
    }
    assert(marks(out@) =~= marks(out@) + spans_from(p@, n as int));
    out
}

/// Whether the first `n` components of two paths are the same.
fn same_words(a: &[u8], s: &Vec<(usize, usize)>, b: &[u8], t: &Vec<(usize, usize)>, n: usize) -> (r:
    bool)
    requires
        marks(s@) == spans_of(a@),
        marks(t@) == spans_of(b@),
        n <= s@.len(),
        n <= t@.len(),
    ensures
        r == (components(a@).take(n as int) == components(b@).take(n as int)),
{
    proof {
        lemma_spans(a@);
        lemma_spans(b@);
    }
    let mut k: usize = 0;
    while k < n
        invariant
            k <= n,
            n <= s@.len(),
            n <= t@.len(),
            marks(s@) == spans_of(a@),
            marks(t@) == spans_of(b@),
            components(a@).len() == s@.len(),
            components(b@).len() == t@.len(),
            forall|l: int|
                0 <= l < spans_of(a@).len() ==> 0 <= (#[trigger] spans_of(a@)[l]).0 < spans_of(
                    a@,
                )[l].1 <= a@.len(),
            forall|l: int|
                0 <= l < spans_of(b@).len() ==> 0 <= (#[trigger] spans_of(b@)[l]).0 < spans_of(
                    b@,
                )[l].1 <= b@.len(),
            forall|l: int| 0 <= l < k ==> #[trigger] components(a@)[l] == components(b@)[l],
        decreases n - k,
    {
        let x = s[k];
        let y = t[k];
        proof {
            assert(spans_of(a@)[k as int] == marks(s@)[k as int]);
            assert(spans_of(b@)[k as int] == marks(t@)[k as int]);
            assert(components(a@)[k as int] == a@.subrange(x.0 as int, x.1 as int));
            assert(components(b@)[k as int] == b@.subrange(y.0 as int, y.1 as int));
        }
        if !equal_bytes(slice_subrange(a, x.0, x.1), slice_subrange(b, y.0, y.1)) {
            assert(components(a@).take(n as int)[k as int] != components(b@).take(n as int)[k as int]);
            return false;
        }
        k = k + 1;
    }
    assert(components(a@).take(n as int) =~= components(b@).take(n as int));
    true
}

/// Whether two paths have the same components.
pub fn same(a: &[u8], b: &[u8]) -> (r: bool)
    ensures
        r == same_path(a@, b@),
{
    let s = spans(a);
    let t = spans(b);
    proof {
        lemma_spans(a@);
        lemma_spans(b@);
        assert(components(a@).take(components(a@).len() as int) =~= components(a@));
        assert(components(b@).take(components(b@).len() as int) =~= components(b@));
        assert(marks(s@).len() == s@.len());
        assert(marks(t@).len() == t@.len());
    }
    s.len() == t.len() && same_words(a, &s, b, &t, s.len())
}

/// Whether `p` is `base` or lies below it.
pub fn starts_with(p: &[u8], base: &[u8]) -> (r: bool)
    ensures
        r == within(p@, base@),
{
    let s = spans(p);
    let t = spans(base);
    proof {
        lemma_spans(p@);
        lemma_spans(base@);
        assert(components(base@).take(components(base@).len() as int) =~= components(base@));
        assert(marks(s@).len() == s@.len());
        assert(marks(t@).len() == t@.len());
    }
    t.len() <= s.len() && same_words(p, &s, base, &t, t.len())
}

/// What is left of `p` below `base`, as it is written in `p`.
pub fn strip_prefix(p: &[u8], base: &[u8]) -> (r: Option<Vec<u8>>)
    ensures
        r.deep_view() == below(p@, base@),
{
    if !starts_with(p, base) {
        return None;
    }
    let s = spans(p);
    let t = spans(base);
    let n = s.len();
    let k = t.len();
    proof {
        lemma_spans(p@);
        lemma_spans(base@);
        assert(marks(s@).len() == s@.len());
        assert(marks(t@).len() == t@.len());
    }
    if k == n {
        let empty: Vec<u8> = Vec::new();
        assert(empty.deep_view() =~= Seq::<u8>::empty());
        Some(empty)
    } else {
        proof {
            assert(spans_of(p@)[k as int] == marks(s@)[k as int]);
            assert(spans_of(p@)[n - 1] == marks(s@)[n - 1]);
            if k < n - 1 {
                assert(spans_of(p@)[k as int].1 <= spans_of(p@)[n - 1].0);
            }
        }
        let rest = slice_to_vec(slice_subrange(p, s[k].0, s[n - 1].1));
        assert(rest.deep_view() =~= rest@);
        Some(rest)
    }
}

/// The path without its last component.
pub fn parent(p: &[u8]) -> (r: Option<Vec<u8>>)
    ensures
        r.deep_view() == parent_of(p@),
{
    let s = spans(p);
    let n = s.len();
    proof {
        lemma_spans(p@);
        assert(marks(s@).len() == s@.len());
    }
    if n == 0 {
        return None;
    }
    let last = s[n - 1];
    proof {
        assert(spans_of(p@)[n - 1] == marks(s@)[n - 1]);
        let w = p@.subrange(last.0 as int, last.1 as int);
        assert(w == root_word() <==> last.1 - last.0 == 1 && p@[last.0 as int] == SLASH) by {
            if w == root_word() {
                assert(w[0] == SLASH);
                assert(w.len() == 1);
            }
            if last.1 - last.0 == 1 && p@[last.0 as int] == SLASH {
                assert(w =~= root_word());
            }
        }
    }
    if last.1 - last.0 == 1 && p[last.0] == SLASH {
        return None;
    }
    if n == 1 {
        let empty: Vec<u8> = Vec::new();
        assert(empty.deep_view() =~= Seq::<u8>::empty());
        return Some(empty);
    }
    proof {
        assert(spans_of(p@)[n - 2] == marks(s@)[n - 2]);
    }
    let rest = slice_to_vec(slice_subrange(p, 0, s[n - 2].1));
    assert(rest.deep_view() =~= rest@);
    Some(rest)
}

/// Whether a component names an entry of a directory.
fn names_entry(w: &[u8]) -> (r: bool)
    requires
        w@.len() > 0,
    ensures
        r == is_name(w@),
{
    let n = w.len();
    let special = (n == 1 && (w[0] == SLASH || w[0] == DOT)) || (n == 2 && w[0] == DOT && w[1]
        == DOT);
    proof {
        if special {
            assert(w@ =~= root_word() || w@ =~= current_word() || w@ =~= parent_word());
        } else {
            assert(root_word()[0] == SLASH);
            assert(current_word()[0] == DOT);
            assert(parent_word()[0] == DOT && parent_word()[1] == DOT);
        }
    }
    !special
}

/// Copies of the components of `p`.
pub fn component_list(p: &[u8]) -> (r: Vec<Vec<u8>>)
    ensures
        r.deep_view() == components(p@),
        r@.len() == components(p@).len(),
        forall|k: int| 0 <= k < r@.len() ==> (#[trigger] r@[k])@ == components(p@)[k],
{
    let s = spans(p);
    proof {
        lemma_spans(p@);
        assert(marks(s@).len() == s@.len());
    }
    let mut out: Vec<Vec<u8>> = Vec::new();
    let mut k: usize = 0;
    while k < s.len()
        invariant
            k <= s@.len(),
            out@.len() == k,
            marks(s@) == spans_of(p@),
            components(p@).len() == s@.len(),
            forall|l: int|
                0 <= l < spans_of(p@).len() ==> 0 <= (#[trigger] spans_of(p@)[l]).0 < spans_of(
                    p@,
                )[l].1 <= p@.len(),
            forall|l: int| 0 <= l < k ==> (#[trigger] out@[l])@ == components(p@)[l],
        decreases s@.len() - k,
    {
        let x = s[k];
        proof {
            assert(spans_of(p@)[k as int] == marks(s@)[k as int]);
            assert(components(p@)[k as int] == p@.subrange(x.0 as int, x.1 as int));
        }
        out.push(slice_to_vec(slice_subrange(p, x.0, x.1)));
        k = k + 1;
    }
    assert forall|l: int| 0 <= l < out@.len() implies #[trigger] out.deep_view()[l] == components(
        p@,
    )[l] by {
        assert(out@[l].deep_view() =~= out@[l]@);
    }
    assert(out.deep_view() =~= components(p@));
    out
}

/// The last component, where it is a name.
pub fn file_name(p: &[u8]) -> (r: Option<Vec<u8>>)
    ensures
        r.deep_view() == name_of(p@),
{
    let c = component_list(p);
    let n = c.len();
    if n == 0 {
        return None;
    }
    let last = slice_to_vec(c[n - 1].as_slice());
    proof {
        assert(last@ == components(p@).last());
        lemma_spans(p@);
        assert(components(p@).last().len() > 0);
        assert(last.deep_view() =~= last@);
    }
    if names_entry(last.as_slice()) {
        Some(last)
    } else {
        None
    }
}

/// Whether `w` is one of the components of `p`.
pub fn has_component(p: &[u8], w: &[u8]) -> (r: bool)
    ensures
        r == components(p@).contains(w@),
{
    let c = component_list(p);
    let mut k: usize = 0;
    while k < c.len()
        invariant
            k <= c@.len(),
            c@.len() == components(p@).len(),
            forall|l: int| 0 <= l < c@.len() ==> (#[trigger] c@[l])@ == components(p@)[l],
            forall|l: int| 0 <= l < k ==> components(p@)[l] != w@,
        decreases c@.len() - k,
    {
        if equal_bytes(c[k].as_slice(), w) {
            assert(components(p@)[k as int] == w@);
            return true;
        }
        k = k + 1;
    }
    false
}

/// Whether `p` goes up somewhere: whether `..` is one of its components.
pub fn goes_up(p: &[u8]) -> (r: bool)
    ensures
        r == components(p@).contains(parent_word()),
{
    let up: Vec<u8> = vec![DOT, DOT];
    assert(up@ =~= parent_word());
    has_component(p, up.as_slice())
}

/// Whether every component of `p` is a name.
pub fn only_names(p: &[u8]) -> (r: bool)
    ensures
        r == forall|k: int| 0 <= k < components(p@).len() ==> is_name(#[trigger] components(p@)[k]),
{
    let c = component_list(p);
    proof {
        lemma_spans(p@);
    }
    let mut k: usize = 0;
    while k < c.len()
        invariant
            k <= c@.len(),
            c@.len() == components(p@).len(),
            forall|l: int| 0 <= l < c@.len() ==> (#[trigger] c@[l])@ == components(p@)[l],
            forall|l: int|
                0 <= l < components(p@).len() ==> (#[trigger] components(p@)[l]).len() > 0,
            forall|l: int| 0 <= l < k ==> is_name(#[trigger] components(p@)[l]),
        decreases c@.len() - k,
    {
        assert(c@[k as int]@ == components(p@)[k as int]);
        if !names_entry(c[k].as_slice()) {
            assert(!is_name(components(p@)[k as int]));
            return false;
        }
        k = k + 1;
    }
    true
}

/// `b` seen from `a`.
pub fn join(a: &[u8], b: &[u8]) -> (r: Vec<u8>)
    ensures
        r@ == join_path(a@, b@),
{
    if is_absolute(b) {
        return slice_to_vec(b);
    }
    let mut r = slice_to_vec(a);
    let n = a.len();
    if n > 0 && a[n - 1] != SLASH {
        r.push(SLASH);
    }
    let ghost before = r@;
    r.extend_from_slice(b);
    assert(r@ =~= before + b@);
    r
}

/// The path itself, its parent, the parent of that, and so on.
pub fn ancestors(p: &[u8]) -> (r: Vec<Vec<u8>>)
    ensures
        r.deep_view() == ancestors_of(p@),
        r@.len() == ancestors_of(p@).len(),
        forall|k: int| 0 <= k < r@.len() ==> (#[trigger] r@[k])@ == ancestors_of(p@)[k],
{
    let mut out: Vec<Vec<u8>> = Vec::new();
    let mut q: Vec<u8> = slice_to_vec(p);
    let ghost all = ancestors_of(p@);
    assert(out.deep_view() + ancestors_of(q@) =~= all);
    loop
        invariant
            all == ancestors_of(p@),
            out.deep_view() + ancestors_of(q@) == all,
        decreases q@.len(),
    {
        let up = parent(q.as_slice());
        let ghost before = out.deep_view();
        proof {
            lemma_parent_shorter(q@);
            assert(q.deep_view() =~= q@);
        }
        let ghost spelled = q@;
        match up {
            None => {
                out.push(q);
                proof {
                    assert(out.deep_view() =~= before.push(spelled));
                    assert(out.deep_view() =~= all);
                    assert forall|k: int| 0 <= k < out@.len() implies (#[trigger] out@[k])@
                        == all[k] by {
                        assert(out.deep_view()[k] == out@[k].deep_view());
                        assert(out@[k].deep_view() =~= out@[k]@);
                    }
                }
                return out;
            },
            Some(next) => {
                assert(next.deep_view() =~= next@);
                out.push(q);
                q = next;
                proof {
                    assert(out.deep_view() =~= before.push(spelled));
                    assert(out.deep_view() + ancestors_of(q@) =~= before + ancestors_of(spelled));
                }
            },
        }
    }
}

/// The components from one on, with one slash between neighbours.
fn join_words(c: &Vec<Vec<u8>>, start: usize) -> (r: Vec<u8>)
    requires
        start <= c@.len(),
    ensures
        r@ == joined(c.deep_view().skip(start as int), SLASH),
{
    let ghost all = c.deep_view();
    let ghost tail = all.skip(start as int);
    let mut r: Vec<u8> = Vec::new();
    let mut k: usize = start;
    assert(joined(tail.take(0), SLASH) =~= Seq::<u8>::empty());
    while k < c.len()
        invariant
            start <= k <= c@.len(),
            all == c.deep_view(),
            tail == all.skip(start as int),
            r@ == joined(tail.take(k - start), SLASH),
        decreases c@.len() - k,
    {
        let ghost before = r@;
        if k > start {
            r.push(SLASH);
        }
        let ghost middle = r@;
        r.extend_from_slice(c[k].as_slice());
        proof {
            assert(c@[k as int].deep_view() =~= c@[k as int]@);
            assert(c@[k as int]@ == all[k as int]);
            assert(r@ =~= middle + all[k as int]);
            lemma_joined_push(tail.take(k - start), all[k as int], SLASH);
            assert(tail.take(k - start + 1) =~= tail.take(k - start).push(all[k as int]));
            assert(r@ =~= joined(tail.take(k - start + 1), SLASH));
        }
        k = k + 1;
    }
    assert(tail.take(k - start) =~= tail);
    r
}

/// The one spelling of the components of `p`.
pub fn normalize(p: &[u8]) -> (r: Vec<u8>)
    ensures
        r@ == normal(p@),
{
    let c = component_list(p);
    proof {
        lemma_components_well_formed(p@);
        assert(c.deep_view() =~= components(p@));
        assert(components(p@).skip(0) =~= components(p@));
    }
    if is_absolute(p) {
        let mut r: Vec<u8> = vec![SLASH];
        let rest = join_words(&c, 1);
        r.extend_from_slice(rest.as_slice());
        proof {
            assert(components(p@).skip(1) =~= components(p@).drop_first());
            assert(r@ =~= root_word() + rest@);
        }
        r
    } else {
        join_words(&c, 0)
    }
}

/// A relative path without a `.` at its beginning, in its normal spelling.
pub open spec fn tidy(p: Seq<u8>) -> Seq<u8> {
    joined(components(p).filter(|w: Seq<u8>| w != current_word()), SLASH)
}

/// A relative path without a `.` at its beginning, in its normal spelling.
pub fn without_current(p: &[u8]) -> (r: Vec<u8>)
    ensures
        r@ == tidy(p@),
{
    let c = component_list(p);
    let ghost all = components(p@);
    let ghost f = |w: Seq<u8>| w != current_word();
    proof {
        assert(c.deep_view() =~= all);
        assert(all.skip(0) =~= all);
    }
    let dot: Vec<u8> = vec![DOT];
    assert(dot@ =~= current_word());
    let mut kept: Vec<Vec<u8>> = Vec::new();
    let mut k: usize = 0;
    proof {
        assert(all.take(0).filter(f) =~= Seq::<Seq<u8>>::empty()) by {
            reveal(Seq::filter);
        }
        assert(kept.deep_view() =~= Seq::<Seq<u8>>::empty());
    }
    while k < c.len()
        invariant
            k <= c@.len(),
            all == components(p@),
            c.deep_view() == all,
            f == (|w: Seq<u8>| w != current_word()),
            dot@ == current_word(),
            kept.deep_view() == all.take(k as int).filter(f),
        decreases c@.len() - k,
    {
        let ghost before = kept.deep_view();
        proof {
            assert(c@[k as int].deep_view() =~= c@[k as int]@);
            assert(c@[k as int]@ == all[k as int]);
            assert(all.take(k + 1).drop_last() =~= all.take(k as int));
            assert(all.take(k + 1).last() == all[k as int]);
            reveal(Seq::filter);
        }
        if !equal_bytes(c[k].as_slice(), dot.as_slice()) {
            let word = slice_to_vec(c[k].as_slice());
            kept.push(word);
            proof {
                assert(word.deep_view() =~= word@);
                assert(kept.deep_view() =~= before.push(all[k as int]));
            }
        }
        k = k + 1;
    }
    assert(all.take(k as int) =~= all);
    assert(kept.deep_view().skip(0) =~= kept.deep_view());
    join_words(&kept, 0)
}

/// One more item at the end of a joined sequence.
proof fn lemma_joined_push(s: Seq<Seq<u8>>, w: Seq<u8>, x: u8)
    ensures
        s.len() > 0 ==> joined(s.push(w), x) == joined(s, x) + seq![x] + w,
        s.len() == 0 ==> joined(s.push(w), x) == w,
    decreases s.len(),
{
    let t = s.push(w);
    if s.len() == 0 {
    } else if s.len() == 1 {
        assert(t.drop_first() =~= seq![w]);
        assert(joined(t.drop_first(), x) == w);
    } else {
        assert(t.drop_first() =~= s.drop_first().push(w));
        lemma_joined_push(s.drop_first(), w, x);
        assert(joined(t, x) =~= joined(s, x) + seq![x] + w);
    }
}

} // verus!
