//! Searching and splitting sequences at a separator.

use vstd::prelude::*;

verus! {

/// Where `x` first stands in `s`, or the length of `s` where it does not occur.
pub open spec fn first<T>(s: Seq<T>, x: T) -> int
    decreases s.len(),
{
    if s.len() == 0 || s[0] == x {
        0
    } else {
        1 + first(s.drop_first(), x)
    }
}

/// The pieces of `s` between the occurrences of `x`: one more than there are occurrences.
pub open spec fn split<T>(s: Seq<T>, x: T) -> Seq<Seq<T>>
    decreases s.len(),
{
    proof {
        lemma_first(s, x);
    }
    let i = first(s, x);
    if i == s.len() {
        seq![s]
    } else {
        seq![s.take(i)] + split(s.skip(i + 1), x)
    }
}

/// The items of `s` put one after the other, with `x` between neighbours.
pub open spec fn joined<T>(s: Seq<Seq<T>>, x: T) -> Seq<T>
    decreases s.len(),
{
    if s.len() == 0 {
        Seq::empty()
    } else if s.len() == 1 {
        s[0]
    } else {
        s[0] + seq![x] + joined(s.drop_first(), x)
    }
}

pub proof fn lemma_first<T>(s: Seq<T>, x: T)
    ensures
        0 <= first(s, x) <= s.len(),
        forall|j: int| 0 <= j < first(s, x) ==> s[j] != x,
        first(s, x) < s.len() ==> s[first(s, x)] == x,
    decreases s.len(),
{
    if s.len() == 0 || s[0] == x {
    } else {
        let t = s.drop_first();
        lemma_first(t, x);
        assert forall|j: int| 0 <= j < first(s, x) implies s[j] != x by {
            if j > 0 {
                assert(s[j] == t[j - 1]);
            }
        }
    }
}

/// A position is the first occurrence once nothing before it is `x`.
pub proof fn lemma_first_is<T>(s: Seq<T>, x: T, i: int)
    requires
        0 <= i <= s.len(),
        forall|j: int| 0 <= j < i ==> s[j] != x,
        i < s.len() ==> s[i] == x,
    ensures
        first(s, x) == i,
{
    lemma_first(s, x);
}

/// Joining what was split gives the sequence back.
pub proof fn law_split_joined<T>(s: Seq<T>, x: T)
    ensures
        joined(split(s, x), x) == s,
        split(s, x).len() >= 1,
    decreases s.len(),
{
    lemma_first(s, x);
    let i = first(s, x);
    if i < s.len() {
        law_split_joined(s.skip(i + 1), x);
        let whole = split(s, x);
        let rest = split(s.skip(i + 1), x);
        assert(whole.drop_first() =~= rest);
        assert(s =~= s.take(i) + seq![x] + s.skip(i + 1));
    }
}

/// Every piece is free of the separator.
pub proof fn lemma_split_free<T>(s: Seq<T>, x: T)
    ensures
        forall|k: int| 0 <= k < split(s, x).len() ==> !(#[trigger] split(s, x)[k]).contains(x),
    decreases s.len(),
{
    lemma_first(s, x);
    let i = first(s, x);
    if i < s.len() {
        lemma_split_free(s.skip(i + 1), x);
        assert forall|k: int| 0 <= k < split(s, x).len() implies !(#[trigger] split(
            s,
            x,
        )[k]).contains(x) by {
            if k > 0 {
                assert(split(s, x)[k] == split(s.skip(i + 1), x)[k - 1]);
            }
        }
    }
}

} // verus!
