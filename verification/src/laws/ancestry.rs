//! The paths above a path, and what is ignored or left out with them.

use vstd::prelude::*;

use crate::clone::SurveyView;
use crate::paths::{
    absolute_path, ancestors_of, components, law_parent, law_within_transitive,
    lemma_components_well_formed, lemma_parent_shorter, listed, parent_of, root_word, same_path,
    within, SLASH,
};
use crate::planner::{covered, lies_above, lies_above_any};

verus! {

/// Every path above another lies above it by its components.
pub proof fn lemma_ancestors_within(p: Seq<u8>, k: int)
    requires
        0 <= k < ancestors_of(p).len(),
    ensures
        within(p, ancestors_of(p)[k]),
        components(ancestors_of(p)[k]).len() + k == components(p).len(),
    decreases p.len(),
{
    if k == 0 {
        assert(components(p).take(components(p).len() as int) =~= components(p));
    } else {
        let q = parent_of(p)->0;
        lemma_parent_shorter(p);
        law_parent(p);
        assert(ancestors_of(p) =~= seq![p] + ancestors_of(q));
        assert(ancestors_of(p)[k] == ancestors_of(q)[k - 1]);
        lemma_ancestors_within(q, k - 1);
        assert(within(p, q)) by {
            assert(components(p).take(components(q).len() as int) =~= components(q));
        }
        law_within_transitive(p, q, ancestors_of(p)[k]);
    }
}

/// Every path above an absolute one has a component.
pub proof fn lemma_ancestors_absolute(p: Seq<u8>, k: int)
    requires
        absolute_path(p),
        0 <= k < ancestors_of(p).len(),
    ensures
        components(ancestors_of(p)[k]).len() > 0,
    decreases p.len(),
{
    lemma_components_well_formed(p);
    if k > 0 {
        let q = parent_of(p)->0;
        lemma_parent_shorter(p);
        law_parent(p);
        assert(ancestors_of(p) =~= seq![p] + ancestors_of(q));
        assert(ancestors_of(p)[k] == ancestors_of(q)[k - 1]);
        lemma_components_well_formed(q);
        assert(components(q).len() > 0) by {
            if components(p).len() == 1 {
                assert(components(p).last() == root_word());
            }
        }
        assert(components(q)[0] == components(p)[0]);
        lemma_ancestors_absolute(q, k - 1);
    }
}

/// A path that another lies within is one of the paths above that one.
pub proof fn lemma_ancestors_reach(p: Seq<u8>, base: Seq<u8>)
    requires
        within(p, base),
        components(base).len() > 0 || !absolute_path(p),
    ensures
        ({
            let k = components(p).len() - components(base).len();
            0 <= k < ancestors_of(p).len() && same_path(ancestors_of(p)[k], base)
        }),
    decreases p.len(),
{
    let k = components(p).len() - components(base).len();
    law_parent(p);
    if k == 0 {
        assert(components(p).take(components(p).len() as int) =~= components(p));
        assert(ancestors_of(p)[0] == p);
    } else {
        lemma_components_well_formed(p);
        assert(parent_of(p) is Some) by {
            if components(p).last() == root_word() {
                assert(root_word()[0] == SLASH);
                assert(root_word().contains(SLASH));
                assert(components(p).len() == 1);
            }
        }
        let q = parent_of(p)->0;
        lemma_parent_shorter(p);
        lemma_components_well_formed(q);
        assert(ancestors_of(p) =~= seq![p] + ancestors_of(q));
        assert(components(q).take(components(base).len() as int) =~= components(base));
        lemma_ancestors_reach(q, base);
        assert(ancestors_of(p)[k] == ancestors_of(q)[k - 1]);
    }
}

/// What lies within something that is covered is covered.
pub proof fn lemma_covered_within(paths: Seq<Seq<u8>>, p: Seq<u8>, base: Seq<u8>)
    requires
        covered(paths, base),
        within(p, base),
        components(base).len() > 0,
    ensures
        covered(paths, p),
{
    let k = choose|k: int|
        0 <= k < ancestors_of(base).len() && listed(paths, #[trigger] ancestors_of(base)[k]);
    let above = ancestors_of(base)[k];
    lemma_ancestors_within(base, k);
    law_within_transitive(p, base, above);
    if absolute_path(p) {
        lemma_components_well_formed(p);
        lemma_components_well_formed(base);
        assert(components(p).take(components(base).len() as int)[0] == components(base)[0]);
        lemma_ancestors_absolute(base, k);
    }
    lemma_ancestors_reach(p, above);
    let j = components(p).len() - components(above).len();
    let m = choose|m: int| 0 <= m < paths.len() && same_path(#[trigger] paths[m], above);
    assert(same_path(paths[m], ancestors_of(p)[j]));
    assert(listed(paths, ancestors_of(p)[j]));
}

/// What lies within a path of a list is covered by the list.
pub proof fn lemma_covered_by(paths: Seq<Seq<u8>>, m: int, p: Seq<u8>)
    requires
        0 <= m < paths.len(),
        within(p, paths[m]),
        !absolute_path(p),
    ensures
        covered(paths, p),
{
    lemma_ancestors_reach(p, paths[m]);
    let j = components(p).len() - components(paths[m]).len();
    assert(same_path(paths[m], ancestors_of(p)[j]));
    assert(listed(paths, ancestors_of(p)[j]));
}

/// A directory lies above everything that is within it and is not it.
pub proof fn lemma_lies_above(dir: Seq<u8>, p: Seq<u8>)
    requires
        within(p, dir),
        components(p).len() > components(dir).len() > 0,
    ensures
        lies_above(dir, p),
{
    lemma_ancestors_reach(p, dir);
    let j = components(p).len() - components(dir).len();
    assert(1 <= j < ancestors_of(p).len() && same_path(ancestors_of(p)[j], dir));
}

/// Everything in a directory that is left out is left out.
pub proof fn law_left_out_with_its_directory(
    s: SurveyView,
    dir: Seq<u8>,
    relative: Seq<u8>,
    directory: bool,
)
    requires
        s.left_out(dir, true),
        components(dir).len() > 0,
        within(relative, dir),
        components(relative).len() > components(dir).len(),
    ensures
        s.left_out(relative, directory),
{
    lemma_covered_within(s.ignored, relative, dir);
    lemma_covered_within(s.exclude, relative, dir);
    if directory && lies_above_any(relative, s.protected) {
        let m = choose|m: int|
            0 <= m < s.protected.len() && lies_above(relative, #[trigger] s.protected[m]);
        let p = s.protected[m];
        let j = choose|j: int|
            1 <= j < ancestors_of(p).len() && same_path(#[trigger] ancestors_of(p)[j], relative);
        lemma_ancestors_within(p, j);
        law_within_transitive(p, relative, dir);
        lemma_lies_above(dir, p);
        assert(lies_above_any(dir, s.protected));
    }
    if !directory && listed(s.protected, relative) {
        let m = choose|m: int|
            0 <= m < s.protected.len() && same_path(#[trigger] s.protected[m], relative);
        lemma_lies_above(dir, s.protected[m]);
        assert(lies_above_any(dir, s.protected));
    }
}

/// Whether a path is left out does not depend on how it is spelled.
pub proof fn lemma_left_out_spelled(s: SurveyView, a: Seq<u8>, b: Seq<u8>, directory: bool)
    requires
        s.left_out(a, directory),
        same_path(a, b),
        components(a).len() > 0,
    ensures
        s.left_out(b, directory),
{
    assert(components(b).take(components(a).len() as int) =~= components(a));
    lemma_covered_within(s.ignored, b, a);
    lemma_covered_within(s.exclude, b, a);
    if directory && lies_above_any(b, s.protected) {
        let m = choose|m: int|
            0 <= m < s.protected.len() && lies_above(b, #[trigger] s.protected[m]);
        let p = s.protected[m];
        let j = choose|j: int|
            1 <= j < ancestors_of(p).len() && same_path(#[trigger] ancestors_of(p)[j], b);
        assert(same_path(ancestors_of(p)[j], a));
        assert(lies_above(a, p));
        assert(lies_above_any(a, s.protected));
    }
    if !directory && listed(s.protected, b) {
        let m = choose|m: int|
            0 <= m < s.protected.len() && same_path(#[trigger] s.protected[m], b);
        assert(same_path(s.protected[m], a));
        assert(listed(s.protected, a));
    }
}

} // verus!
