//! What exclusions take out of a plan.

use vstd::prelude::*;

use crate::clone::{lists_protocol, plan_protocol, EntryView, SurveyView};
use crate::errors::ErrorView;
use crate::laws::ancestry::{law_left_out_with_its_directory, lemma_left_out_spelled};
use crate::laws::still::{FileSystem, MetView};
use crate::laws::survey::{
    beyond, broken_in, directory_in, lemma_beyond_shorter, lemma_survey_told, met_in, onward,
    plan_told, survey_in, visit_in, wanted_in,
};
use crate::order::{alike, in_order, lemma_same_order, sorts};
use crate::paths::{
    below, components, join_path, law_below, law_normal, lemma_components_well_formed, normal,
    path_below, same_path, within,
};
use crate::planner::{survey_protocol, PlanState, VisitView};
use crate::runner::tells_plan;
use crate::session::{FileKind, Log, Reply, Step, WalkFailure};

verus! {

/// The survey without exclusions.
pub open spec fn unexcluded(s: SurveyView) -> SurveyView {
    SurveyView { exclude: Seq::empty(), ..s }
}

/// Whether an entry is left in.
pub open spec fn left_in(s: SurveyView) -> spec_fn(EntryView) -> bool {
    |e: EntryView| !s.left_out(e.relative, e.kind == FileKind::Directory)
}

/// Whether everything up to `j` lies deeper than what stands at `i`.
pub open spec fn deeper(walk: Seq<MetView>, i: int, j: int) -> bool {
    forall|k: int| i < k <= j ==> (#[trigger] walk[k]).depth > walk[i].depth
}

/// Whether one path lies in a directory of another path.
pub open spec fn lies_in(path: Seq<u8>, dir: Seq<u8>) -> bool {
    within(path, dir) && components(path).len() > components(dir).len()
}

/// Whether what comes behind an entry, and is deeper than it, lies in it.
pub open spec fn nests(walk: Seq<MetView>) -> bool {
    forall|i: int, j: int|
        #![trigger walk[i], walk[j]]
        0 <= i < j < walk.len() && deeper(walk, i, j) ==> match (walk[i].found, walk[j].found) {
            (Ok((dir, _)), Ok((path, _))) => lies_in(path, dir),
            _ => true,
        }
}

/// Whether a walk meets an entry.
pub open spec fn walked(fs: FileSystem, path: Seq<u8>, kind: FileKind) -> bool {
    exists|root: Seq<u8>, j: int|
        0 <= j < (fs.walk)(root).len() && (#[trigger] (fs.walk)(root)[j]).found == Ok::<
            (Seq<u8>, FileKind),
            WalkFailure,
        >((path, kind))
}

/// Whether walks meet what is in a directory behind the directory, and an entry as of
/// one kind however it is reached.
pub open spec fn orderly(fs: FileSystem) -> bool {
    &&& forall|root: Seq<u8>| nests(#[trigger] (fs.walk)(root))
    &&& forall|a: Seq<u8>, b: Seq<u8>, kind_a: FileKind, kind_b: FileKind|
        #[trigger] walked(fs, a, kind_a) && #[trigger] walked(fs, b, kind_b) && same_path(a, b)
            ==> kind_a == kind_b
}

spec fn all_walked(fs: FileSystem, rest: Seq<MetView>) -> bool {
    forall|j: int|
        0 <= j < rest.len() ==> match (#[trigger] rest[j]).found {
            Ok((path, kind)) => walked(fs, path, kind),
            Err(_) => true,
        }
}

proof fn lemma_walk_is_walked(fs: FileSystem, root: Seq<u8>)
    ensures
        all_walked(fs, (fs.walk)(root)),
{
    let walk = (fs.walk)(root);
    assert forall|j: int| 0 <= j < walk.len() implies match (#[trigger] walk[j]).found {
        Ok((path, kind)) => walked(fs, path, kind),
        Err(_) => true,
    } by {
        assert((fs.walk)(root)[j] == walk[j]);
    }
}

proof fn lemma_rest_nests(fs: FileSystem, rest: Seq<MetView>)
    requires
        nests(rest),
        all_walked(fs, rest),
        rest.len() > 0,
    ensures
        nests(rest.drop_first()),
        all_walked(fs, rest.drop_first()),
{
    let tail = rest.drop_first();
    assert forall|i: int, j: int|
        #![trigger tail[i], tail[j]]
        0 <= i < j < tail.len() && deeper(tail, i, j) implies match (tail[i].found, tail[j].found) {
        (Ok((dir, _)), Ok((path, _))) => lies_in(path, dir),
        _ => true,
    } by {
        assert(deeper(rest, i + 1, j + 1)) by {
            assert forall|k: int| i + 1 < k <= j + 1 implies (#[trigger] rest[k]).depth > rest[i
                + 1].depth by {
                assert(tail[k - 1] == rest[k]);
            }
        }
        assert(tail[i] == rest[i + 1] && tail[j] == rest[j + 1]);
    }
    assert forall|j: int| 0 <= j < tail.len() implies match (#[trigger] tail[j]).found {
        Ok((path, kind)) => walked(fs, path, kind),
        Err(_) => true,
    } by {
        assert(tail[j] == rest[j + 1]);
    }
}

proof fn lemma_beyond_nests(fs: FileSystem, rest: Seq<MetView>, depth: nat)
    requires
        nests(rest),
        all_walked(fs, rest),
    ensures
        nests(beyond(rest, depth)),
        all_walked(fs, beyond(rest, depth)),
    decreases rest.len(),
{
    if rest.len() > 0 && rest[0].depth > depth {
        lemma_rest_nests(fs, rest);
        lemma_beyond_nests(fs, rest.drop_first(), depth);
    }
}

proof fn lemma_beyond_twice(rest: Seq<MetView>, far: nat, near: nat)
    requires
        far >= near,
    ensures
        beyond(beyond(rest, far), near) == beyond(rest, near),
    decreases rest.len(),
{
    if rest.len() > 0 && rest[0].depth > far {
        lemma_beyond_twice(rest.drop_first(), far, near);
    }
}

/// Whether everything ahead that is deeper than `depth` lies in a directory, up to the
/// first that is not deeper.
spec fn lies_ahead(rest: Seq<MetView>, depth: nat, dir: Seq<u8>) -> bool {
    forall|j: int|
        0 <= j < rest.len() && (forall|k: int| 0 <= k <= j ==> (#[trigger] rest[k]).depth > depth)
            ==> match (#[trigger] rest[j]).found {
            Ok((path, _)) => lies_in(path, dir),
            Err(_) => true,
        }
}

proof fn lemma_directory_ahead(rest: Seq<MetView>)
    requires
        nests(rest),
        rest.len() > 0,
    ensures
        rest[0].found matches Ok((dir, _)) ==> lies_ahead(rest.drop_first(), rest[0].depth, dir),
{
    if let Ok((dir, _)) = rest[0].found {
        let tail = rest.drop_first();
        let depth = rest[0].depth;
        assert forall|j: int|
            0 <= j < tail.len() && (forall|k: int|
                0 <= k <= j ==> (#[trigger] tail[k]).depth > depth) implies match (
        #[trigger] tail[j]).found {
            Ok((path, _)) => lies_in(path, dir),
            Err(_) => true,
        } by {
            assert(deeper(rest, 0, j + 1)) by {
                assert forall|k: int| 0 < k <= j + 1 implies (#[trigger] rest[k]).depth
                    > rest[0].depth by {
                    assert(tail[k - 1] == rest[k]);
                }
            }
            assert(tail[j] == rest[j + 1]);
        }
    }
}

proof fn lemma_ahead_of_rest(fs: FileSystem, rest: Seq<MetView>, depth: nat, dir: Seq<u8>)
    requires
        lies_ahead(rest, depth, dir),
        all_walked(fs, rest),
        rest.len() > 0,
        rest[0].depth > depth,
    ensures
        lies_ahead(rest.drop_first(), depth, dir),
        all_walked(fs, rest.drop_first()),
{
    let tail = rest.drop_first();
    assert forall|j: int|
        0 <= j < tail.len() && (forall|k: int| 0 <= k <= j ==> (#[trigger] tail[k]).depth > depth)
        implies match (#[trigger] tail[j]).found {
        Ok((path, _)) => lies_in(path, dir),
        Err(_) => true,
    } by {
        assert forall|k: int| 0 <= k <= j + 1 implies (#[trigger] rest[k]).depth > depth by {
            if k > 0 {
                assert(tail[k - 1] == rest[k]);
            }
        }
        assert(tail[j] == rest[j + 1]);
    }
    assert forall|j: int| 0 <= j < tail.len() implies match (#[trigger] tail[j]).found {
        Ok((path, kind)) => walked(fs, path, kind),
        Err(_) => true,
    } by {
        assert(tail[j] == rest[j + 1]);
    }
}

proof fn lemma_ahead_beyond(fs: FileSystem, rest: Seq<MetView>, far: nat, depth: nat, dir: Seq<u8>)
    requires
        lies_ahead(rest, depth, dir),
        all_walked(fs, rest),
        far >= depth,
    ensures
        lies_ahead(beyond(rest, far), depth, dir),
        all_walked(fs, beyond(rest, far)),
    decreases rest.len(),
{
    if rest.len() > 0 && rest[0].depth > far {
        lemma_ahead_of_rest(fs, rest, depth, dir);
        lemma_ahead_beyond(fs, rest.drop_first(), far, depth, dir);
    }
}

/// Whether two plans met the same of what is left in.
spec fn agree(fs: FileSystem, s: SurveyView, a: Set<Seq<u8>>, b: Set<Seq<u8>>) -> bool {
    forall|path: Seq<u8>, kind: FileKind| #[trigger]
        walked(fs, path, kind) ==> match below(path, s.source) {
            Some(relative) => s.left_out(relative, kind == FileKind::Directory) || a.contains(
                normal(relative),
            ) == b.contains(normal(relative)),
            None => true,
        }
}

/// That something left out was met in one plan makes no difference.
proof fn lemma_left_out_met(
    fs: FileSystem,
    s: SurveyView,
    a: Set<Seq<u8>>,
    b: Set<Seq<u8>>,
    path: Seq<u8>,
    kind: FileKind,
    relative: Seq<u8>,
)
    requires
        orderly(fs),
        agree(fs, s, a, b),
        walked(fs, path, kind),
        below(path, s.source) == Some(relative),
        relative.len() > 0,
        s.left_out(relative, kind == FileKind::Directory),
    ensures
        agree(fs, s, a.insert(normal(relative)), b),
{
    law_below(path, s.source);
    lemma_components_well_formed(path);
    let n = components(s.source).len() as int;
    assert(components(relative).len() > 0);
    assert forall|p: Seq<u8>, k: FileKind| #[trigger] walked(fs, p, k) implies match below(
        p,
        s.source,
    ) {
        Some(r) => s.left_out(r, k == FileKind::Directory) || a.insert(normal(relative)).contains(
            normal(r),
        ) == b.contains(normal(r)),
        None => true,
    } by {
        if let Some(r) = below(p, s.source) {
            law_normal(r, relative);
            if normal(r) == normal(relative) {
                law_below(p, s.source);
                assert(components(p) =~= components(p).take(n) + components(p).skip(n));
                assert(components(path) =~= components(path).take(n) + components(path).skip(n));
                assert(same_path(p, path));
                assert(k == kind);
                lemma_left_out_spelled(s, relative, r, k == FileKind::Directory);
            }
        }
    }
}

/// What an entry that a walk met can come to.
spec fn comes_of(visit: VisitView, relative: Seq<u8>, kind: FileKind) -> bool {
    match visit {
        VisitView::End => false,
        VisitView::Pass => true,
        VisitView::Gone(gone) => gone == relative,
        VisitView::Take(e) => e.relative == relative && e.kind == kind,
    }
}

proof fn lemma_exclusions_alone(s: SurveyView)
    ensures
        unexcluded(s).roots() == s.roots(),
        forall|relative: Seq<u8>| #[trigger]
            unexcluded(s).disposable(relative) == s.disposable(relative),
        forall|path: Seq<u8>, relative: Seq<u8>| #[trigger]
            unexcluded(s).off_limits(path, relative) == s.off_limits(path, relative),
        forall|relative: Seq<u8>, directory: bool| !#[trigger]
            unexcluded(s).left_out(relative, directory),
{
    let u = unexcluded(s);
    assert forall|path: Seq<u8>, relative: Seq<u8>| #[trigger]
        u.off_limits(path, relative) == s.off_limits(path, relative) by {
        assert(u.nested == s.nested);
        if exists|k: int| 0 <= k < u.nested.len() && within(path, #[trigger] u.nested[k]) {
            let k = choose|k: int|
                0 <= k < u.nested.len() && within(path, #[trigger] u.nested[k]);
            assert(within(path, s.nested[k]));
        }
        if exists|k: int| 0 <= k < s.nested.len() && within(path, #[trigger] s.nested[k]) {
            let k = choose|k: int|
                0 <= k < s.nested.len() && within(path, #[trigger] s.nested[k]);
            assert(within(path, u.nested[k]));
        }
    }
}

/// How an entry that a walk met comes out with exclusions and without.
proof fn lemma_met_twice(
    fs: FileSystem,
    s: SurveyView,
    a: Set<Seq<u8>>,
    b: Set<Seq<u8>>,
    path: Seq<u8>,
    kind: FileKind,
)
    requires
        agree(fs, s, a, b),
        walked(fs, path, kind),
    ensures
        met_in(fs, unexcluded(s), a, path, kind) matches Ok((visit, skip)) ==> {
            let relative = below(path, s.source)->0;
            let directory = kind == FileKind::Directory;
            &&& below(path, s.source) is Some
            &&& visit !is Pass ==> relative.len() > 0
            &&& comes_of(visit, relative, kind)
            &&& skip ==> directory
            &&& if s.left_out(relative, directory) && relative.len() > 0 {
                ||| met_in(fs, s, b, path, kind) == Ok::<(VisitView, bool), ErrorView>(
                    (VisitView::Pass, directory),
                )
                ||| visit is Pass && met_in(fs, s, b, path, kind) == Ok::<
                    (VisitView, bool),
                    ErrorView,
                >((visit, skip))
            } else {
                met_in(fs, s, b, path, kind) == Ok::<(VisitView, bool), ErrorView>(
                    (visit, skip),
                )
            }
        },
{
    lemma_exclusions_alone(s);
    let u = unexcluded(s);
    if let Some(relative) = below(path, s.source) {
        let directory = kind == FileKind::Directory;
        assert(u.off_limits(path, relative) == s.off_limits(path, relative));
        assert(u.disposable(relative) == s.disposable(relative));
        assert(!u.left_out(relative, directory));
        assert(directory_in(fs, u, path, relative) == directory_in(fs, s, path, relative));
        if !s.left_out(relative, directory) {
            assert(a.contains(normal(relative)) == b.contains(normal(relative)));
            assert(wanted_in(fs, u, a, path, relative, kind) == wanted_in(
                fs,
                s,
                b,
                path,
                relative,
                kind,
            ));
        }
    }
}

proof fn lemma_left_out_pushed(s: SurveyView, entries: Seq<EntryView>, e: EntryView)
    ensures
        entries.push(e).filter(left_in(s)) == if s.left_out(
            e.relative,
            e.kind == FileKind::Directory,
        ) {
            entries.filter(left_in(s))
        } else {
            entries.filter(left_in(s)).push(e)
        },
{
    reveal(Seq::filter);
    assert(entries.push(e).drop_last() =~= entries);
}

/// Without exclusions, a walk through a directory that they leave out takes nothing
/// that they leave in.
proof fn lemma_through_directory(
    fs: FileSystem,
    s: SurveyView,
    dir: Seq<u8>,
    depth: nat,
    state: PlanState,
    b: Set<Seq<u8>>,
    rest: Seq<MetView>,
) -> (r: PlanState)
    requires
        orderly(fs),
        state.open,
        0 <= state.root < s.roots().len(),
        agree(fs, s, state.seen, b),
        all_walked(fs, rest),
        lies_ahead(rest, depth, dir),
        below(dir, s.source) is Some,
        (below(dir, s.source)->0).len() > 0,
        s.left_out(below(dir, s.source)->0, true),
        survey_in(fs, unexcluded(s), state, rest) is Ok,
    ensures
        r.open,
        r.root == state.root,
        r.entries.filter(left_in(s)) == state.entries.filter(left_in(s)),
        agree(fs, s, r.seen, b),
        survey_in(fs, unexcluded(s), r, beyond(rest, depth)) == survey_in(
            fs,
            unexcluded(s),
            state,
            rest,
        ),
    decreases rest.len(),
{
    if rest.len() == 0 || rest[0].depth <= depth {
        state
    } else {
        let u = unexcluded(s);
        lemma_exclusions_alone(s);
        let (visit, skip) = visit_in(fs, u, state.seen, rest)->Ok_0;
        let next = state.after(visit);
        let tail = rest.drop_first();
        lemma_ahead_of_rest(fs, rest, depth, dir);
        lemma_ahead_beyond(fs, tail, rest[0].depth, depth, dir);
        lemma_beyond_twice(tail, rest[0].depth, depth);
        lemma_beyond_shorter(tail, rest[0].depth);
        match rest[0].found {
            Err(failure) => {
                assert(next == state);
            },
            Ok((path, kind)) => {
                lemma_met_twice(fs, s, state.seen, b, path, kind);
                let relative = below(path, s.source)->0;
                if visit !is Pass {
                    assert(lies_in(path, dir)) by {
                        assert(forall|k: int| 0 <= k <= 0 ==> (#[trigger] rest[k]).depth > depth);
                    }
                    lemma_inside(s, dir, path, kind == FileKind::Directory);
                    lemma_left_out_met(fs, s, state.seen, b, path, kind, relative);
                    if let VisitView::Take(e) = visit {
                        lemma_left_out_pushed(s, state.entries, e);
                    }
                }
            },
        }
        let onwards = onward(rest, skip);
        assert(survey_in(fs, u, state, rest) == survey_in(fs, u, next, onwards));
        lemma_through_directory(fs, s, dir, depth, next, b, onwards)
    }
}

/// What lies in a directory that is left out is left out.
proof fn lemma_inside(s: SurveyView, dir: Seq<u8>, path: Seq<u8>, directory: bool)
    requires
        below(dir, s.source) is Some,
        (below(dir, s.source)->0).len() > 0,
        s.left_out(below(dir, s.source)->0, true),
        lies_in(path, dir),
        below(path, s.source) is Some,
    ensures
        s.left_out(below(path, s.source)->0, directory),
{
    let n = components(s.source).len() as int;
    law_below(dir, s.source);
    law_below(path, s.source);
    let d = below(dir, s.source)->0;
    let r = below(path, s.source)->0;
    lemma_components_well_formed(dir);
    assert(components(d).len() > 0);
    assert(components(r).take(components(d).len() as int) =~= components(d)) by {
        assert forall|i: int| 0 <= i < components(d).len() implies components(r)[i]
            == #[trigger] components(d)[i] by {
            assert(components(path).take(components(dir).len() as int)[n + i] == components(dir)[n
                + i]);
        }
    }
    law_left_out_with_its_directory(s, d, r, directory);
}

/// A plan with exclusions, next to the plan without them.
proof fn lemma_planned_twice(
    fs: FileSystem,
    s: SurveyView,
    full: PlanState,
    state: PlanState,
    rest: Seq<MetView>,
)
    requires
        orderly(fs),
        full.root == state.root,
        full.open == state.open,
        state.entries == full.entries.filter(left_in(s)),
        agree(fs, s, full.seen, state.seen),
        state.open ==> nests(rest) && all_walked(fs, rest),
    ensures
        survey_in(fs, unexcluded(s), full, rest) matches Ok(all) ==> survey_in(fs, s, state, rest)
            == Ok::<Seq<EntryView>, ErrorView>(all.filter(left_in(s))),
    decreases
        s.roots().len() - state.root,
        (if state.open {
            0int
        } else {
            1
        }),
        rest.len(),
        1int,
{
    let u = unexcluded(s);
    lemma_exclusions_alone(s);
    if survey_in(fs, u, full, rest) is Ok && 0 <= state.root < s.roots().len() {
        if !state.open {
            let root = join_path(s.source, s.roots()[state.root]);
            lemma_walk_is_walked(fs, root);
            assert(nests((fs.walk)(root)));
            lemma_planned_twice(
                fs,
                s,
                PlanState { open: true, ..full },
                PlanState { open: true, ..state },
                (fs.walk)(root),
            );
        } else if rest.len() == 0 {
            lemma_planned_twice(
                fs,
                s,
                full.after(VisitView::End),
                state.after(VisitView::End),
                rest,
            );
        } else {
            let tail = rest.drop_first();
            lemma_rest_nests(fs, rest);
            lemma_beyond_nests(fs, tail, rest[0].depth);
            lemma_beyond_shorter(tail, rest[0].depth);
            match rest[0].found {
                Err(failure) => {
                    assert(broken_in(fs, u, failure) == broken_in(fs, s, failure));
                    lemma_planned_twice(fs, s, full, state, tail);
                },
                Ok((path, kind)) => {
                    lemma_met_next(fs, s, full, state, rest, path, kind);
                },
            }
        }
    }
}

proof fn lemma_met_next(
    fs: FileSystem,
    s: SurveyView,
    full: PlanState,
    state: PlanState,
    rest: Seq<MetView>,
    path: Seq<u8>,
    kind: FileKind,
)
    requires
        orderly(fs),
        full.root == state.root,
        full.open,
        state.open,
        0 <= state.root < s.roots().len(),
        state.entries == full.entries.filter(left_in(s)),
        agree(fs, s, full.seen, state.seen),
        nests(rest),
        all_walked(fs, rest),
        rest.len() > 0,
        rest[0].found == Ok::<(Seq<u8>, FileKind), WalkFailure>((path, kind)),
        survey_in(fs, unexcluded(s), full, rest) is Ok,
    ensures
        survey_in(fs, unexcluded(s), full, rest) matches Ok(all) ==> survey_in(fs, s, state, rest)
            == Ok::<Seq<EntryView>, ErrorView>(all.filter(left_in(s))),
    decreases s.roots().len() - state.root, 0int, rest.len(), 0int,
{
    let u = unexcluded(s);
    lemma_exclusions_alone(s);
    let tail = rest.drop_first();
    let depth = rest[0].depth;
    let directory = kind == FileKind::Directory;
    lemma_rest_nests(fs, rest);
    lemma_beyond_nests(fs, tail, depth);
    lemma_beyond_shorter(tail, depth);
    lemma_met_twice(fs, s, full.seen, state.seen, path, kind);
    let (visit, skip) = visit_in(fs, u, full.seen, rest)->Ok_0;
    let relative = below(path, s.source)->0;
    let next = full.after(visit);
    let onwards = onward(rest, skip);
    assert(survey_in(fs, u, full, rest) == survey_in(fs, u, next, onwards));
    if visit_in(fs, s, state.seen, rest) == Ok::<(VisitView, bool), ErrorView>((visit, skip)) && (
    visit is Pass || !s.left_out(relative, directory)) {
        if let VisitView::Take(e) = visit {
            lemma_left_out_pushed(s, full.entries, e);
        }
        lemma_planned_twice(fs, s, next, state.after(visit), onwards);
    } else {
        if visit !is Pass {
            lemma_left_out_met(fs, s, full.seen, state.seen, path, kind, relative);
            if let VisitView::Take(e) = visit {
                lemma_left_out_pushed(s, full.entries, e);
            }
        }
        assert(visit_in(fs, s, state.seen, rest) == Ok::<(VisitView, bool), ErrorView>(
            (VisitView::Pass, directory),
        ));
        assert(state.after(VisitView::Pass) == state);
        if directory && !skip {
            lemma_directory_ahead(rest);
            let through = lemma_through_directory(fs, s, path, depth, next, state.seen, tail);
            lemma_planned_twice(fs, s, through, state, beyond(tail, depth));
        } else {
            lemma_planned_twice(fs, s, next, state, onwards);
        }
    }
}

proof fn lemma_alike_left_in(s: SurveyView, entries: Seq<EntryView>, path: Seq<u8>)
    ensures
        alike(entries.filter(left_in(s)), path) == alike(entries, path).filter(left_in(s)),
    decreases entries.len(),
{
    reveal(Seq::filter);
    if entries.len() > 0 {
        let front = entries.drop_last();
        let e = entries.last();
        lemma_alike_left_in(s, front, path);
        assert(entries =~= front.push(e));
        lemma_left_out_pushed(s, front, e);
        lemma_left_out_pushed(s, alike(front, path), e);
        let kept = front.filter(left_in(s));
        assert(kept.push(e).drop_last() =~= kept);
    }
}

proof fn lemma_left_in_is_in_order(s: SurveyView, entries: Seq<EntryView>)
    requires
        in_order(entries),
    ensures
        in_order(entries.filter(left_in(s))),
    decreases entries.len(),
{
    reveal(Seq::filter);
    if entries.len() > 0 {
        let front = entries.drop_last();
        let e = entries.last();
        let kept = front.filter(left_in(s));
        assert(in_order(front)) by {
            assert forall|i: int, j: int|
                #![trigger front[i], front[j]]
                0 <= i <= j < front.len() implies !path_below(front[j].relative, front[i].relative) by {
                assert(front[i] == entries[i] && front[j] == entries[j]);
            }
        }
        lemma_left_in_is_in_order(s, front);
        assert(entries =~= front.push(e));
        lemma_left_out_pushed(s, front, e);
        let out = kept.push(e);
        assert forall|i: int, j: int|
            #![trigger out[i], out[j]]
            0 <= i <= j < out.len() implies !path_below(out[j].relative, out[i].relative) by {
            if j < kept.len() {
                assert(out[i] == kept[i] && out[j] == kept[j]);
            } else if i < kept.len() {
                assert(out[i] == kept[i]);
                assert(kept.contains(kept[i]));
                front.lemma_filter_contains_rev(left_in(s), kept[i]);
                let m = choose|m: int| 0 <= m < front.len() && front[m] == kept[i];
                assert(entries[m] == kept[i] && entries[entries.len() - 1] == e);
            } else {
                assert(entries[entries.len() - 1] == e);
            }
        }
    }
}

/// In a file system that stays as it is, a plan with exclusions is the plan without
/// them, in the same order, without exactly what they leave out: what is ignored, is
/// excluded or lies in a directory that is, and neither must not be lost nor holds
/// anything that must not.
pub proof fn law_exclusions_take_out_what_they_leave_out(
    fs: FileSystem,
    s: SurveyView,
    full: Log,
    all: Seq<EntryView>,
    unused: Log,
    log: Log,
)
    requires
        orderly(fs),
        plan_told(fs, full, unexcluded(s), PlanState::start(), Seq::empty()),
        survey_protocol(full, unexcluded(s), PlanState::start()) == Step::Done(all, unused),
        plan_told(fs, log, s, PlanState::start(), Seq::empty()),
    ensures
        match survey_protocol(log, s, PlanState::start()) {
            Step::Ask(_) => true,
            Step::Done(met, _) => {
                &&& met == all.filter(left_in(s))
                &&& forall|whole: Seq<EntryView>, plan: Seq<EntryView>|
                    #[trigger] sorts(all, whole) && #[trigger] sorts(met, plan) ==> plan
                        == whole.filter(left_in(s))
            },
            _ => false,
        },
{
    let start = PlanState::start();
    let none = Seq::<MetView>::empty();
    lemma_survey_told(fs, full, unexcluded(s), start, none);
    lemma_survey_told(fs, log, s, start, none);
    reveal(Seq::filter);
    assert(start.entries.filter(left_in(s)) =~= start.entries);
    lemma_planned_twice(fs, s, start, start, none);
    if let Step::Done(met, _) = survey_protocol(log, s, start) {
        assert forall|whole: Seq<EntryView>, plan: Seq<EntryView>|
            #[trigger] sorts(all, whole) && #[trigger] sorts(met, plan) implies plan == whole.filter(
            left_in(s),
        ) by {
            lemma_left_in_is_in_order(s, whole);
            assert forall|path: Seq<u8>| #[trigger]
                alike(plan, path) == alike(whole.filter(left_in(s)), path) by {
                lemma_alike_left_in(s, whole, path);
                lemma_alike_left_in(s, all, path);
                assert(alike(plan, path) == alike(met, path));
                assert(alike(whole, path) == alike(all, path));
            }
            lemma_same_order(plan, whole.filter(left_in(s)));
        }
    }
}

/// The same of what [`crate::clone::plan`] comes to: Git lists the same paths for both
/// plans, which tell of one file system, and the plan without exclusions succeeds. So
/// does the other one, with the entries of the first that are not left out.
pub proof fn law_exclusions_filter_the_plan(
    fs: FileSystem,
    git_cwd: Seq<u8>,
    s: SurveyView,
    full: Log,
    full_left: Log,
    full_answers: Log,
    log: Log,
    left: Log,
    answers: Log,
)
    requires
        orderly(fs),
        lists_protocol(full, git_cwd, s.dirty) == Step::Done(
            (s.indexed, s.protected, s.ignored),
            full_left,
        ),
        full_left.len() > 0,
        plan_told(fs, full_answers, unexcluded(s), PlanState::start(), Seq::empty()),
        tells_plan(
            full_left[0],
            survey_protocol(full_answers, unexcluded(s), PlanState::start()),
        ),
        lists_protocol(log, git_cwd, s.dirty) == Step::Done(
            (s.indexed, s.protected, s.ignored),
            left,
        ),
        left.len() > 0,
        plan_told(fs, answers, s, PlanState::start(), Seq::empty()),
        tells_plan(left[0], survey_protocol(answers, s, PlanState::start())),
    ensures
        plan_protocol(
            full,
            git_cwd,
            s.source,
            s.dirty,
            Seq::empty(),
            s.nested,
            s.destination,
        ) matches Step::Done(whole, _) ==> (plan_protocol(
            log,
            git_cwd,
            s.source,
            s.dirty,
            s.exclude,
            s.nested,
            s.destination,
        ) matches Step::Done(plan, _) && plan == whole.filter(left_in(s))),
{
    let start = PlanState::start();
    if let Reply::Planned(Ok(whole)) = full_left[0] {
        if let Step::Done(all, unused) = survey_protocol(full_answers, unexcluded(s), start) {
            law_exclusions_take_out_what_they_leave_out(
                fs,
                s,
                full_answers,
                all,
                unused,
                answers,
            );
            if let Reply::Planned(Ok(plan)) = left[0] {
                if let Step::Done(met, _) = survey_protocol(answers, s, start) {
                    assert(sorts(all, whole.deep_view()));
                    assert(sorts(met, plan.deep_view()));
                }
            }
        }
    }
}

} // verus!
