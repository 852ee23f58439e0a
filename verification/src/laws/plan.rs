//! What a plan holds.

use vstd::prelude::*;

use vstd::utf8::{encode_utf8, valid_utf8};

use crate::clone::{EntryView, SurveyView};
use crate::laws::ancestry::{lemma_ancestors_within, lemma_covered_by};
use crate::paths::{
    ancestors_of, below, components, join_path, joinable, law_below, law_join, law_normal, listed,
    normal, same_path, within,
};
use crate::planner::{
    covered, lemma_stage_uses, lies_above_any, stage_protocol, survey_protocol, visit_protocol,
    PlanState, VisitView,
};
use crate::session::{walk_reply, FileKind, Log, Reply, Step};

verus! {

/// Whether an entry may be carried over: it lies below the source, its path is a
/// text, it belongs neither to Git nor to another worktree nor to the destination,
/// it is not left out, it is marked as disposable exactly where it is, and a
/// directory comes with its mode.
pub open spec fn sound_entry(s: SurveyView, e: EntryView) -> bool {
    &&& e.relative.len() > 0
    &&& valid_utf8(e.relative)
    &&& !components(e.relative).contains(encode_utf8(".git"@))
    &&& exists|path: Seq<u8>|
        below(path, s.source) == Some(e.relative) && !#[trigger] s.off_limits(path, e.relative)
    &&& s.dirty || !listed(s.indexed, e.relative)
    &&& !s.left_out(e.relative, e.kind == FileKind::Directory)
    &&& e.disposable == s.disposable(e.relative)
    &&& e.directory_permissions is Some <==> e.kind == FileKind::Directory
}

/// Whether every entry may be carried over and none is there twice.
pub open spec fn sound_plan(s: SurveyView, entries: Seq<EntryView>) -> bool {
    &&& forall|i: int| 0 <= i < entries.len() ==> sound_entry(s, #[trigger] entries[i])
    &&& forall|i: int, j: int|
        #![trigger entries[i], entries[j]]
        0 <= i < j < entries.len() ==> !same_path(entries[i].relative, entries[j].relative)
}

/// Whether what is planned was met.
spec fn all_seen(state: PlanState) -> bool {
    forall|i: int|
        0 <= i < state.entries.len() ==> state.seen.contains(
            normal(#[trigger] state.entries[i].relative),
        )
}

proof fn lemma_taken_is_sound(log: Log, s: SurveyView, seen: Set<Seq<u8>>)
    ensures
        visit_protocol(log, s, seen) matches Step::Done(VisitView::Take(e), _) ==> sound_entry(s, e)
            && !seen.contains(normal(e.relative)),
{
    if let Step::Done(VisitView::Take(e), _) = visit_protocol(log, s, seen) {
        if let Step::Done(Some(Ok(entry)), _) = walk_reply(log) {
            assert(!s.off_limits(entry.path@, e.relative));
        }
    }
}

proof fn lemma_stage_is_sound(log: Log, s: SurveyView, state: PlanState)
    requires
        sound_plan(s, state.entries),
        all_seen(state),
    ensures
        stage_protocol(log, s, state) matches Step::Done(next, _) ==> sound_plan(s, next.entries)
            && all_seen(next),
{
    if let Step::Done(next, rest) = stage_protocol(log, s, state) {
        if state.open {
            if let Step::Done(visit, _) = visit_protocol(log, s, state.seen) {
                lemma_taken_is_sound(log, s, state.seen);
                if let VisitView::Take(e) = visit {
                    let old_entries = state.entries;
                    let entries = next.entries;
                    assert(entries == old_entries.push(e));
                    assert forall|i: int| 0 <= i < entries.len() implies sound_entry(
                        s,
                        #[trigger] entries[i],
                    ) by {
                        if i < old_entries.len() {
                            assert(entries[i] == old_entries[i]);
                        }
                    }
                    assert forall|i: int, j: int|
                        #![trigger entries[i], entries[j]]
                        0 <= i < j < entries.len() implies !same_path(
                        entries[i].relative,
                        entries[j].relative,
                    ) by {
                        assert(entries[i] == old_entries[i]);
                        if j < old_entries.len() {
                            assert(entries[j] == old_entries[j]);
                        } else {
                            law_normal(old_entries[i].relative, e.relative);
                            assert(state.seen.contains(normal(old_entries[i].relative)));
                        }
                    }
                    assert forall|i: int| 0 <= i < entries.len() implies next.seen.contains(
                        normal(#[trigger] entries[i].relative),
                    ) by {
                        if i < old_entries.len() {
                            assert(entries[i] == old_entries[i]);
                            assert(state.seen.contains(normal(old_entries[i].relative)));
                        }
                    }
                } else {
                    assert(next.entries == state.entries);
                    assert forall|i: int| 0 <= i < next.entries.len() implies next.seen.contains(
                        normal(#[trigger] next.entries[i].relative),
                    ) by {
                        assert(state.seen.contains(normal(state.entries[i].relative)));
                    }
                }
            }
        }
    }
}

proof fn lemma_survey_is_sound(log: Log, s: SurveyView, state: PlanState)
    requires
        sound_plan(s, state.entries),
        all_seen(state),
    ensures
        survey_protocol(log, s, state) matches Step::Done(entries, _) ==> sound_plan(s, entries),
    decreases log.len(),
{
    if 0 <= state.root < s.roots().len() {
        lemma_stage_uses(log, s, state);
        lemma_stage_is_sound(log, s, state);
        if let Step::Done(next, rest) = stage_protocol(log, s, state) {
            lemma_survey_is_sound(rest, s, next);
        }
    }
}

/// Whatever the walk meets, a plan holds only entries that may be carried over,
/// each once.
pub proof fn law_plan_is_sound(log: Log, s: SurveyView)
    ensures
        survey_protocol(log, s, PlanState::start()) matches Step::Done(entries, _) ==> sound_plan(
            s,
            entries,
        ),
{
    lemma_survey_is_sound(log, s, PlanState::start());
}

/// Whether each entry that a plan met lies within the root whose walk was open.
pub open spec fn walks_within_roots(log: Log, s: SurveyView, state: PlanState) -> bool
    decreases log.len(),
{
    if !(0 <= state.root < s.roots().len()) {
        true
    } else {
        proof {
            lemma_stage_uses(log, s, state);
        }
        &&& state.open && log.len() > 0 ==> match log[0] {
            Reply::Walked(Some(Ok(entry))) => within(
                entry.path@,
                join_path(s.source, s.roots()[state.root]),
            ),
            _ => true,
        }
        &&& match stage_protocol(log, s, state) {
            Step::Done(next, rest) => walks_within_roots(rest, s, next),
            _ => true,
        }
    }
}

spec fn all_ignored(s: SurveyView, entries: Seq<EntryView>) -> bool {
    forall|i: int| 0 <= i < entries.len() ==> covered(s.ignored, #[trigger] entries[i].relative)
}

proof fn lemma_taken_is_ignored(log: Log, s: SurveyView, seen: Set<Seq<u8>>, root: int)
    requires
        !s.dirty,
        components(s.source).len() > 0,
        0 <= root < s.ignored.len(),
        joinable(s.ignored[root]),
        log.len() > 0 ==> match log[0] {
            Reply::Walked(Some(Ok(entry))) => within(
                entry.path@,
                join_path(s.source, s.ignored[root]),
            ),
            _ => true,
        },
    ensures
        visit_protocol(log, s, seen) matches Step::Done(VisitView::Take(e), _) ==> covered(
            s.ignored,
            e.relative,
        ),
{
    if let Step::Done(VisitView::Take(e), _) = visit_protocol(log, s, seen) {
        if let Step::Done(Some(Ok(entry)), _) = walk_reply(log) {
            let path = entry.path@;
            let ignored = s.ignored[root];
            let n = components(s.source).len() as int;
            law_below(path, s.source);
            law_join(s.source, ignored);
            assert(e.relative == below(path, s.source)->0);
            let whole = components(join_path(s.source, ignored));
            assert(components(path).take(whole.len() as int) == whole);
            assert(components(e.relative).take(components(ignored).len() as int) =~= components(
                ignored,
            )) by {
                assert forall|i: int| 0 <= i < components(ignored).len() implies components(
                    e.relative,
                )[i] == #[trigger] components(ignored)[i] by {
                    assert(components(path).take(whole.len() as int)[n + i] == whole[n + i]);
                }
            }
            lemma_covered_by(s.ignored, root, e.relative);
        }
    }
}

proof fn lemma_only_ignored(log: Log, s: SurveyView, state: PlanState)
    requires
        !s.dirty,
        components(s.source).len() > 0,
        forall|k: int| 0 <= k < s.ignored.len() ==> joinable(#[trigger] s.ignored[k]),
        walks_within_roots(log, s, state),
        all_ignored(s, state.entries),
    ensures
        survey_protocol(log, s, state) matches Step::Done(entries, _) ==> all_ignored(s, entries),
    decreases log.len(),
{
    if 0 <= state.root < s.roots().len() {
        lemma_stage_uses(log, s, state);
        if let Step::Done(next, rest) = stage_protocol(log, s, state) {
            if state.open {
                assert(joinable(s.ignored[state.root]));
                lemma_taken_is_ignored(log, s, state.seen, state.root);
                if let Step::Done(VisitView::Take(e), _) = visit_protocol(log, s, state.seen) {
                    assert(next.entries == state.entries.push(e));
                    assert forall|i: int| 0 <= i < next.entries.len() implies covered(
                        s.ignored,
                        #[trigger] next.entries[i].relative,
                    ) by {
                        if i < state.entries.len() {
                            assert(next.entries[i] == state.entries[i]);
                        }
                    }
                } else {
                    assert(next.entries == state.entries);
                }
            }
            lemma_only_ignored(rest, s, next);
        }
    }
}

/// A plan that does not carry over changes holds only what is ignored, or lies in a
/// directory that is, where each entry that the walk met lies within the root that was
/// walked. Ignored paths are relative and do not begin with `.`, as Git writes them.
pub proof fn law_only_ignored_paths_are_planned(log: Log, s: SurveyView)
    requires
        !s.dirty,
        components(s.source).len() > 0,
        forall|k: int| 0 <= k < s.ignored.len() ==> joinable(#[trigger] s.ignored[k]),
        walks_within_roots(log, s, PlanState::start()),
    ensures
        survey_protocol(log, s, PlanState::start()) matches Step::Done(entries, _) ==> forall|
            i: int,
        |
            0 <= i < entries.len() ==> covered(s.ignored, #[trigger] entries[i].relative),
{
    lemma_only_ignored(log, s, PlanState::start());
}

/// What must not be lost is never disposable: neither a path that Git knows or
/// would show, nor a directory above one.
pub proof fn law_protected_paths_are_not_disposable(s: SurveyView, relative: Seq<u8>)
    requires
        listed(s.protected, relative) || lies_above_any(relative, s.protected),
    ensures
        !s.disposable(relative),
{
}

/// An exclusion leaves out only what is ignored.
pub proof fn law_exclusions_leave_out_only_ignored(s: SurveyView, relative: Seq<u8>, directory: bool)
    requires
        !covered(s.ignored, relative),
    ensures
        !s.left_out(relative, directory),
{
}

/// An exclusion leaves out neither a file that must not be lost nor a directory above
/// one.
pub proof fn law_exclusions_spare_protected_paths(s: SurveyView, relative: Seq<u8>)
    ensures
        listed(s.protected, relative) ==> !s.left_out(relative, false),
        lies_above_any(relative, s.protected) ==> !s.left_out(relative, true),
{
}

/// Exclusions match whole components: what is left out is excluded or lies in a
/// directory that is.
pub proof fn law_exclusions_match_whole_components(
    s: SurveyView,
    relative: Seq<u8>,
    directory: bool,
)
    requires
        s.left_out(relative, directory),
    ensures
        exists|m: int| 0 <= m < s.exclude.len() && within(relative, #[trigger] s.exclude[m]),
{
    let k = choose|k: int|
        0 <= k < ancestors_of(relative).len() && listed(
            s.exclude,
            #[trigger] ancestors_of(relative)[k],
        );
    let above = ancestors_of(relative)[k];
    lemma_ancestors_within(relative, k);
    let m = choose|m: int| 0 <= m < s.exclude.len() && same_path(#[trigger] s.exclude[m], above);
    assert(within(relative, s.exclude[m]));
}

} // verus!
