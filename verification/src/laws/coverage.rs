//! A plan misses nothing that the walk meets.

use vstd::prelude::*;

use vstd::utf8::{encode_utf8, valid_utf8};

use crate::clone::{disappeared_protocol, EntryView, SurveyView};
use crate::laws::ancestry::{lemma_ancestors_within, lemma_covered_by, lemma_lies_above};
use crate::laws::events::{
    asked, goes_on, hungry, lean, lemma_asked_either, lemma_asked_first, lemma_asked_next,
    lemma_result, thrifty, used,
};
use crate::laws::furnishing::{heard, lemma_heard};
use crate::laws::working::lemma_nothing_before;
use crate::paths::{
    absolute_path, ancestors_of, below, components, join_path, law_normal, listed, normal,
    same_path, within,
};
use crate::planner::{
    broken_protocol, covered, directory_entry_protocol, found_protocol, leave_protocol,
    lemma_stage_uses, lies_above, lies_above_any, repository_protocol, stage_protocol, steady_leave,
    steady_repository, steady_stage, steady_wanted, survey_protocol, visit_protocol,
    wanted_protocol, PlanState, VisitView,
};
use crate::session::{
    group_steady_replies, walk_reply, ErrorKind, FileKind, Log, Reply, RequestView, Step, WalkEntry,
    WalkFailure,
};

verus! {

proof fn eats_leave(log: Log, more: Log, directory: bool)
    ensures
        lean(leave_protocol(log, directory), log),
        hungry(leave_protocol(log, directory), leave_protocol(log + more, directory), more),
{
    broadcast use {group_steady_replies, lemma_nothing_before};

}

proof fn eats_broken(log: Log, more: Log, s: SurveyView, failure: WalkFailure)
    ensures
        lean(broken_protocol(log, s, failure), log),
        hungry(broken_protocol(log, s, failure), broken_protocol(log + more, s, failure), more),
{
    broadcast use {group_steady_replies, lemma_nothing_before};

}

proof fn eats_repository(log: Log, more: Log, path: Seq<u8>)
    ensures
        lean(repository_protocol(log, path), log),
        hungry(repository_protocol(log, path), repository_protocol(log + more, path), more),
{
    broadcast use {group_steady_replies, lemma_nothing_before};

}

proof fn eats_directory_entry(
    log: Log,
    more: Log,
    s: SurveyView,
    path: Seq<u8>,
    relative: Seq<u8>,
)
    ensures
        lean(directory_entry_protocol(log, s, path, relative), log),
        hungry(
            directory_entry_protocol(log, s, path, relative),
            directory_entry_protocol(log + more, s, path, relative),
            more,
        ),
{
    broadcast use {group_steady_replies, lemma_nothing_before};

}

proof fn eats_wanted(
    log: Log,
    more: Log,
    s: SurveyView,
    seen: Set<Seq<u8>>,
    path: Seq<u8>,
    relative: Seq<u8>,
    kind: FileKind,
)
    ensures
        lean(wanted_protocol(log, s, seen, path, relative, kind), log),
        hungry(
            wanted_protocol(log, s, seen, path, relative, kind),
            wanted_protocol(log + more, s, seen, path, relative, kind),
            more,
        ),
{
    eats_leave(log, more, kind == FileKind::Directory);
    eats_directory_entry(log, more, s, path, relative);
}

proof fn eats_found(
    log: Log,
    more: Log,
    s: SurveyView,
    seen: Set<Seq<u8>>,
    path: Seq<u8>,
    relative: Seq<u8>,
    kind: FileKind,
)
    ensures
        lean(found_protocol(log, s, seen, path, relative, kind), log),
        hungry(
            found_protocol(log, s, seen, path, relative, kind),
            found_protocol(log + more, s, seen, path, relative, kind),
            more,
        ),
{
    eats_leave(log, more, kind == FileKind::Directory);
    eats_wanted(log, more, s, seen, path, relative, kind);
    eats_repository(log, more, path);
    steady_repository(log, more, path);
    if let Step::Done(_, l) = repository_protocol(log, path) {
        eats_leave(l, more, true);
        eats_wanted(l, more, s, seen, path, relative, kind);
        steady_leave(l, more, true);
        steady_wanted(l, more, s, seen, path, relative, kind);
    }
    if let Step::Done(_, l) = repository_protocol(log + more, path) {
        eats_leave(l, more, true);
        eats_wanted(l, more, s, seen, path, relative, kind);
    }
}

proof fn eats_visit(log: Log, more: Log, s: SurveyView, seen: Set<Seq<u8>>)
    ensures
        lean(visit_protocol(log, s, seen), log),
        hungry(visit_protocol(log, s, seen), visit_protocol(log + more, s, seen), more),
{
    broadcast use {group_steady_replies, lemma_nothing_before};

    if let Step::Done(met, l) = walk_reply(log) {
        if let Some(Err(failure)) = met {
            eats_broken(l, more, s, failure);
        }
        if let Some(Ok(entry)) = met {
            if let Some(relative) = below(entry.path@, s.source) {
                eats_found(l, more, s, seen, entry.path@, relative, entry.kind);
            }
        }
    }
    if let Step::Done(met, l) = walk_reply(log + more) {
        if let Some(Err(failure)) = met {
            eats_broken(l, more, s, failure);
        }
        if let Some(Ok(entry)) = met {
            if let Some(relative) = below(entry.path@, s.source) {
                eats_found(l, more, s, seen, entry.path@, relative, entry.kind);
            }
        }
    }
}

proof fn lemma_stage_is_thrifty(s: SurveyView, state: PlanState)
    ensures
        thrifty(|l: Log| stage_protocol(l, s, state)),
{
    broadcast use {group_steady_replies, lemma_nothing_before};

    let p = |l: Log| stage_protocol(l, s, state);
    assert forall|log: Log, more: Log| #[trigger] goes_on(p, log, more) by {
        steady_stage(log, more, s, state);
        eats_visit(log, more, s, state.seen);
    }
    assert forall|log: Log| lean(#[trigger] p(log), log) by {
        eats_visit(log, log, s, state.seen);
    }
}

/// Whether an entry is not to be carried over, whatever is found there: it belongs to Git
/// itself, to another worktree or to the destination, Git has it already, or it is ignored
/// and was excluded.
pub open spec fn barred(s: SurveyView, path: Seq<u8>, relative: Seq<u8>) -> bool {
    ||| components(relative).contains(encode_utf8(".git"@))
    ||| exists|k: int| 0 <= k < s.nested.len() && within(path, #[trigger] s.nested[k])
    ||| within(path, s.destination)
    ||| !s.dirty && listed(s.indexed, relative)
    ||| {
        &&& exists|k: int| 0 <= k < s.ignored.len() && within(relative, #[trigger] s.ignored[k])
        &&& exists|k: int| 0 <= k < s.exclude.len() && within(relative, #[trigger] s.exclude[k])
    }
}

/// Whether an answer shows that a directory is a repository.
pub open spec fn shows_repository(path: Seq<u8>, request: RequestView, reply: Reply) -> bool {
    ||| request == RequestView::SymlinkMetadata(join_path(path, encode_utf8(".git"@))) && (
    reply matches Reply::Metadata(Ok(_)))
    ||| request == RequestView::Metadata(join_path(path, encode_utf8("refs"@))) && (
    reply matches Reply::Metadata(Ok(metadata)) && metadata.kind == FileKind::Directory)
}

/// Whether an answer shows that an entry is gone that may be.
pub open spec fn shows_gone(
    s: SurveyView,
    relative: Seq<u8>,
    request: RequestView,
    reply: Reply,
) -> bool {
    &&& request matches RequestView::SymlinkMetadata(path) && (below(
        path,
        s.source,
    ) matches Some(other) && same_path(other, relative) && s.disposable(other))
    &&& reply matches Reply::Metadata(Err(error)) && error.kind == ErrorKind::NotFound
}

/// Whether a procedure was answered something that shows why a directory is not carried
/// over.
pub open spec fn shown_why<T>(
    procedure: spec_fn(Log) -> Step<T>,
    log: Log,
    s: SurveyView,
    entry: WalkEntry,
    relative: Seq<u8>,
) -> bool {
    exists|i: int, request: RequestView| #[trigger]
        asked(procedure, log, i, request) && (shows_gone(s, relative, request, log[i]) || (
        entry.kind == FileKind::Directory && !s.dirty && shows_repository(
            entry.path@,
            request,
            log[i],
        )))
}

/// Whether a path is planned.
pub open spec fn planned(entries: Seq<EntryView>, relative: Seq<u8>) -> bool {
    exists|k: int|
        0 <= k < entries.len() && same_path((#[trigger] entries[k]).relative, relative)
}

proof fn lemma_covered_within(paths: Seq<Seq<u8>>, p: Seq<u8>)
    requires
        covered(paths, p),
    ensures
        exists|k: int| 0 <= k < paths.len() && within(p, #[trigger] paths[k]),
{
    let k = choose|k: int|
        0 <= k < ancestors_of(p).len() && listed(
            paths,
            #[trigger] ancestors_of(p)[k],
        );
    let above = ancestors_of(p)[k];
    lemma_ancestors_within(p, k);
    let m = choose|m: int| 0 <= m < paths.len() && same_path(#[trigger] paths[m], above);
    assert(within(p, paths[m]));
}

proof fn lemma_left_out_is_barred(s: SurveyView, path: Seq<u8>, relative: Seq<u8>, directory: bool)
    requires
        s.left_out(relative, directory) || s.off_limits(path, relative),
    ensures
        barred(s, path, relative),
{
    if s.left_out(relative, directory) {
        lemma_covered_within(s.ignored, relative);
        lemma_covered_within(s.exclude, relative);
    }
}

spec fn visiting(s: SurveyView, seen: Set<Seq<u8>>) -> spec_fn(Log) -> Step<VisitView> {
    |l: Log| visit_protocol(l, s, seen)
}

proof fn lemma_repository_shown(log: Log, path: Seq<u8>) -> (r: (int, RequestView))
    requires
        repository_protocol(log, path) matches Step::Done(found, _) && found,
    ensures
        asked(|l: Log| repository_protocol(l, path), log, r.0, r.1),
        shows_repository(path, r.1, log[r.0]),
        r.0 < used(repository_protocol(log, path), log),
{
    let p = |l: Log| repository_protocol(l, path);
    let git = RequestView::SymlinkMetadata(join_path(path, encode_utf8(".git"@)));
    let refs = RequestView::Metadata(join_path(path, encode_utf8("refs"@)));
    assert(log.take(0) =~= Log::empty());
    if log[0] matches Reply::Metadata(Ok(_)) {
        assert(asked(p, log, 0, git));
        (0, git)
    } else {
        let l1 = log.drop_first();
        let l2 = l1.drop_first();
        let l3 = l2.drop_first();
        assert(l1[0] == log[1] && l2[0] == log[2] && l3[0] == log[3]);
        let t = log.take(3);
        assert(t.drop_first().drop_first().drop_first() =~= Log::empty());
        assert(t[0] == log[0]);
        assert(t.drop_first()[0] == log[1]);
        assert(t.drop_first().drop_first()[0] == log[2]);
        assert(p(t) == Step::<bool>::Ask(refs));
        assert(asked(p, log, 3, refs));
        (3, refs)
    }
}

/// What comes of one entry: it is taken, or there is a reason not to.
#[verifier::rlimit(40)]
proof fn lemma_visited(
    log: Log,
    s: SurveyView,
    seen: Set<Seq<u8>>,
    entry: WalkEntry,
    relative: Seq<u8>,
)
    requires
        visit_protocol(log, s, seen) is Done,
        log.len() > 0,
        log[0] == Reply::Walked(Some(Ok(entry))),
        below(entry.path@, s.source) == Some(relative),
        relative.len() > 0,
    ensures
        match visit_protocol(log, s, seen)->Done_0 {
            VisitView::Take(e) => e.relative == relative && e.kind == entry.kind && spared(
                s,
                entry.path@,
            ),
            VisitView::Gone(gone) => gone == relative && shown_why(
                visiting(s, seen),
                log,
                s,
                entry,
                relative,
            ),
            VisitView::Pass => barred(s, entry.path@, relative) || seen.contains(normal(relative))
                || shown_why(visiting(s, seen), log, s, entry, relative),
            VisitView::End => false,
        },
{
    let p = visiting(s, seen);
    let path = entry.path@;
    let tail = log.drop_first();
    if s.off_limits(path, relative) || s.left_out(relative, entry.kind == FileKind::Directory) {
        lemma_left_out_is_barred(s, path, relative, entry.kind == FileKind::Directory);
    }
    if entry.kind == FileKind::Directory && !s.off_limits(path, relative) {
        if repository_protocol(tail, path)->Done_0 {
            let (i, request) = lemma_repository_shown(tail, path);
            assert(log.take(1 + i)[0] == log[0]);
            assert(log.take(1 + i).drop_first() =~= tail.take(i));
            assert(asked(p, log, 1 + i, request));
            assert(tail[i] == log[1 + i]);
        } else if !(!s.dirty && listed(s.indexed, relative)) && !s.left_out(relative, true)
            && !seen.contains(normal(relative)) {
            if visit_protocol(log, s, seen)->Done_0 is Gone {
                lemma_gone_shown(log, s, seen, entry, relative);
            }
        }
    }
}

/// The survey, from a state on.
pub open spec fn survey_from(s: SurveyView, state: PlanState) -> spec_fn(Log) -> Step<
    Seq<EntryView>,
> {
    |l: Log| survey_protocol(l, s, state)
}

proof fn lemma_kept_entries(log: Log, s: SurveyView, state: PlanState, relative: Seq<u8>)
    requires
        planned(state.entries, relative),
    ensures
        survey_protocol(log, s, state) matches Step::Done(entries, _) ==> planned(
            entries,
            relative,
        ),
    decreases log.len(),
{
    if 0 <= state.root < s.roots().len() {
        lemma_stage_uses(log, s, state);
        if let Step::Done(next, rest) = stage_protocol(log, s, state) {
            let k = choose|k: int|
                0 <= k < state.entries.len() && same_path(
                    (#[trigger] state.entries[k]).relative,
                    relative,
                );
            assert(next.entries[k] == state.entries[k]);
            lemma_kept_entries(rest, s, next, relative);
        }
    }
}

proof fn lemma_shown_later<T, U>(
    first: spec_fn(Log) -> Step<T>,
    next: spec_fn(T, Log) -> Step<U>,
    whole: spec_fn(Log) -> Step<U>,
    log: Log,
    s: SurveyView,
    entry: WalkEntry,
    relative: Seq<u8>,
)
    requires
        thrifty(first),
        forall|l: Log| #[trigger] whole(l) == first(l).bind(next),
        first(log) is Done,
        shown_why(
            |l: Log| next(first(log)->Done_0, l),
            first(log)->Done_1,
            s,
            entry,
            relative,
        ),
    ensures
        shown_why(whole, log, s, entry, relative),
{
    let q = |l: Log| next(first(log)->Done_0, l);
    let mid = first(log)->Done_1;
    let (i, request) = choose|i: int, request: RequestView| #[trigger]
        asked(q, mid, i, request) && (shows_gone(s, relative, request, mid[i]) || (entry.kind
            == FileKind::Directory && !s.dirty && shows_repository(
            entry.path@,
            request,
            mid[i],
        )));
    lemma_asked_next(first, next, whole, log, i, request);
}

/// Whether the walk met an entry below the source.
pub open spec fn met(
    procedure: spec_fn(Log) -> Step<Seq<EntryView>>,
    log: Log,
    s: SurveyView,
    j: int,
    entry: WalkEntry,
    relative: Seq<u8>,
) -> bool {
    &&& asked(procedure, log, j, RequestView::NextEntry)
    &&& log[j] == Reply::Walked(Some(Ok(entry)))
    &&& below(entry.path@, s.source) == Some(relative)
    &&& relative.len() > 0
}

proof fn lemma_one_walk_request(log: Log, s: SurveyView, seen: Set<Seq<u8>>, j: int)
    requires
        asked(visiting(s, seen), log, j, RequestView::NextEntry),
    ensures
        j == 0,
{
    if j > 0 {
        let l = log.take(j);
        if let Step::Done(Some(Ok(entry)), rest) = walk_reply(l) {
            if let Some(relative) = below(entry.path@, s.source) {
                assert(!(repository_protocol(rest, entry.path@) matches Step::Ask(request)
                    && request is NextEntry));
                if let Step::Done(_, more) = repository_protocol(rest, entry.path@) {
                    assert(!(directory_entry_protocol(
                        more,
                        s,
                        entry.path@,
                        relative,
                    ) matches Step::Ask(request) && request is NextEntry));
                }
            }
        }
    }
}

#[verifier::rlimit(40)]
proof fn lemma_accounted(
    log: Log,
    s: SurveyView,
    state: PlanState,
    j: int,
    entry: WalkEntry,
    relative: Seq<u8>,
)
    requires
        survey_protocol(log, s, state) is Done,
        met(survey_from(s, state), log, s, j, entry, relative),
    ensures
        planned(survey_protocol(log, s, state)->Done_0, relative) || barred(
            s,
            entry.path@,
            relative,
        ) || shown_why(survey_from(s, state), log, s, entry, relative) || state.seen.contains(
            normal(relative),
        ),
    decreases log.len(),
{
    let whole = survey_from(s, state);
    assert(0 <= state.root < s.roots().len());
    let first = |l: Log| stage_protocol(l, s, state);
    let next = |t: PlanState, l: Log| survey_protocol(l, s, t);
    assert forall|l: Log| #[trigger] whole(l) == first(l).bind(next) by {
        lemma_stage_uses(l, s, state);
    }
    lemma_stage_is_thrifty(s, state);
    lemma_stage_uses(log, s, state);
    let after = first(log)->Done_0;
    let mid = first(log)->Done_1;
    let n = used(first(log), log);
    lemma_result(first, log);
    lemma_asked_either(first, next, whole, log, j, RequestView::NextEntry);
    if j < n {
        assert(state.open);
        let p = visiting(s, state.seen);
        assert(asked(p, log, j, RequestView::NextEntry));
        lemma_one_walk_request(log, s, state.seen, j);
        lemma_visited(log, s, state.seen, entry, relative);
        match visit_protocol(log, s, state.seen)->Done_0 {
            VisitView::Take(e) => {
                assert(after.entries[state.entries.len() as int] == e);
                assert(planned(after.entries, relative));
                lemma_kept_entries(mid, s, after, relative);
            },
            _ => {},
        }
        if shown_why(p, log, s, entry, relative) {
            let (i, request) = choose|i: int, request: RequestView| #[trigger]
                asked(p, log, i, request) && (shows_gone(s, relative, request, log[i]) || (
                entry.kind == FileKind::Directory && !s.dirty && shows_repository(
                    entry.path@,
                    request,
                    log[i],
                )));
            assert(asked(first, log, i, request));
            lemma_asked_first(first, next, whole, log, i, request);
        }
    } else {
        let later = survey_from(s, after);
        assert(later =~= (|l: Log| next(first(log)->Done_0, l)));
        assert(met(later, mid, s, j - n, entry, relative));
        lemma_accounted(mid, s, after, j - n, entry, relative);
        if shown_why(later, mid, s, entry, relative) {
            lemma_shown_later(first, next, whole, log, s, entry, relative);
        } else if after.seen.contains(normal(relative)) && !state.seen.contains(normal(relative)) {
            lemma_newly_seen(log, s, state, entry, relative);
            if planned(after.entries, relative) {
                lemma_kept_entries(mid, s, after, relative);
            } else {
                let p = visiting(s, state.seen);
                let (i, request) = choose|i: int, request: RequestView| #[trigger]
                    asked(p, log, i, request) && (shows_gone(s, relative, request, log[i]) || (
                    entry.kind == FileKind::Directory && !s.dirty && shows_repository(
                        entry.path@,
                        request,
                        log[i],
                    )));
                assert(asked(first, log, i, request));
                lemma_asked_first(first, next, whole, log, i, request);
            }
        }
    }
}

proof fn lemma_newly_seen(
    log: Log,
    s: SurveyView,
    state: PlanState,
    entry: WalkEntry,
    relative: Seq<u8>,
)
    requires
        stage_protocol(log, s, state) is Done,
        (stage_protocol(log, s, state)->Done_0).seen.contains(normal(relative)),
        !state.seen.contains(normal(relative)),
    ensures
        planned((stage_protocol(log, s, state)->Done_0).entries, relative) || shown_why(
            visiting(s, state.seen),
            log,
            s,
            entry,
            relative,
        ),
{
    let after = stage_protocol(log, s, state)->Done_0;
    assert(state.open);
    let visit = visit_protocol(log, s, state.seen)->Done_0;
    let tail = log.drop_first();
    match visit {
        VisitView::Take(e) => {
            law_normal(e.relative, relative);
            assert(after.entries[state.entries.len() as int] == e);
            assert(same_path(e.relative, relative));
        },
        VisitView::Gone(other) => {
            law_normal(other, relative);
            assert(same_path(other, relative));
            let first_entry = (log[0]->Walked_0)->0->Ok_0;
            assert(log[0] == Reply::Walked(Some(Ok(first_entry))));
            assert(below(first_entry.path@, s.source) == Some(other));
            lemma_visited(log, s, state.seen, first_entry, other);
            lemma_gone_shown(log, s, state.seen, first_entry, other);
            let p = visiting(s, state.seen);
            let (i, request) = choose|i: int, request: RequestView| #[trigger]
                asked(p, log, i, request) && shows_gone(s, other, request, log[i]);
            assert(shows_gone(s, relative, request, log[i]));
        },
        _ => {},
    }
}

proof fn lemma_gone_shown(
    log: Log,
    s: SurveyView,
    seen: Set<Seq<u8>>,
    entry: WalkEntry,
    relative: Seq<u8>,
)
    requires
        visit_protocol(log, s, seen) matches Step::Done(VisitView::Gone(_), _),
        log.len() > 0,
        log[0] == Reply::Walked(Some(Ok(entry))),
        below(entry.path@, s.source) == Some(relative),
        relative.len() > 0,
    ensures
        exists|i: int, request: RequestView| #[trigger]
            asked(visiting(s, seen), log, i, request) && shows_gone(s, relative, request, log[i]),
{
    let p = visiting(s, seen);
    let path = entry.path@;
    let tail = log.drop_first();
    let q = |l: Log| repository_protocol(l, path);
    let mid = repository_protocol(tail, path)->Done_1;
    let n = used(q(tail), tail);
    lemma_repository_is_thrifty(path);
    lemma_result(q, tail);
    let look = RequestView::SymlinkMetadata(path);
    assert(directory_entry_protocol(mid, s, path, relative) is Done);
    assert(mid.len() > 0);
    assert(mid[0] matches Reply::Metadata(Err(error)) && error.kind == ErrorKind::NotFound);
    assert(tail.take(n) =~= log.take(1 + n).drop_first());
    assert(log.take(1 + n)[0] == log[0]);
    assert(q(tail.take(n)) == Step::Done(false, tail.skip(n).take(0)));
    assert(tail.skip(n).take(0) =~= Log::empty());
    assert(p(log.take(1 + n)) == Step::<VisitView>::Ask(look));
    assert(log[1 + n] == mid[0]);
    assert(asked(p, log, 1 + n, look));
}

/// Every entry below the source that the walk meets is planned, unless there is a reason
/// not to: it is barred, or was shown to be a repository, or to be gone where it may be.
pub proof fn law_every_entry_met_is_planned(
    log: Log,
    s: SurveyView,
    j: int,
    entry: WalkEntry,
    relative: Seq<u8>,
)
    requires
        survey_protocol(log, s, PlanState::start()) is Done,
        met(
            |l: Log| survey_protocol(l, s, PlanState::start()),
            log,
            s,
            j,
            entry,
            relative,
        ),
    ensures
        planned(survey_protocol(log, s, PlanState::start())->Done_0, relative) || barred(
            s,
            entry.path@,
            relative,
        ) || shown_why(
            |l: Log| survey_protocol(l, s, PlanState::start()),
            log,
            s,
            entry,
            relative,
        ),
{
    let start = PlanState::start();
    assert(survey_from(s, start) =~= (|l: Log| survey_protocol(l, s, start)));
    lemma_accounted(log, s, start, j, entry, relative);
}

/// Where a walk begins: at the source, or at an ignored entry in there.
pub open spec fn beginning(s: SurveyView, k: int) -> Seq<u8> {
    join_path(
        s.source,
        if s.dirty {
            Seq::empty()
        } else {
            s.ignored[k]
        },
    )
}

/// How many walks there are: one of the source, or one of each ignored entry.
pub open spec fn walks(s: SurveyView) -> int {
    if s.dirty {
        1
    } else {
        s.ignored.len() as int
    }
}

/// Whether a walk was begun.
pub open spec fn begun(
    procedure: spec_fn(Log) -> Step<Seq<EntryView>>,
    log: Log,
    s: SurveyView,
    k: int,
) -> bool {
    exists|j: int| #[trigger] asked(procedure, log, j, RequestView::OpenWalk(beginning(s, k)))
}

/// Whether the last answer that was used says that a walk is over.
pub open spec fn ends_with_a_walk(step: Step<Seq<EntryView>>, log: Log) -> bool {
    step matches Step::Done(_, rest) ==> rest.len() < log.len() && log[log.len() - rest.len() - 1]
        == Reply::Walked(None)
}

/// A walk is over when it is said to be.
proof fn lemma_walk_over(log: Log, s: SurveyView, state: PlanState)
    requires
        stage_protocol(log, s, state) matches Step::Done(after, _) && after.root != state.root,
    ensures
        log.len() > 0,
        log[0] == Reply::Walked(None),
        stage_protocol(log, s, state) matches Step::Done(after, rest) && after.root == state.root
            + 1 && rest == log.drop_first(),
{
    assert(state.open);
    assert(visit_protocol(log, s, state.seen) matches Step::Done(VisitView::End, _));
    if let Reply::Walked(Some(Ok(entry))) = log[0] {
        if let Some(relative) = below(entry.path@, s.source) {
            if relative.len() > 0 {
                lemma_visited(log, s, state.seen, entry, relative);
            }
        }
    }
}

proof fn lemma_ends(log: Log, s: SurveyView, state: PlanState)
    requires
        0 <= state.root < walks(s),
    ensures
        ends_with_a_walk(survey_protocol(log, s, state), log),
    decreases log.len(),
{
    lemma_stage_uses(log, s, state);
    if let Step::Done(after, mid) = stage_protocol(log, s, state) {
        let n = log.len() - mid.len();
        assert(mid =~= log.skip(n)) by {
            let first = |l: Log| stage_protocol(l, s, state);
            lemma_stage_is_thrifty(s, state);
            lemma_result(first, log);
        }
        if after.root != state.root {
            lemma_walk_over(log, s, state);
        }
        if after.root < walks(s) {
            lemma_ends(mid, s, after);
            if let Step::Done(_, rest) = survey_protocol(mid, s, after) {
                assert(mid[mid.len() - rest.len() - 1] == log[log.len() - rest.len() - 1]);
            }
        } else {
            assert(survey_protocol(mid, s, after)->Done_1 == mid);
        }
    }
}

#[verifier::rlimit(40)]
proof fn lemma_begun(log: Log, s: SurveyView, state: PlanState, k: int)
    requires
        survey_protocol(log, s, state) is Done,
        0 <= state.root <= k < walks(s),
        state.root == k ==> !state.open,
    ensures
        begun(survey_from(s, state), log, s, k),
    decreases log.len(),
{
    let whole = survey_from(s, state);
    let open = RequestView::OpenWalk(beginning(s, k));
    let first = |l: Log| stage_protocol(l, s, state);
    let next = |t: PlanState, l: Log| survey_protocol(l, s, t);
    assert forall|l: Log| #[trigger] whole(l) == first(l).bind(next) by {
        lemma_stage_uses(l, s, state);
    }
    lemma_stage_uses(log, s, state);
    if state.root == k {
        assert(log.take(0) =~= Log::empty());
        assert(s.dirty ==> s.roots()[0] =~= Seq::<u8>::empty());
        assert(asked(first, log, 0, open));
        lemma_asked_first(first, next, whole, log, 0, open);
    } else {
        let after = first(log)->Done_0;
        let mid = first(log)->Done_1;
        if after.root != state.root {
            lemma_walk_over(log, s, state);
        }
        lemma_begun(mid, s, after, k);
        let later = survey_from(s, after);
        assert(later =~= (|l: Log| next(first(log)->Done_0, l)));
        let j = choose|j: int| #[trigger] asked(later, mid, j, open);
        lemma_stage_is_thrifty(s, state);
        lemma_asked_next(first, next, whole, log, j, open);
    }
}

/// A plan is made of walks that came to their end: one of the source where changes are
/// carried over, else one of each ignored entry in there. Each of them is begun, and the
/// last thing that a plan hears is that a walk is over.
pub proof fn law_every_root_is_walked(log: Log, s: SurveyView, k: int)
    requires
        survey_protocol(log, s, PlanState::start()) is Done,
        0 <= k < walks(s),
    ensures
        begun(|l: Log| survey_protocol(l, s, PlanState::start()), log, s, k),
        ends_with_a_walk(survey_protocol(log, s, PlanState::start()), log),
{
    let start = PlanState::start();
    assert(survey_from(s, start) =~= (|l: Log| survey_protocol(l, s, start)));
    lemma_begun(log, s, start, k);
    lemma_ends(log, s, start);
}

/// Whether there was a reason to skip a directory that the walk met at `i`.
pub open spec fn skipped(
    procedure: spec_fn(Log) -> Step<Seq<EntryView>>,
    log: Log,
    s: SurveyView,
    i: int,
    entry: WalkEntry,
    relative: Seq<u8>,
) -> bool {
    &&& met(procedure, log, s, i, entry, relative)
    &&& entry.kind == FileKind::Directory
    &&& barred(s, entry.path@, relative) || shown_why(procedure, log, s, entry, relative)
}

proof fn lemma_skipped(log: Log, s: SurveyView, seen: Set<Seq<u8>>, j: int) -> (r: (
    WalkEntry,
    Seq<u8>,
))
    requires
        asked(visiting(s, seen), log, j, RequestView::SkipDirectory),
    ensures
        j > 0,
        log[0] == Reply::Walked(Some(Ok(r.0))),
        below(r.0.path@, s.source) == Some(r.1),
        r.1.len() > 0,
        r.0.kind == FileKind::Directory,
        barred(s, r.0.path@, r.1) || shown_why(visiting(s, seen), log, s, r.0, r.1),
{
    let p = visiting(s, seen);
    let l = log.take(j);
    assert(l.len() > 0);
    assert(l[0] == log[0]);
    let entry = (log[0]->Walked_0)->0->Ok_0;
    let path = entry.path@;
    let relative = below(path, s.source)->0;
    let tail = l.drop_first();
    assert(log[0] == Reply::Walked(Some(Ok(entry))));
    if s.off_limits(path, relative) || s.left_out(relative, true) {
        lemma_left_out_is_barred(s, path, relative, true);
    } else {
        let q = |x: Log| repository_protocol(x, path);
        assert(q(tail) is Done);
        let mid = q(tail)->Done_1;
        let n = used(q(tail), tail);
        lemma_repository_is_thrifty(path);
        lemma_result(q, tail);
        if q(tail)->Done_0 {
            let (i, request) = lemma_repository_shown(tail, path);
            assert(log.take(1 + i)[0] == log[0]);
            assert(log.take(1 + i).drop_first() =~= tail.take(i));
            assert(asked(p, log, 1 + i, request));
            assert(tail[i] == log[1 + i]);
        } else {
            let look = RequestView::SymlinkMetadata(path);
            assert(directory_entry_protocol(mid, s, path, relative) == Step::<VisitView>::Ask(
                RequestView::SkipDirectory,
            ));
            assert(mid.len() > 0);
            assert(mid[0] matches Reply::Metadata(Err(error)) && error.kind
                == ErrorKind::NotFound);
            assert(tail.take(n) =~= log.take(1 + n).drop_first());
            assert(log.take(1 + n)[0] == log[0]);
            assert(q(tail.take(n)) == Step::Done(false, tail.skip(n).take(0)));
            assert(tail.skip(n).take(0) =~= Log::empty());
            assert(p(log.take(1 + n)) == Step::<VisitView>::Ask(look));
            assert(log[1 + n] == mid[0]);
            assert(asked(p, log, 1 + n, look));
            assert(shows_gone(s, relative, look, log[1 + n]));
        }
    }
    (entry, relative)
}

proof fn lemma_repository_is_thrifty(path: Seq<u8>)
    ensures
        thrifty(|l: Log| repository_protocol(l, path)),
{
    let q = |l: Log| repository_protocol(l, path);
    assert forall|a: Log, more: Log| #[trigger] goes_on(q, a, more) by {
        steady_repository(a, more, path);
        eats_repository(a, more, path);
    }
    assert forall|a: Log| lean(#[trigger] q(a), a) by {
        eats_repository(a, a, path);
    }
}

#[verifier::rlimit(40)]
proof fn lemma_skips(log: Log, s: SurveyView, state: PlanState, j: int)
    requires
        survey_protocol(log, s, state) is Done,
        asked(survey_from(s, state), log, j, RequestView::SkipDirectory),
    ensures
        exists|i: int, entry: WalkEntry, relative: Seq<u8>|
            i < j && #[trigger] skipped(survey_from(s, state), log, s, i, entry, relative),
    decreases log.len(),
{
    let whole = survey_from(s, state);
    assert(0 <= state.root < s.roots().len());
    let first = |l: Log| stage_protocol(l, s, state);
    let next = |t: PlanState, l: Log| survey_protocol(l, s, t);
    assert forall|l: Log| #[trigger] whole(l) == first(l).bind(next) by {
        lemma_stage_uses(l, s, state);
    }
    lemma_stage_is_thrifty(s, state);
    lemma_stage_uses(log, s, state);
    lemma_result(first, log);
    let after = first(log)->Done_0;
    let mid = first(log)->Done_1;
    let n = used(first(log), log);
    lemma_asked_either(first, next, whole, log, j, RequestView::SkipDirectory);
    if j < n {
        assert(state.open);
        let p = visiting(s, state.seen);
        assert(asked(p, log, j, RequestView::SkipDirectory));
        let (entry, relative) = lemma_skipped(log, s, state.seen, j);
        assert(log.take(0) =~= Log::empty());
        assert(asked(first, log, 0, RequestView::NextEntry));
        lemma_asked_first(first, next, whole, log, 0, RequestView::NextEntry);
        if shown_why(p, log, s, entry, relative) {
            let (i, request) = choose|i: int, request: RequestView| #[trigger]
                asked(p, log, i, request) && (shows_gone(s, relative, request, log[i]) || (
                entry.kind == FileKind::Directory && !s.dirty && shows_repository(
                    entry.path@,
                    request,
                    log[i],
                )));
            assert(asked(first, log, i, request));
            lemma_asked_first(first, next, whole, log, i, request);
        }
        assert(skipped(whole, log, s, 0, entry, relative));
    } else {
        let later = survey_from(s, after);
        assert(later =~= (|l: Log| next(first(log)->Done_0, l)));
        lemma_skips(mid, s, after, j - n);
        let (i, entry, relative) = choose|i: int, entry: WalkEntry, relative: Seq<u8>|
            i < j - n && #[trigger] skipped(later, mid, s, i, entry, relative);
        lemma_asked_next(first, next, whole, log, i, RequestView::NextEntry);
        if shown_why(later, mid, s, entry, relative) {
            lemma_shown_later(first, next, whole, log, s, entry, relative);
        }
        assert(skipped(whole, log, s, n + i, entry, relative));
    }
}

/// What is in a directory is passed by only with a reason: a directory was met before that
/// is barred, or was shown to be a repository, or to be gone where it may be.
pub proof fn law_directories_are_skipped_with_a_reason(log: Log, s: SurveyView, j: int)
    requires
        survey_protocol(log, s, PlanState::start()) is Done,
        asked(
            |l: Log| survey_protocol(l, s, PlanState::start()),
            log,
            j,
            RequestView::SkipDirectory,
        ),
    ensures
        exists|i: int, entry: WalkEntry, relative: Seq<u8>|
            i < j && #[trigger] skipped(
                survey_from(s, PlanState::start()),
                log,
                s,
                i,
                entry,
                relative,
            ),
{
    let start = PlanState::start();
    assert(survey_from(s, start) =~= (|l: Log| survey_protocol(l, s, start)));
    lemma_skips(log, s, start, j);
}

/// Whether a path lies at or below one of the paths.
pub open spec fn under(paths: Seq<Seq<u8>>, relative: Seq<u8>) -> bool {
    exists|k: int| 0 <= k < paths.len() && within(relative, #[trigger] paths[k])
}

/// Whether one of the paths lies below a directory.
pub open spec fn holds_some(paths: Seq<Seq<u8>>, directory: Seq<u8>) -> bool {
    exists|k: int|
        0 <= k < paths.len() && within(#[trigger] paths[k], directory) && !same_path(
            paths[k],
            directory,
        )
}

proof fn lemma_holds_some(paths: Seq<Seq<u8>>, directory: Seq<u8>)
    requires
        components(directory).len() > 0,
    ensures
        lies_above_any(directory, paths) == holds_some(paths, directory),
{
    if lies_above_any(directory, paths) {
        let k = choose|k: int| 0 <= k < paths.len() && lies_above(directory, #[trigger] paths[k]);
        let j = choose|j: int|
            1 <= j < ancestors_of(paths[k]).len() && same_path(
                #[trigger] ancestors_of(paths[k])[j],
                directory,
            );
        lemma_ancestors_within(paths[k], j);
        assert(within(paths[k], directory) && !same_path(paths[k], directory));
    }
    if holds_some(paths, directory) {
        let k = choose|k: int|
            0 <= k < paths.len() && within(#[trigger] paths[k], directory) && !same_path(
                paths[k],
                directory,
            );
        let c = components(paths[k]);
        assert(c.take(components(directory).len() as int) == components(directory));
        if c.len() == components(directory).len() {
            assert(c.take(c.len() as int) =~= c);
        }
        lemma_lies_above(directory, paths[k]);
        assert(lies_above(directory, paths[k]));
    }
}

/// What may disappear while it is carried over: what is ignored, or lies in a directory
/// that is, and neither is nor holds anything that must not be lost.
pub proof fn law_what_may_be_gone(s: SurveyView, relative: Seq<u8>)
    requires
        !absolute_path(relative),
        components(relative).len() > 0,
    ensures
        s.disposable(relative) <==> under(s.ignored, relative) && !listed(s.protected, relative)
            && !holds_some(s.protected, relative),
{
    lemma_holds_some(s.protected, relative);
    if covered(s.ignored, relative) {
        lemma_covered_within(s.ignored, relative);
    }
    if under(s.ignored, relative) {
        let k = choose|k: int| 0 <= k < s.ignored.len() && within(relative, #[trigger] s.ignored[k]);
        lemma_covered_by(s.ignored, k, relative);
    }
}

/// What is left out at the user's wish: what is ignored and excluded, itself or with a
/// directory above it, but neither a file that must not be lost nor a directory that holds
/// one.
pub proof fn law_what_is_left_out(s: SurveyView, relative: Seq<u8>, directory: bool)
    requires
        !absolute_path(relative),
        components(relative).len() > 0,
    ensures
        s.left_out(relative, directory) <==> under(s.ignored, relative) && under(
            s.exclude,
            relative,
        ) && !(directory && holds_some(s.protected, relative)) && !(!directory && listed(
            s.protected,
            relative,
        )),
{
    lemma_holds_some(s.protected, relative);
    if covered(s.ignored, relative) {
        lemma_covered_within(s.ignored, relative);
    }
    if under(s.ignored, relative) {
        let k = choose|k: int| 0 <= k < s.ignored.len() && within(relative, #[trigger] s.ignored[k]);
        lemma_covered_by(s.ignored, k, relative);
    }
    if covered(s.exclude, relative) {
        lemma_covered_within(s.exclude, relative);
    }
    if under(s.exclude, relative) {
        let k = choose|k: int| 0 <= k < s.exclude.len() && within(relative, #[trigger] s.exclude[k]);
        lemma_covered_by(s.exclude, k, relative);
    }
}

/// Whether a path belongs neither to another worktree in the source nor to the destination.
pub open spec fn spared(s: SurveyView, path: Seq<u8>) -> bool {
    &&& !within(path, s.destination)
    &&& forall|k: int| 0 <= k < s.nested.len() ==> !within(path, #[trigger] s.nested[k])
}

/// Whether an entry of a plan is one that the walk met at `j`, of that kind, and that belongs
/// neither to another worktree nor to the destination; and a directory has the mode that was
/// answered of it.
pub open spec fn met_as(
    procedure: spec_fn(Log) -> Step<Seq<EntryView>>,
    log: Log,
    s: SurveyView,
    j: int,
    entry: WalkEntry,
    e: EntryView,
) -> bool {
    &&& met(procedure, log, s, j, entry, e.relative)
    &&& e.kind == entry.kind
    &&& spared(s, entry.path@)
    &&& e.kind == FileKind::Directory ==> exists|i: int|
        j < i && #[trigger] asked(procedure, log, i, RequestView::SymlinkMetadata(entry.path@))
            && (log[i] matches Reply::Metadata(Ok(metadata)) && metadata.kind
            == FileKind::Directory && e.directory_permissions == Some(metadata.mode))
}

/// Whether an entry of a plan is one that the walk met.
pub open spec fn comes_from_the_walk(
    procedure: spec_fn(Log) -> Step<Seq<EntryView>>,
    log: Log,
    s: SurveyView,
    e: EntryView,
) -> bool {
    exists|j: int, entry: WalkEntry| #[trigger] met_as(procedure, log, s, j, entry, e)
}

proof fn lemma_mode_answered(
    log: Log,
    s: SurveyView,
    seen: Set<Seq<u8>>,
    entry: WalkEntry,
    e: EntryView,
) -> (i: int)
    requires
        log.len() > 0,
        log[0] == Reply::Walked(Some(Ok(entry))),
        visit_protocol(log, s, seen) matches Step::Done(VisitView::Take(taken), _) && taken == e,
        entry.kind == FileKind::Directory,
    ensures
        0 < i,
        asked(visiting(s, seen), log, i, RequestView::SymlinkMetadata(entry.path@)),
        log[i] matches Reply::Metadata(Ok(metadata)) && metadata.kind == FileKind::Directory
            && e.directory_permissions == Some(metadata.mode),
{
    let p = visiting(s, seen);
    let path = entry.path@;
    let tail = log.drop_first();
    let q = |l: Log| repository_protocol(l, path);
    let mid = q(tail)->Done_1;
    let n = used(q(tail), tail);
    lemma_repository_is_thrifty(path);
    lemma_result(q, tail);
    assert(mid.len() > 0);
    assert(tail.take(n) =~= log.take(1 + n).drop_first());
    assert(log.take(1 + n)[0] == log[0]);
    assert(q(tail.take(n)) == Step::Done(false, tail.skip(n).take(0)));
    assert(tail.skip(n).take(0) =~= Log::empty());
    assert(p(log.take(1 + n)) == Step::<VisitView>::Ask(RequestView::SymlinkMetadata(path)));
    assert(log[1 + n] == mid[0]);
    1 + n
}

#[verifier::rlimit(40)]
proof fn lemma_met_as_later(
    s: SurveyView,
    state: PlanState,
    log: Log,
    e: EntryView,
)
    requires
        0 <= state.root < s.roots().len(),
        stage_protocol(log, s, state) is Done,
        comes_from_the_walk(
            survey_from(s, stage_protocol(log, s, state)->Done_0),
            stage_protocol(log, s, state)->Done_1,
            s,
            e,
        ),
    ensures
        comes_from_the_walk(survey_from(s, state), log, s, e),
{
    let whole = survey_from(s, state);
    let first = |l: Log| stage_protocol(l, s, state);
    let next = |t: PlanState, l: Log| survey_protocol(l, s, t);
    assert forall|l: Log| #[trigger] whole(l) == first(l).bind(next) by {
        lemma_stage_uses(l, s, state);
    }
    lemma_stage_is_thrifty(s, state);
    let after = first(log)->Done_0;
    let mid = first(log)->Done_1;
    let n = used(first(log), log);
    let later = survey_from(s, after);
    assert(later =~= (|l: Log| next(first(log)->Done_0, l)));
    let (j, entry) = choose|j: int, entry: WalkEntry| #[trigger]
        met_as(later, mid, s, j, entry, e);
    lemma_asked_next(first, next, whole, log, j, RequestView::NextEntry);
    if e.kind == FileKind::Directory {
        let look = RequestView::SymlinkMetadata(entry.path@);
        let i = choose|i: int|
            j < i && #[trigger] asked(later, mid, i, look) && (mid[i] matches Reply::Metadata(
                Ok(metadata),
            ) && metadata.kind == FileKind::Directory && e.directory_permissions == Some(
                metadata.mode,
            ));
        lemma_asked_next(first, next, whole, log, i, look);
    }
    assert(met_as(whole, log, s, n + j, entry, e));
}

#[verifier::rlimit(40)]
proof fn lemma_all_met(log: Log, s: SurveyView, state: PlanState, k: int)
    requires
        survey_protocol(log, s, state) is Done,
        state.entries.len() <= k < (survey_protocol(log, s, state)->Done_0).len(),
        0 <= state.root,
    ensures
        comes_from_the_walk(
            survey_from(s, state),
            log,
            s,
            (survey_protocol(log, s, state)->Done_0)[k],
        ),
    decreases log.len(),
{
    let whole = survey_from(s, state);
    let e = (survey_protocol(log, s, state)->Done_0)[k];
    assert(state.root < s.roots().len());
    let first = |l: Log| stage_protocol(l, s, state);
    let next = |t: PlanState, l: Log| survey_protocol(l, s, t);
    assert forall|l: Log| #[trigger] whole(l) == first(l).bind(next) by {
        lemma_stage_uses(l, s, state);
    }
    lemma_stage_uses(log, s, state);
    let after = first(log)->Done_0;
    let mid = first(log)->Done_1;
    if after.root != state.root {
        lemma_walk_over(log, s, state);
    }
    if k < after.entries.len() {
        lemma_prefix(mid, s, after, k);
        assert(state.open);
        let visit = visit_protocol(log, s, state.seen)->Done_0;
        assert(visit == VisitView::Take(e));
        let entry = (log[0]->Walked_0)->0->Ok_0;
        assert(log[0] == Reply::Walked(Some(Ok(entry))));
        let relative = below(entry.path@, s.source)->0;
        lemma_visited(log, s, state.seen, entry, relative);
        assert(log.take(0) =~= Log::empty());
        assert(asked(first, log, 0, RequestView::NextEntry));
        lemma_asked_first(first, next, whole, log, 0, RequestView::NextEntry);
        if e.kind == FileKind::Directory {
            let i = lemma_mode_answered(log, s, state.seen, entry, e);
            let look = RequestView::SymlinkMetadata(entry.path@);
            assert(asked(first, log, i, look));
            lemma_asked_first(first, next, whole, log, i, look);
        }
        assert(met_as(whole, log, s, 0, entry, e));
    } else {
        lemma_all_met(mid, s, after, k);
        lemma_met_as_later(s, state, log, e);
    }
}

proof fn lemma_prefix(log: Log, s: SurveyView, state: PlanState, k: int)
    requires
        0 <= k < state.entries.len(),
    ensures
        survey_protocol(log, s, state) matches Step::Done(entries, _) ==> k < entries.len()
            && entries[k] == state.entries[k],
    decreases log.len(),
{
    if 0 <= state.root < s.roots().len() {
        lemma_stage_uses(log, s, state);
        if let Step::Done(next, rest) = stage_protocol(log, s, state) {
            assert(next.entries[k] == state.entries[k]);
            lemma_prefix(rest, s, next, k);
        }
    }
}

/// Every entry of a plan is one that the walk met, of the kind that it had there, and that
/// belongs neither to another worktree nor to the destination. A directory has the mode
/// that it was looked up with.
pub proof fn law_plans_hold_what_was_met(log: Log, s: SurveyView, k: int)
    requires
        survey_protocol(log, s, PlanState::start()) is Done,
        0 <= k < (survey_protocol(log, s, PlanState::start())->Done_0).len(),
    ensures
        comes_from_the_walk(
            survey_from(s, PlanState::start()),
            log,
            s,
            (survey_protocol(log, s, PlanState::start())->Done_0)[k],
        ),
{
    lemma_all_met(log, s, PlanState::start(), k);
}

/// Whether an answer says that a path leads to an entry of a kind.
pub open spec fn is_of_kind(reply: Reply, kind: FileKind) -> bool {
    reply matches Reply::Metadata(Ok(metadata)) && metadata.kind == kind
}

/// A directory is a repository where it holds `.git`, whatever that is, or else where it
/// holds a file `HEAD` and directories `objects` and `refs`.
pub proof fn law_what_is_a_repository(
    path: Seq<u8>,
    administration: Reply,
    head: Reply,
    objects: Reply,
    refs: Reply,
    rest: Log,
)
    requires
        administration is Metadata,
        head is Metadata,
        objects is Metadata,
        refs is Metadata,
    ensures
        repository_protocol(Log::empty(), path) == Step::<bool>::Ask(
            RequestView::SymlinkMetadata(join_path(path, encode_utf8(".git"@))),
        ),
        administration matches Reply::Metadata(Ok(_)) ==> repository_protocol(
            heard(administration, rest),
            path,
        ) == Step::Done(true, rest),
        administration matches Reply::Metadata(Err(_)) ==> {
            &&& repository_protocol(heard(administration, Log::empty()), path) == Step::<bool>::Ask(
                RequestView::Metadata(join_path(path, encode_utf8("HEAD"@))),
            )
            &&& !is_of_kind(head, FileKind::File) ==> repository_protocol(
                heard(administration, heard(head, rest)),
                path,
            ) == Step::Done(false, rest)
            &&& is_of_kind(head, FileKind::File) ==> repository_protocol(
                heard(administration, heard(head, Log::empty())),
                path,
            ) == Step::<bool>::Ask(RequestView::Metadata(join_path(path, encode_utf8("objects"@))))
            &&& is_of_kind(head, FileKind::File) && !is_of_kind(objects, FileKind::Directory)
                ==> repository_protocol(
                heard(administration, heard(head, heard(objects, rest))),
                path,
            ) == Step::Done(false, rest)
            &&& is_of_kind(head, FileKind::File) && is_of_kind(objects, FileKind::Directory)
                ==> repository_protocol(
                heard(administration, heard(head, heard(objects, heard(refs, rest)))),
                path,
            ) == Step::Done(is_of_kind(refs, FileKind::Directory), rest)
        },
{
    broadcast use lemma_heard;

}

/// Where changes are carried over, a repository inside the source ends the plan: it cannot
/// be carried over, and must not be lost.
pub proof fn law_nested_repositories_end_a_plan_with_changes(
    log: Log,
    s: SurveyView,
    seen: Set<Seq<u8>>,
    entry: WalkEntry,
    relative: Seq<u8>,
)
    requires
        log.len() > 0,
        log[0] == Reply::Walked(Some(Ok(entry))),
        below(entry.path@, s.source) == Some(relative),
        relative.len() > 0,
        valid_utf8(relative),
        entry.kind == FileKind::Directory,
        !s.off_limits(entry.path@, relative),
        repository_protocol(log.drop_first(), entry.path@) matches Step::Done(found, _) && found,
        s.dirty,
    ensures
        visit_protocol(log, s, seen) is Fail,
{
}

/// A failure of the walk ends the plan, unless it is that something is not found that may be
/// gone, and that is looked for again and is gone. Then the walk goes on.
pub proof fn law_failures_of_the_walk_end_a_plan(
    s: SurveyView,
    failure: WalkFailure,
    path: Vec<u8>,
    relative: Seq<u8>,
    kind: ErrorKind,
    looked: Reply,
    rest: Log,
)
    requires
        failure.path == Some(path),
        failure.kind == Some(kind),
        below(path@, s.source) == Some(relative),
        looked is Metadata,
    ensures
        !s.disposable(relative) || kind != ErrorKind::NotFound ==> broken_protocol(
            rest,
            s,
            failure,
        ) is Fail,
        s.disposable(relative) && kind == ErrorKind::NotFound ==> {
            &&& broken_protocol(Log::empty(), s, failure) == Step::<VisitView>::Ask(
                RequestView::SymlinkMetadata(path@),
            )
            &&& if looked matches Reply::Metadata(Err(error)) && error.kind == ErrorKind::NotFound {
                broken_protocol(heard(looked, rest), s, failure) == Step::Done(
                    VisitView::Pass,
                    rest,
                )
            } else {
                broken_protocol(heard(looked, rest), s, failure) is Fail
            }
        },
{
    broadcast use lemma_heard;

}

/// A source that could not be found is gone where it may be and is looked for in vain. What
/// may not be gone, or failed otherwise, is not looked for.
pub proof fn law_what_has_disappeared(
    kind: ErrorKind,
    source: Seq<u8>,
    disposable: bool,
    looked: Reply,
    rest: Log,
)
    requires
        looked is Metadata,
    ensures
        disposable && kind == ErrorKind::NotFound ==> {
            &&& disappeared_protocol(Log::empty(), kind, source, disposable) == Step::<bool>::Ask(
                RequestView::SymlinkMetadata(source),
            )
            &&& disappeared_protocol(heard(looked, rest), kind, source, disposable) == Step::Done(
                looked matches Reply::Metadata(Err(error)) && error.kind == ErrorKind::NotFound,
                rest,
            )
        },
        !disposable || kind != ErrorKind::NotFound ==> disappeared_protocol(
            rest,
            kind,
            source,
            disposable,
        ) == Step::Done(false, rest),
{
    broadcast use lemma_heard;

}

/// What is in a directory that is not carried over is skipped: where the directory belongs to
/// Git, to another worktree or to the destination, where it is left out, and where it turns
/// out to be a repository.
pub proof fn law_what_is_not_carried_over_is_skipped(
    s: SurveyView,
    seen: Set<Seq<u8>>,
    entry: WalkEntry,
    relative: Seq<u8>,
    answers: Log,
    repository: bool,
    skipped: Reply,
    rest: Log,
)
    requires
        below(entry.path@, s.source) == Some(relative),
        relative.len() > 0,
        valid_utf8(relative),
        entry.kind == FileKind::Directory,
        repository_protocol(answers, entry.path@) == Step::Done(repository, Log::empty()),
        skipped is Unit,
    ensures
        ({
            let walked = Reply::Walked(Some(Ok(entry)));
            let barred_by_place = components(relative).contains(encode_utf8(".git"@)) || !spared(
                s,
                entry.path@,
            );
            &&& barred_by_place ==> {
                &&& visit_protocol(heard(walked, Log::empty()), s, seen) == Step::<VisitView>::Ask(
                    RequestView::SkipDirectory,
                )
                &&& visit_protocol(heard(walked, heard(skipped, rest)), s, seen) == Step::Done(
                    VisitView::Pass,
                    rest,
                )
            }
            &&& !barred_by_place && repository && !s.dirty ==> {
                &&& visit_protocol(heard(walked, answers), s, seen) == Step::<VisitView>::Ask(
                    RequestView::SkipDirectory,
                )
                &&& visit_protocol(heard(walked, answers + heard(skipped, rest)), s, seen)
                    == Step::Done(VisitView::Pass, rest)
            }
            &&& !barred_by_place && !repository && !(!s.dirty && listed(s.indexed, relative))
                && s.left_out(relative, true) ==> {
                &&& visit_protocol(heard(walked, answers), s, seen) == Step::<VisitView>::Ask(
                    RequestView::SkipDirectory,
                )
                &&& visit_protocol(heard(walked, answers + heard(skipped, rest)), s, seen)
                    == Step::Done(VisitView::Pass, rest)
            }
        }),
{
    broadcast use lemma_heard;

    let path = entry.path@;
    let more = heard(skipped, rest);
    steady_repository(answers, more, path);
    assert(Log::empty() + more =~= more);
    if !spared(s, path) && !within(path, s.destination) {
        let k = choose|k: int| 0 <= k < s.nested.len() && within(path, #[trigger] s.nested[k]);
        assert(within(path, s.nested[k]));
    }
    assert(s.off_limits(path, relative) == (components(relative).contains(encode_utf8(".git"@))
        || !spared(s, path)));
}

} // verus!
