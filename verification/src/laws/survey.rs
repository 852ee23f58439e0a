//! Planning in a file system that stays as it is.

use vstd::prelude::*;

use vstd::utf8::encode_utf8;

use crate::clone::{disappeared_protocol, EntryView, SurveyView};
use crate::encoding::lossy;
use crate::errors::ErrorView;
use crate::git::path_text;
use crate::laws::resolution::reported;
use crate::laws::still::{
    comes_to, failed, lemma_after_answer, lemma_same_procedure, skipped, tells_metadata, truthful,
    FileSystem, MetView,
};
use crate::paths::{below, join_path, listed, normal};
use crate::planner::{
    broken_protocol, directory_entry_protocol, found_protocol, kind_protocol, leave_protocol,
    lemma_stage_uses, met_protocol, repository_protocol, stage_protocol, survey_protocol,
    visit_protocol, walk_error, wanted_protocol, PlanState, VisitView,
};
use crate::session::{
    fails, metadata_reply, unit_reply, walk_reply, ErrorKind, FileKind, IoError, IoErrorView, Log,
    Metadata, Reply, RequestView, Step, WalkEntry, WalkFailure,
};

verus! {

/// Whether something that could not be found is gone, and may be.
pub open spec fn gone_in(fs: FileSystem, kind: ErrorKind, path: Seq<u8>, disposable: bool) -> bool {
    disposable && kind == ErrorKind::NotFound && ((fs.entry)(path) matches Err(error) && error.kind
        == ErrorKind::NotFound)
}

/// Whether a path leads to an entry of a kind.
pub open spec fn kind_in(fs: FileSystem, path: Seq<u8>, kind: FileKind) -> bool {
    (fs.target)(path) matches Ok(metadata) && metadata.kind == kind
}

/// Whether a directory is a repository.
pub open spec fn repository_in(fs: FileSystem, path: Seq<u8>) -> bool {
    (fs.entry)(join_path(path, encode_utf8(".git"@))) is Ok || (kind_in(
        fs,
        join_path(path, encode_utf8("HEAD"@)),
        FileKind::File,
    ) && kind_in(fs, join_path(path, encode_utf8("objects"@)), FileKind::Directory) && kind_in(
        fs,
        join_path(path, encode_utf8("refs"@)),
        FileKind::Directory,
    ))
}

/// What comes of an entry, and whether what is in it is skipped.
pub type Passage = Result<(VisitView, bool), ErrorView>;

pub open spec fn broken_in(fs: FileSystem, s: SurveyView, failure: WalkFailure) -> Passage {
    let error = walk_error(failure).wrap("reading source tree"@);
    match (failure.path, failure.kind) {
        (Some(path), Some(kind)) => match below(path@, s.source) {
            Some(relative) => if s.disposable(relative) && gone_in(fs, kind, path@, true) {
                Ok((VisitView::Pass, false))
            } else {
                Err(error)
            },
            None => Err(error),
        },
        _ => Err(error),
    }
}

pub open spec fn directory_in(
    fs: FileSystem,
    s: SurveyView,
    path: Seq<u8>,
    relative: Seq<u8>,
) -> Passage {
    match (fs.entry)(path) {
        Ok(metadata) => if metadata.kind != FileKind::Directory {
            failed("source is no longer a directory: "@ + lossy(path))
        } else {
            Ok(
                (
                    VisitView::Take(
                        EntryView {
                            relative,
                            kind: FileKind::Directory,
                            disposable: s.disposable(relative),
                            directory_permissions: Some(metadata.mode),
                        },
                    ),
                    false,
                ),
            )
        },
        Err(error) => if gone_in(fs, error.kind, path, s.disposable(relative)) {
            Ok((VisitView::Gone(relative), true))
        } else {
            Err(reported(error).wrap("planning source directory permissions"@))
        },
    }
}

pub open spec fn wanted_in(
    fs: FileSystem,
    s: SurveyView,
    seen: Set<Seq<u8>>,
    path: Seq<u8>,
    relative: Seq<u8>,
    kind: FileKind,
) -> Passage {
    let directory = kind == FileKind::Directory;
    if !s.dirty && listed(s.indexed, relative) {
        Ok((VisitView::Pass, false))
    } else if s.left_out(relative, directory) {
        Ok((VisitView::Pass, directory))
    } else if seen.contains(normal(relative)) {
        Ok((VisitView::Pass, false))
    } else if directory {
        directory_in(fs, s, path, relative)
    } else {
        Ok(
            (
                VisitView::Take(
                    EntryView {
                        relative,
                        kind,
                        disposable: s.disposable(relative),
                        directory_permissions: None,
                    },
                ),
                false,
            ),
        )
    }
}

pub open spec fn found_in(
    fs: FileSystem,
    s: SurveyView,
    seen: Set<Seq<u8>>,
    path: Seq<u8>,
    relative: Seq<u8>,
    kind: FileKind,
) -> Passage {
    let directory = kind == FileKind::Directory;
    if s.off_limits(path, relative) {
        Ok((VisitView::Pass, directory))
    } else if directory && repository_in(fs, path) {
        if s.dirty {
            failed("dirty creation cannot copy nested repository "@ + lossy(path))
        } else {
            Ok((VisitView::Pass, true))
        }
    } else {
        wanted_in(fs, s, seen, path, relative, kind)
    }
}

/// What comes of an entry that the walk meets.
pub open spec fn met_in(
    fs: FileSystem,
    s: SurveyView,
    seen: Set<Seq<u8>>,
    path: Seq<u8>,
    kind: FileKind,
) -> Passage {
    match below(path, s.source) {
        None => failed("prefix not found"@),
        Some(relative) => match path_text(relative) {
            Err(error) => Err(error),
            Ok(_) => if relative.len() == 0 {
                Ok((VisitView::Pass, false))
            } else {
                found_in(fs, s, seen, path, relative, kind)
            },
        },
    }
}

/// What comes of the next entry of a walk that has `rest` before it.
pub open spec fn visit_in(
    fs: FileSystem,
    s: SurveyView,
    seen: Set<Seq<u8>>,
    rest: Seq<MetView>,
) -> Passage {
    if rest.len() == 0 {
        Ok((VisitView::End, false))
    } else {
        match rest[0].found {
            Err(failure) => broken_in(fs, s, failure),
            Ok((path, kind)) => met_in(fs, s, seen, path, kind),
        }
    }
}

/// What a walk has before it behind what lies deeper than `depth`.
pub open spec fn beyond(rest: Seq<MetView>, depth: nat) -> Seq<MetView>
    decreases rest.len(),
{
    if rest.len() > 0 && rest[0].depth > depth {
        beyond(rest.drop_first(), depth)
    } else {
        rest
    }
}

/// What a walk has before it after an entry; what is in a directory that is skipped is
/// not met.
pub open spec fn onward(rest: Seq<MetView>, skip: bool) -> Seq<MetView> {
    if rest.len() == 0 {
        rest
    } else if skip {
        beyond(rest.drop_first(), rest[0].depth)
    } else {
        rest.drop_first()
    }
}

pub proof fn lemma_beyond_shorter(rest: Seq<MetView>, depth: nat)
    ensures
        beyond(rest, depth).len() <= rest.len(),
    decreases rest.len(),
{
    if rest.len() > 0 && rest[0].depth > depth {
        lemma_beyond_shorter(rest.drop_first(), depth);
    }
}

/// What is planned, in the order in which it is met.
pub open spec fn survey_in(
    fs: FileSystem,
    s: SurveyView,
    state: PlanState,
    rest: Seq<MetView>,
) -> Result<Seq<EntryView>, ErrorView>
    decreases
        s.roots().len() - state.root,
        (if state.open {
            0int
        } else {
            1
        }),
        rest.len(),
{
    if !(0 <= state.root < s.roots().len()) {
        Ok(state.entries)
    } else if !state.open {
        survey_in(
            fs,
            s,
            PlanState { open: true, ..state },
            (fs.walk)(join_path(s.source, s.roots()[state.root])),
        )
    } else {
        match visit_in(fs, s, state.seen, rest) {
            Err(error) => Err(error),
            Ok((visit, skip)) => {
                proof {
                    lemma_visit_ends(fs, s, state.seen, rest);
                    if rest.len() > 0 {
                        lemma_beyond_shorter(rest.drop_first(), rest[0].depth);
                    }
                }
                survey_in(fs, s, state.after(visit), onward(rest, skip))
            },
        }
    }
}

/// A walk is over where it has nothing before it, and only there.
pub proof fn lemma_visit_ends(
    fs: FileSystem,
    s: SurveyView,
    seen: Set<Seq<u8>>,
    rest: Seq<MetView>,
)
    ensures
        visit_in(fs, s, seen, rest) matches Ok((visit, _)) ==> (visit is End <==> rest.len() == 0),
{
}

/// What a walk has before it after the step of a plan that is next.
pub open spec fn ahead(
    fs: FileSystem,
    log: Log,
    s: SurveyView,
    state: PlanState,
    rest: Seq<MetView>,
) -> Seq<MetView> {
    if state.open {
        onward(rest, skipped(log, |l: Log| stage_protocol(l, s, state)))
    } else {
        (fs.walk)(join_path(s.source, s.roots()[state.root]))
    }
}

/// Whether every answer in a log tells of the file system what a plan asked when the
/// answers before it were there, where the walk has `rest` before it.
pub open spec fn plan_told(
    fs: FileSystem,
    log: Log,
    s: SurveyView,
    state: PlanState,
    rest: Seq<MetView>,
) -> bool
    decreases log.len(),
{
    if !(0 <= state.root < s.roots().len()) {
        true
    } else {
        proof {
            lemma_stage_uses(log, s, state);
        }
        &&& truthful(fs, rest, log, |l: Log| stage_protocol(l, s, state))
        &&& match stage_protocol(log, s, state) {
            Step::Done(next, left) => plan_told(fs, left, s, next, ahead(fs, log, s, state, rest)),
            _ => true,
        }
    }
}

/// Where a step stands, against what it comes to and whether it skips a directory.
spec fn passes(step: Step<VisitView>, skip: bool, expected: Passage) -> bool {
    match step {
        Step::Ask(_) => true,
        Step::Stray => false,
        Step::Fail(error, _) => expected == Err::<(VisitView, bool), ErrorView>(error),
        Step::Done(visit, _) => expected == Ok::<(VisitView, bool), ErrorView>((visit, skip)),
    }
}

/// What the file system holds where a request looks.
spec fn seen_at(fs: FileSystem, request: RequestView) -> Result<Metadata, IoErrorView> {
    match request {
        RequestView::Metadata(path) => (fs.target)(path),
        RequestView::SymlinkMetadata(path) => (fs.entry)(path),
        _ => arbitrary(),
    }
}

proof fn metadata_answered<T>(
    fs: FileSystem,
    rest: Seq<MetView>,
    log: Log,
    request: RequestView,
    p: spec_fn(Log) -> Step<T>,
    f: spec_fn(Result<Metadata, IoError>, Log) -> Step<T>,
) -> (r: Option<(Result<Metadata, IoError>, Log)>)
    requires
        truthful(fs, rest, log, p),
        request is Metadata || request is SymlinkMetadata,
        forall|l: Log| #[trigger] p(l) == metadata_reply(l, request).bind(f),
    ensures
        match r {
            None => p(log) is Ask,
            Some((outcome, left)) => {
                &&& tells_metadata(outcome, seen_at(fs, request))
                &&& p(log) == f(outcome, left)
                &&& truthful(fs, rest, left, |l: Log| f(outcome, l))
                &&& skipped(log, p) == skipped(left, |l: Log| f(outcome, l))
            },
        },
{
    if log.len() == 0 {
        None
    } else {
        let next = |l: Log| p(seq![log[0]] + l);
        assert forall|l: Log| l.len() > 0 && l[0] == log[0] implies #[trigger] p(l) == next(
            l.drop_first(),
        ) by {
            assert(seq![log[0]] + l.drop_first() =~= l);
        }
        lemma_after_answer(fs, rest, log, p, next, request);
        let left = log.drop_first();
        let outcome = log[0]->Metadata_0;
        let q = |l: Log| f(outcome, l);
        assert forall|l: Log| #[trigger] next(l) == q(l) by {
            assert((seq![log[0]] + l).drop_first() =~= l);
        }
        lemma_same_procedure(fs, rest, left, next, q);
        Some((outcome, left))
    }
}

proof fn unit_answered<T>(
    fs: FileSystem,
    rest: Seq<MetView>,
    log: Log,
    request: RequestView,
    p: spec_fn(Log) -> Step<T>,
    f: spec_fn(Result<(), IoError>, Log) -> Step<T>,
) -> (r: Option<(Result<(), IoError>, Log)>)
    requires
        truthful(fs, rest, log, p),
        request is SkipDirectory || request is OpenWalk,
        forall|l: Log| #[trigger] p(l) == unit_reply(l, request).bind(f),
    ensures
        match r {
            None => p(log) is Ask,
            Some((outcome, left)) => {
                &&& p(log) == f(outcome, left)
                &&& truthful(fs, rest, left, |l: Log| f(outcome, l))
                &&& skipped(log, p) <==> request is SkipDirectory || skipped(
                    left,
                    |l: Log| f(outcome, l),
                )
            },
        },
{
    if log.len() == 0 {
        None
    } else {
        let next = |l: Log| p(seq![log[0]] + l);
        assert forall|l: Log| l.len() > 0 && l[0] == log[0] implies #[trigger] p(l) == next(
            l.drop_first(),
        ) by {
            assert(seq![log[0]] + l.drop_first() =~= l);
        }
        lemma_after_answer(fs, rest, log, p, next, request);
        let left = log.drop_first();
        let outcome = log[0]->Unit_0;
        let q = |l: Log| f(outcome, l);
        assert forall|l: Log| #[trigger] next(l) == q(l) by {
            assert((seq![log[0]] + l).drop_first() =~= l);
        }
        lemma_same_procedure(fs, rest, left, next, q);
        Some((outcome, left))
    }
}

proof fn walk_answered<T>(
    fs: FileSystem,
    rest: Seq<MetView>,
    log: Log,
    p: spec_fn(Log) -> Step<T>,
    f: spec_fn(Option<Result<WalkEntry, WalkFailure>>, Log) -> Step<T>,
) -> (r: Option<(Option<Result<WalkEntry, WalkFailure>>, Log)>)
    requires
        truthful(fs, rest, log, p),
        forall|l: Log| #[trigger] p(l) == walk_reply(l).bind(f),
    ensures
        match r {
            None => p(log) is Ask,
            Some((met, left)) => {
                &&& crate::laws::still::tells(fs, rest, RequestView::NextEntry, Reply::Walked(met))
                &&& p(log) == f(met, left)
                &&& truthful(fs, rest, left, |l: Log| f(met, l))
                &&& skipped(log, p) == skipped(left, |l: Log| f(met, l))
            },
        },
{
    if log.len() == 0 {
        None
    } else {
        let next = |l: Log| p(seq![log[0]] + l);
        assert forall|l: Log| l.len() > 0 && l[0] == log[0] implies #[trigger] p(l) == next(
            l.drop_first(),
        ) by {
            assert(seq![log[0]] + l.drop_first() =~= l);
        }
        lemma_after_answer(fs, rest, log, p, next, RequestView::NextEntry);
        let left = log.drop_first();
        let met = log[0]->Walked_0;
        let q = |l: Log| f(met, l);
        assert forall|l: Log| #[trigger] next(l) == q(l) by {
            assert((seq![log[0]] + l).drop_first() =~= l);
        }
        lemma_same_procedure(fs, rest, left, next, q);
        Some((met, left))
    }
}

proof fn gone_answered<T>(
    fs: FileSystem,
    rest: Seq<MetView>,
    log: Log,
    kind: ErrorKind,
    path: Seq<u8>,
    disposable: bool,
    p: spec_fn(Log) -> Step<T>,
    f: spec_fn(bool, Log) -> Step<T>,
) -> (r: Option<Log>)
    requires
        truthful(fs, rest, log, p),
        forall|l: Log| #[trigger] p(l) == disappeared_protocol(l, kind, path, disposable).bind(f),
    ensures
        match r {
            None => p(log) is Ask,
            Some(left) => {
                let gone = gone_in(fs, kind, path, disposable);
                &&& p(log) == f(gone, left)
                &&& truthful(fs, rest, left, |l: Log| f(gone, l))
                &&& skipped(log, p) == skipped(left, |l: Log| f(gone, l))
            },
        },
{
    let gone = gone_in(fs, kind, path, disposable);
    let q = |l: Log| f(gone, l);
    if disposable && kind == ErrorKind::NotFound {
        let missing = |outcome: Result<Metadata, IoError>|
            outcome matches Err(error) && error.kind == ErrorKind::NotFound;
        let g = |outcome: Result<Metadata, IoError>, l: Log| f(missing(outcome), l);
        assert forall|l: Log| #[trigger] p(l) == metadata_reply(
            l,
            RequestView::SymlinkMetadata(path),
        ).bind(g) by {}
        match metadata_answered(fs, rest, log, RequestView::SymlinkMetadata(path), p, g) {
            None => None,
            Some((outcome, left)) => {
                assert(missing(outcome) == gone);
                lemma_same_procedure(fs, rest, left, |l: Log| g(outcome, l), q);
                Some(left)
            },
        }
    } else {
        lemma_same_procedure(fs, rest, log, p, q);
        Some(log)
    }
}

proof fn kind_answered<T>(
    fs: FileSystem,
    rest: Seq<MetView>,
    log: Log,
    path: Seq<u8>,
    kind: FileKind,
    p: spec_fn(Log) -> Step<T>,
    f: spec_fn(bool, Log) -> Step<T>,
) -> (r: Option<Log>)
    requires
        truthful(fs, rest, log, p),
        forall|l: Log| #[trigger] p(l) == kind_protocol(l, path, kind).bind(f),
    ensures
        match r {
            None => p(log) is Ask,
            Some(left) => {
                let held = kind_in(fs, path, kind);
                &&& p(log) == f(held, left)
                &&& truthful(fs, rest, left, |l: Log| f(held, l))
                &&& skipped(log, p) == skipped(left, |l: Log| f(held, l))
            },
        },
{
    let held = kind_in(fs, path, kind);
    let q = |l: Log| f(held, l);
    let fits = |outcome: Result<Metadata, IoError>|
        outcome matches Ok(metadata) && metadata.kind == kind;
    let g = |outcome: Result<Metadata, IoError>, l: Log| f(fits(outcome), l);
    assert forall|l: Log| #[trigger] p(l) == metadata_reply(l, RequestView::Metadata(path)).bind(
        g,
    ) by {}
    match metadata_answered(fs, rest, log, RequestView::Metadata(path), p, g) {
        None => None,
        Some((outcome, left)) => {
            assert(fits(outcome) == held);
            lemma_same_procedure(fs, rest, left, |l: Log| g(outcome, l), q);
            Some(left)
        },
    }
}

proof fn repository_answered<T>(
    fs: FileSystem,
    rest: Seq<MetView>,
    log: Log,
    path: Seq<u8>,
    p: spec_fn(Log) -> Step<T>,
    f: spec_fn(bool, Log) -> Step<T>,
) -> (r: Option<Log>)
    requires
        truthful(fs, rest, log, p),
        forall|l: Log| #[trigger] p(l) == repository_protocol(l, path).bind(f),
    ensures
        match r {
            None => p(log) is Ask,
            Some(left) => {
                let held = repository_in(fs, path);
                &&& p(log) == f(held, left)
                &&& truthful(fs, rest, left, |l: Log| f(held, l))
                &&& skipped(log, p) == skipped(left, |l: Log| f(held, l))
            },
        },
{
    let held = repository_in(fs, path);
    let q = |l: Log| f(held, l);
    let git = RequestView::SymlinkMetadata(join_path(path, encode_utf8(".git"@)));
    let head = join_path(path, encode_utf8("HEAD"@));
    let objects = join_path(path, encode_utf8("objects"@));
    let refs = join_path(path, encode_utf8("refs"@));
    let at_refs = |l: Log| kind_protocol(l, refs, FileKind::Directory).bind(f);
    let after_objects = |found: bool, l: Log|
        if found {
            at_refs(l)
        } else {
            f(false, l)
        };
    let at_objects = |l: Log| kind_protocol(l, objects, FileKind::Directory).bind(after_objects);
    let after_head = |found: bool, l: Log|
        if found {
            at_objects(l)
        } else {
            f(false, l)
        };
    let at_head = |l: Log| kind_protocol(l, head, FileKind::File).bind(after_head);
    let after_git = |outcome: Result<Metadata, IoError>, l: Log|
        if outcome is Ok {
            f(true, l)
        } else {
            at_head(l)
        };
    assert forall|l: Log| #[trigger] p(l) == metadata_reply(l, git).bind(after_git) by {}
    match metadata_answered(fs, rest, log, git, p, after_git) {
        None => None,
        Some((outcome, left)) => {
            let tail = |l: Log| after_git(outcome, l);
            if outcome is Ok {
                lemma_same_procedure(fs, rest, left, tail, q);
                Some(left)
            } else {
                lemma_same_procedure(fs, rest, left, tail, at_head);
                match kind_answered(fs, rest, left, head, FileKind::File, at_head, after_head) {
                    None => None,
                    Some(left) => {
                        let found = kind_in(fs, head, FileKind::File);
                        let tail = |l: Log| after_head(found, l);
                        if !found {
                            lemma_same_procedure(fs, rest, left, tail, q);
                            Some(left)
                        } else {
                            lemma_same_procedure(fs, rest, left, tail, at_objects);
                            match kind_answered(
                                fs,
                                rest,
                                left,
                                objects,
                                FileKind::Directory,
                                at_objects,
                                after_objects,
                            ) {
                                None => None,
                                Some(left) => {
                                    let found = kind_in(fs, objects, FileKind::Directory);
                                    let tail = |l: Log| after_objects(found, l);
                                    if !found {
                                        lemma_same_procedure(fs, rest, left, tail, q);
                                        Some(left)
                                    } else {
                                        lemma_same_procedure(fs, rest, left, tail, at_refs);
                                        kind_answered(
                                            fs,
                                            rest,
                                            left,
                                            refs,
                                            FileKind::Directory,
                                            at_refs,
                                            f,
                                        )
                                    }
                                },
                            }
                        }
                    },
                }
            }
        },
    }
}

proof fn lemma_leave_told(fs: FileSystem, rest: Seq<MetView>, log: Log, directory: bool)
    requires
        truthful(fs, rest, log, |l: Log| leave_protocol(l, directory)),
    ensures
        passes(
            leave_protocol(log, directory),
            skipped(log, |l: Log| leave_protocol(l, directory)),
            Ok((VisitView::Pass, directory)),
        ),
{
    let p = |l: Log| leave_protocol(l, directory);
    if directory {
        let f = |_done: Result<(), IoError>, l: Log| Step::Done(VisitView::Pass, l);
        assert forall|l: Log| #[trigger] p(l) == unit_reply(l, RequestView::SkipDirectory).bind(
            f,
        ) by {}
        let r = unit_answered(fs, rest, log, RequestView::SkipDirectory, p, f);
    } else {
        assert(!skipped(log, p));
    }
}

proof fn lemma_broken_told(
    fs: FileSystem,
    rest: Seq<MetView>,
    log: Log,
    s: SurveyView,
    failure: WalkFailure,
)
    requires
        truthful(fs, rest, log, |l: Log| broken_protocol(l, s, failure)),
    ensures
        passes(
            broken_protocol(log, s, failure),
            skipped(log, |l: Log| broken_protocol(l, s, failure)),
            broken_in(fs, s, failure),
        ),
{
    let p = |l: Log| broken_protocol(l, s, failure);
    let error = walk_error(failure).wrap("reading source tree"@);
    let f = |gone: bool, l: Log|
        if gone {
            Step::Done(VisitView::Pass, l)
        } else {
            Step::Fail(error, l)
        };
    if let (Some(path), Some(kind)) = (failure.path, failure.kind) {
        if let Some(relative) = below(path@, s.source) {
            if s.disposable(relative) {
                assert forall|l: Log| #[trigger] p(l) == disappeared_protocol(
                    l,
                    kind,
                    path@,
                    true,
                ).bind(f) by {}
                let r = gone_answered(fs, rest, log, kind, path@, true, p, f);
                if let Some(left) = r {
                    assert(!skipped(left, |l: Log| f(gone_in(fs, kind, path@, true), l)));
                }
            }
        }
    }
}

proof fn lemma_directory_told(
    fs: FileSystem,
    rest: Seq<MetView>,
    log: Log,
    s: SurveyView,
    path: Seq<u8>,
    relative: Seq<u8>,
)
    requires
        truthful(fs, rest, log, |l: Log| directory_entry_protocol(l, s, path, relative)),
    ensures
        passes(
            directory_entry_protocol(log, s, path, relative),
            skipped(log, |l: Log| directory_entry_protocol(l, s, path, relative)),
            directory_in(fs, s, path, relative),
        ),
{
    let p = |l: Log| directory_entry_protocol(l, s, path, relative);
    let request = RequestView::SymlinkMetadata(path);
    let at_skip = |l: Log|
        unit_reply(l, RequestView::SkipDirectory).bind(
            |_done: Result<(), IoError>, l: Log| Step::Done(VisitView::Gone(relative), l),
        );
    let failing = |error: IoError, l: Log| -> Step<VisitView>
        {
            Step::Fail(
                crate::errors::system(error).wrap("planning source directory permissions"@),
                l,
            )
        };
    let after_gone = |error: IoError, gone: bool, l: Log|
        if gone {
            at_skip(l)
        } else {
            failing(error, l)
        };
    let at_error = |error: IoError, l: Log|
        disappeared_protocol(l, error.kind, path, s.disposable(relative)).bind(
            |gone: bool, l: Log| after_gone(error, gone, l),
        );
    let at_entry = |metadata: Metadata, l: Log|
        if metadata.kind != FileKind::Directory {
            fails("source is no longer a directory: "@ + lossy(path), l)
        } else {
            Step::Done(
                VisitView::Take(
                    EntryView {
                        relative,
                        kind: FileKind::Directory,
                        disposable: s.disposable(relative),
                        directory_permissions: Some(metadata.mode),
                    },
                ),
                l,
            )
        };
    let f = |outcome: Result<Metadata, IoError>, l: Log|
        match outcome {
            Ok(metadata) => at_entry(metadata, l),
            Err(error) => at_error(error, l),
        };
    assert forall|l: Log| #[trigger] p(l) == metadata_reply(l, request).bind(f) by {}
    if let Some((outcome, left)) = metadata_answered(fs, rest, log, request, p, f) {
        let tail = |l: Log| f(outcome, l);
        match outcome {
            Ok(metadata) => {
                assert(!skipped(left, tail));
            },
            Err(error) => {
                let g = |gone: bool, l: Log| after_gone(error, gone, l);
                assert forall|l: Log| #[trigger] tail(l) == disappeared_protocol(
                    l,
                    error.kind,
                    path,
                    s.disposable(relative),
                ).bind(g) by {}
                if let Some(left) = gone_answered(
                    fs,
                    rest,
                    left,
                    error.kind,
                    path,
                    s.disposable(relative),
                    tail,
                    g,
                ) {
                    let gone = gone_in(fs, error.kind, path, s.disposable(relative));
                    let last = |l: Log| g(gone, l);
                    if gone {
                        let h = |_done: Result<(), IoError>, l: Log|
                            Step::Done(VisitView::Gone(relative), l);
                        assert forall|l: Log| #[trigger] last(l) == unit_reply(
                            l,
                            RequestView::SkipDirectory,
                        ).bind(h) by {}
                        let r = unit_answered(
                            fs,
                            rest,
                            left,
                            RequestView::SkipDirectory,
                            last,
                            h,
                        );
                    }
                }
            },
        }
    }
}

proof fn lemma_wanted_told(
    fs: FileSystem,
    rest: Seq<MetView>,
    log: Log,
    s: SurveyView,
    seen: Set<Seq<u8>>,
    path: Seq<u8>,
    relative: Seq<u8>,
    kind: FileKind,
)
    requires
        truthful(fs, rest, log, |l: Log| wanted_protocol(l, s, seen, path, relative, kind)),
    ensures
        passes(
            wanted_protocol(log, s, seen, path, relative, kind),
            skipped(log, |l: Log| wanted_protocol(l, s, seen, path, relative, kind)),
            wanted_in(fs, s, seen, path, relative, kind),
        ),
{
    let p = |l: Log| wanted_protocol(l, s, seen, path, relative, kind);
    let directory = kind == FileKind::Directory;
    if !s.dirty && listed(s.indexed, relative) {
        assert(!skipped(log, p));
    } else if s.left_out(relative, directory) {
        let q = |l: Log| leave_protocol(l, directory);
        lemma_same_procedure(fs, rest, log, p, q);
        lemma_leave_told(fs, rest, log, directory);
    } else if seen.contains(normal(relative)) {
        assert(!skipped(log, p));
    } else if directory {
        let q = |l: Log| directory_entry_protocol(l, s, path, relative);
        lemma_same_procedure(fs, rest, log, p, q);
        lemma_directory_told(fs, rest, log, s, path, relative);
    } else {
        assert(!skipped(log, p));
    }
}

proof fn lemma_found_told(
    fs: FileSystem,
    rest: Seq<MetView>,
    log: Log,
    s: SurveyView,
    seen: Set<Seq<u8>>,
    path: Seq<u8>,
    relative: Seq<u8>,
    kind: FileKind,
)
    requires
        truthful(fs, rest, log, |l: Log| found_protocol(l, s, seen, path, relative, kind)),
    ensures
        passes(
            found_protocol(log, s, seen, path, relative, kind),
            skipped(log, |l: Log| found_protocol(l, s, seen, path, relative, kind)),
            found_in(fs, s, seen, path, relative, kind),
        ),
{
    let p = |l: Log| found_protocol(l, s, seen, path, relative, kind);
    let directory = kind == FileKind::Directory;
    let leaves = |l: Log| leave_protocol(l, directory);
    let wants = |l: Log| wanted_protocol(l, s, seen, path, relative, kind);
    if s.off_limits(path, relative) {
        lemma_same_procedure(fs, rest, log, p, leaves);
        lemma_leave_told(fs, rest, log, directory);
    } else if directory {
        let message = "dirty creation cannot copy nested repository "@ + lossy(path);
        let f = |repository: bool, l: Log|
            if !repository {
                wants(l)
            } else if s.dirty {
                fails(message, l)
            } else {
                leaves(l)
            };
        assert forall|l: Log| #[trigger] p(l) == repository_protocol(l, path).bind(f) by {}
        if let Some(left) = repository_answered(fs, rest, log, path, p, f) {
            let held = repository_in(fs, path);
            let tail = |l: Log| f(held, l);
            if !held {
                lemma_same_procedure(fs, rest, left, tail, wants);
                lemma_wanted_told(fs, rest, left, s, seen, path, relative, kind);
            } else if !s.dirty {
                lemma_same_procedure(fs, rest, left, tail, leaves);
                lemma_leave_told(fs, rest, left, directory);
            }
        }
    } else {
        lemma_same_procedure(fs, rest, log, p, wants);
        lemma_wanted_told(fs, rest, log, s, seen, path, relative, kind);
    }
}

proof fn lemma_met_told(
    fs: FileSystem,
    rest: Seq<MetView>,
    log: Log,
    s: SurveyView,
    seen: Set<Seq<u8>>,
    entry: WalkEntry,
)
    requires
        truthful(fs, rest, log, |l: Log| met_protocol(l, s, seen, entry)),
    ensures
        passes(
            met_protocol(log, s, seen, entry),
            skipped(log, |l: Log| met_protocol(l, s, seen, entry)),
            met_in(fs, s, seen, entry.path@, entry.kind),
        ),
{
    let p = |l: Log| met_protocol(l, s, seen, entry);
    match below(entry.path@, s.source) {
        None => {
            assert(!skipped(log, p));
        },
        Some(relative) => {
            if path_text(relative) is Ok && relative.len() > 0 {
                let q = |l: Log|
                    found_protocol(l, s, seen, entry.path@, relative, entry.kind);
                lemma_same_procedure(fs, rest, log, p, q);
                lemma_found_told(fs, rest, log, s, seen, entry.path@, relative, entry.kind);
            } else {
                assert(!skipped(log, p));
            }
        },
    }
}

proof fn lemma_visit_told(
    fs: FileSystem,
    rest: Seq<MetView>,
    log: Log,
    s: SurveyView,
    seen: Set<Seq<u8>>,
)
    requires
        truthful(fs, rest, log, |l: Log| visit_protocol(l, s, seen)),
    ensures
        passes(
            visit_protocol(log, s, seen),
            skipped(log, |l: Log| visit_protocol(l, s, seen)),
            visit_in(fs, s, seen, rest),
        ),
{
    let p = |l: Log| visit_protocol(l, s, seen);
    let f = |met: Option<Result<WalkEntry, WalkFailure>>, l: Log|
        match met {
            None => Step::Done(VisitView::End, l),
            Some(Err(failure)) => broken_protocol(l, s, failure),
            Some(Ok(entry)) => met_protocol(l, s, seen, entry),
        };
    assert forall|l: Log| #[trigger] p(l) == walk_reply(l).bind(f) by {}
    if let Some((met, left)) = walk_answered(fs, rest, log, p, f) {
        let tail = |l: Log| f(met, l);
        match met {
            None => {
                assert(!skipped(left, tail));
            },
            Some(Err(failure)) => {
                let q = |l: Log| broken_protocol(l, s, failure);
                lemma_same_procedure(fs, rest, left, tail, q);
                lemma_broken_told(fs, rest, left, s, failure);
            },
            Some(Ok(entry)) => {
                let q = |l: Log| met_protocol(l, s, seen, entry);
                lemma_same_procedure(fs, rest, left, tail, q);
                lemma_met_told(fs, rest, left, s, seen, entry);
            },
        }
    }
}

/// The step of a plan whose walk has begun stands as the visit it makes.
proof fn lemma_stage_told(
    fs: FileSystem,
    rest: Seq<MetView>,
    log: Log,
    s: SurveyView,
    state: PlanState,
)
    requires
        state.open,
        truthful(fs, rest, log, |l: Log| stage_protocol(l, s, state)),
    ensures
        match stage_protocol(log, s, state) {
            Step::Ask(_) => true,
            Step::Stray => false,
            Step::Fail(error, _) => visit_in(fs, s, state.seen, rest) == Err::<
                (VisitView, bool),
                ErrorView,
            >(error),
            Step::Done(next, _) => visit_in(fs, s, state.seen, rest) matches Ok((visit, skip))
                && next == state.after(visit) && skip == skipped(
                log,
                |l: Log| stage_protocol(l, s, state),
            ),
        },
{
    let p = |l: Log| stage_protocol(l, s, state);
    let q = |l: Log| visit_protocol(l, s, state.seen);
    assert forall|k: int| 0 <= k < log.len() implies crate::laws::still::told(
        fs,
        rest,
        q(#[trigger] log.take(k)),
        log[k],
    ) by {
        assert(crate::laws::still::told(fs, rest, p(log.take(k)), log[k]));
    }
    lemma_visit_told(fs, rest, log, s, state.seen);
    assert(skipped(log, p) == skipped(log, q)) by {
        if skipped(log, p) {
            let k = choose|k: int|
                0 <= k < log.len() && p(#[trigger] log.take(k)) == Step::<PlanState>::Ask(
                    RequestView::SkipDirectory,
                );
            assert(q(log.take(k)) == Step::<VisitView>::Ask(RequestView::SkipDirectory));
        }
        if skipped(log, q) {
            let k = choose|k: int|
                0 <= k < log.len() && q(#[trigger] log.take(k)) == Step::<VisitView>::Ask(
                    RequestView::SkipDirectory,
                );
            assert(p(log.take(k)) == Step::<PlanState>::Ask(RequestView::SkipDirectory));
        }
    }
}

/// Told of a file system, a plan comes to one result.
pub proof fn lemma_survey_told(
    fs: FileSystem,
    log: Log,
    s: SurveyView,
    state: PlanState,
    rest: Seq<MetView>,
)
    requires
        plan_told(fs, log, s, state, rest),
    ensures
        comes_to(survey_protocol(log, s, state), survey_in(fs, s, state, rest)),
    decreases log.len(),
{
    if 0 <= state.root < s.roots().len() {
        lemma_stage_uses(log, s, state);
        if state.open {
            lemma_stage_told(fs, rest, log, s, state);
            if rest.len() > 0 {
                lemma_beyond_shorter(rest.drop_first(), rest[0].depth);
            }
        } else {
            let p = |l: Log| stage_protocol(l, s, state);
            let request = RequestView::OpenWalk(join_path(s.source, s.roots()[state.root]));
            let f = |_done: Result<(), IoError>, l: Log|
                Step::Done(PlanState { open: true, ..state }, l);
            assert forall|l: Log| #[trigger] p(l) == unit_reply(l, request).bind(f) by {}
            let r = unit_answered(fs, rest, log, request, p, f);
        }
        if let Step::Done(next, left) = stage_protocol(log, s, state) {
            lemma_survey_told(fs, left, s, next, ahead(fs, log, s, state, rest));
        }
    }
}

} // verus!
