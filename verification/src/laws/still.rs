//! A file system that stays as it is, and answers that tell of it.

use vstd::prelude::*;

use crate::errors::{plain, ErrorView};
use crate::session::{
    FileKind, IoError, IoErrorView, Log, Metadata, Reply, RequestView, Step, WalkFailure,
};

verus! {

/// What a walk meets, and how deep below where it began.
pub struct MetView {
    pub depth: nat,
    /// The path of an entry and its kind, or what went wrong.
    pub found: Result<(Seq<u8>, FileKind), WalkFailure>,
}

/// A file system: what is answered to every question about it.
pub struct FileSystem {
    /// What a path resolves to.
    pub resolved: spec_fn(Seq<u8>) -> Result<Seq<u8>, IoErrorView>,
    /// What stands at a path.
    pub entry: spec_fn(Seq<u8>) -> Result<Metadata, IoErrorView>,
    /// What a path leads to, through symbolic links.
    pub target: spec_fn(Seq<u8>) -> Result<Metadata, IoErrorView>,
    /// What a walk from a path meets, a directory before what is in it.
    pub walk: spec_fn(Seq<u8>) -> Seq<MetView>,
}

/// Whether a failure is the one that is expected, or a result is.
pub open spec fn tells_path(
    outcome: Result<Vec<u8>, IoError>,
    expected: Result<Seq<u8>, IoErrorView>,
) -> bool {
    match outcome {
        Ok(path) => expected == Ok::<Seq<u8>, IoErrorView>(path@),
        Err(error) => expected == Err::<Seq<u8>, IoErrorView>(error.deep_view()),
    }
}

pub open spec fn tells_metadata(
    outcome: Result<Metadata, IoError>,
    expected: Result<Metadata, IoErrorView>,
) -> bool {
    match outcome {
        Ok(metadata) => expected == Ok::<Metadata, IoErrorView>(metadata),
        Err(error) => expected == Err::<Metadata, IoErrorView>(error.deep_view()),
    }
}

/// Whether an answer tells of the file system what a request asks, where the walk that
/// was opened last has `rest` before it. Answers to other requests are not looked at.
pub open spec fn tells(fs: FileSystem, rest: Seq<MetView>, request: RequestView, reply: Reply) -> bool {
    match request {
        RequestView::Canonicalize(path) => reply matches Reply::Path(outcome) && tells_path(
            outcome,
            (fs.resolved)(path),
        ),
        RequestView::SymlinkMetadata(path) => reply matches Reply::Metadata(outcome)
            && tells_metadata(outcome, (fs.entry)(path)),
        RequestView::Metadata(path) => reply matches Reply::Metadata(outcome) && tells_metadata(
            outcome,
            (fs.target)(path),
        ),
        RequestView::OpenWalk(_) => reply is Unit,
        RequestView::SkipDirectory => reply is Unit,
        RequestView::NextEntry => reply matches Reply::Walked(met) && match met {
            None => rest.len() == 0,
            Some(Ok(entry)) => rest.len() > 0 && (rest[0].found matches Ok((path, kind))
                && entry.path@ == path && entry.kind == kind),
            Some(Err(failure)) => rest.len() > 0 && (rest[0].found matches Err(expected)
                && failure == expected),
        },
        _ => true,
    }
}

/// Whether an answer tells of the file system what a step asks.
pub open spec fn told<T>(fs: FileSystem, rest: Seq<MetView>, step: Step<T>, reply: Reply) -> bool {
    step matches Step::Ask(request) ==> tells(fs, rest, request, reply)
}

/// Whether every answer in a log tells of the file system what the procedure asked
/// when the answers before it were there.
pub open spec fn truthful<T>(
    fs: FileSystem,
    rest: Seq<MetView>,
    log: Log,
    procedure: spec_fn(Log) -> Step<T>,
) -> bool {
    forall|k: int|
        0 <= k < log.len() ==> told(fs, rest, procedure(#[trigger] log.take(k)), log[k])
}

/// Whether a procedure asked for a directory to be skipped.
pub open spec fn skipped<T>(log: Log, procedure: spec_fn(Log) -> Step<T>) -> bool {
    exists|k: int|
        0 <= k < log.len() && procedure(#[trigger] log.take(k)) == Step::<T>::Ask(
            RequestView::SkipDirectory,
        )
}

/// Once a procedure has its first answer, the rest of the log belongs to what follows.
pub proof fn lemma_after_answer<T>(
    fs: FileSystem,
    rest: Seq<MetView>,
    log: Log,
    procedure: spec_fn(Log) -> Step<T>,
    next: spec_fn(Log) -> Step<T>,
    request: RequestView,
)
    requires
        log.len() > 0,
        truthful(fs, rest, log, procedure),
        procedure(Log::empty()) == Step::<T>::Ask(request),
        forall|l: Log| l.len() > 0 && l[0] == log[0] ==> #[trigger] procedure(l) == next(
            l.drop_first(),
        ),
    ensures
        tells(fs, rest, request, log[0]),
        procedure(log) == next(log.drop_first()),
        truthful(fs, rest, log.drop_first(), next),
        skipped(log, procedure) <==> request is SkipDirectory || skipped(log.drop_first(), next),
{
    let more = log.drop_first();
    assert(log.take(0) =~= Log::empty());
    assert(told(fs, rest, procedure(log.take(0)), log[0]));
    assert forall|k: int| 0 <= k < more.len() implies told(
        fs,
        rest,
        next(#[trigger] more.take(k)),
        more[k],
    ) by {
        assert(log.take(k + 1).drop_first() =~= more.take(k));
        assert(log.take(k + 1)[0] == log[0]);
        assert(told(fs, rest, procedure(log.take(k + 1)), log[k + 1]));
    }
    if skipped(log, procedure) && !(request is SkipDirectory) {
        let k = choose|k: int|
            0 <= k < log.len() && procedure(#[trigger] log.take(k)) == Step::<T>::Ask(
                RequestView::SkipDirectory,
            );
        assert(k > 0);
        assert(log.take(k).drop_first() =~= more.take(k - 1));
        assert(log.take(k)[0] == log[0]);
        assert(next(more.take(k - 1)) == Step::<T>::Ask(RequestView::SkipDirectory));
    }
    if request is SkipDirectory {
        assert(procedure(log.take(0)) == Step::<T>::Ask(RequestView::SkipDirectory));
    }
    if skipped(more, next) {
        let k = choose|k: int|
            0 <= k < more.len() && next(#[trigger] more.take(k)) == Step::<T>::Ask(
                RequestView::SkipDirectory,
            );
        assert(log.take(k + 1).drop_first() =~= more.take(k));
        assert(log.take(k + 1)[0] == log[0]);
        assert(procedure(log.take(k + 1)) == Step::<T>::Ask(RequestView::SkipDirectory));
    }
}

/// Procedures that stand alike on every log are told alike.
pub proof fn lemma_same_procedure<T>(
    fs: FileSystem,
    rest: Seq<MetView>,
    log: Log,
    procedure: spec_fn(Log) -> Step<T>,
    other: spec_fn(Log) -> Step<T>,
)
    requires
        truthful(fs, rest, log, procedure),
        forall|l: Log| #[trigger] procedure(l) == other(l),
    ensures
        truthful(fs, rest, log, other),
        procedure(log) == other(log),
        skipped(log, procedure) == skipped(log, other),
{
    assert forall|k: int| 0 <= k < log.len() implies told(
        fs,
        rest,
        other(#[trigger] log.take(k)),
        log[k],
    ) by {
        assert(told(fs, rest, procedure(log.take(k)), log[k]));
    }
    if skipped(log, procedure) {
        let k = choose|k: int|
            0 <= k < log.len() && procedure(#[trigger] log.take(k)) == Step::<T>::Ask(
                RequestView::SkipDirectory,
            );
        assert(other(log.take(k)) == Step::<T>::Ask(RequestView::SkipDirectory));
    }
    if skipped(log, other) {
        let k = choose|k: int|
            0 <= k < log.len() && other(#[trigger] log.take(k)) == Step::<T>::Ask(
                RequestView::SkipDirectory,
            );
        assert(procedure(log.take(k)) == Step::<T>::Ask(RequestView::SkipDirectory));
    }
}

/// Where a procedure stands, against what it comes to.
pub open spec fn comes_to<T>(step: Step<T>, expected: Result<T, ErrorView>) -> bool {
    match step {
        Step::Ask(_) => true,
        Step::Stray => false,
        Step::Fail(error, _) => expected == Err::<T, ErrorView>(error),
        Step::Done(value, _) => expected == Ok::<T, ErrorView>(value),
    }
}

/// A failure with one message.
pub open spec fn failed<T>(text: Seq<char>) -> Result<T, ErrorView> {
    Err(plain(text))
}

} // verus!
