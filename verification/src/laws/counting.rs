//! What is counted while everything is carried over, and in which order things are done.

use vstd::prelude::*;

use crate::clone::EntryView;
use crate::laws::carrying::lemma_link_is_thrifty;
use crate::laws::events::{asked, lemma_asked_either, lemma_result, succeeded, thrifty, used};
use crate::laws::modes::{lemma_alias_creates_nothing, work_from};
use crate::laws::working::{
    eats_place_leaf, eats_place_link, lemma_directories_are_thrifty, lemma_task_is_thrifty, way_of,
};
use crate::native::{link_protocol, source_root_protocol, SourceRootView};
use crate::paths::{ancestors_of, below, join_path};
use crate::populator::{
    complete, create_link_protocol, directories_protocol, place_file_protocol, place_leaf_protocol,
    place_link_protocol, place_protocol, task_protocol, work_protocol, Deed, JobView, WorkState,
};
use crate::session::{
    metadata_reply, path_reply, unit_reply, FileKind, Log, Metadata, Reply, RequestView, Step,
};

verus! {

/// Whether a request puts something into the destination.
pub open spec fn puts(request: RequestView) -> bool {
    request is CreateDirectory || request is Clone || request is Link
}

proof fn lemma_directories_ask(
    log: Log,
    current: Seq<u8>,
    words: Seq<Seq<u8>>,
    created: Seq<Seq<u8>>,
)
    ensures
        directories_protocol(log, current, words, created) matches Step::Ask(request)
            ==> request is SymlinkMetadata || request is CreateDirectory,
    decreases words.len(),
{
    if words.len() > 0 {
        let next = join_path(current, words[0]);
        if let Step::Done(_, l) = metadata_reply(log, RequestView::SymlinkMetadata(next)) {
            lemma_directories_ask(l, next, words.drop_first(), created);
            if let Step::Done(_, l) = unit_reply(l, RequestView::CreateDirectory(next)) {
                lemma_directories_ask(l, next, words.drop_first(), created.push(next));
            }
        }
    }
}

proof fn lemma_leaf_sets_no_mode(
    log: Log,
    root: SourceRootView,
    source: Seq<u8>,
    destination: Seq<u8>,
    entry: EntryView,
)
    ensures
        place_leaf_protocol(log, root, source, destination, entry) matches Step::Ask(request)
            ==> !(request is SetPermissions),
{
    let from = join_path(source, entry.relative);
    let to = join_path(destination, entry.relative);
    if let Step::Done(_, l) = metadata_reply(log, RequestView::SymlinkMetadata(to)) {
        if let Step::Done(Ok(link), l) = path_reply(l, RequestView::ReadLink(from)) {
            lemma_alias_creates_nothing(l, ancestors_of(link@), root.canonical);
            assert(link_protocol(l, link@, root, destination) matches Step::Ask(request)
                ==> request is Canonicalize);
        }
        assert(place_link_protocol(
            l,
            root,
            from,
            to,
            destination,
            entry.disposable,
        ) matches Step::Ask(request) ==> !(request is SetPermissions));
    }
}

proof fn lemma_placing_sets_no_mode(
    log: Log,
    root: SourceRootView,
    source: Seq<u8>,
    destination: Seq<u8>,
    entry: EntryView,
)
    ensures
        place_protocol(log, root, source, destination, entry) matches Step::Ask(request)
            ==> !(request is SetPermissions),
{
    let words = way_of(entry);
    let none = Seq::<Seq<u8>>::empty();
    lemma_directories_ask(log, destination, words, none);
    if let Step::Done(_, l) = directories_protocol(log, destination, words, none) {
        lemma_leaf_sets_no_mode(l, root, source, destination, entry);
    }
}

/// Whether everything that was planned is in place.
pub open spec fn all_placed(job: JobView, state: WorkState) -> bool {
    state.root is Some && state.placed >= job.entries.len()
}

proof fn lemma_then_only_modes(log: Log, job: JobView, state: WorkState)
    requires
        all_placed(job, state),
    ensures
        work_protocol(log, job, state) matches Step::Ask(request) ==> !puts(request),
    decreases state.directories.len() - state.restored,
{
    if !complete(job, state) {
        if let Step::Done(after, rest) = task_protocol(log, job, state) {
            lemma_then_only_modes(rest, job, after);
        }
    }
}

#[verifier::rlimit(40)]
proof fn lemma_phases(
    log: Log,
    job: JobView,
    state: WorkState,
    i: int,
    j: int,
    a: RequestView,
    b: RequestView,
)
    requires
        work_protocol(log, job, state) is Done,
        asked(work_from(job, state), log, i, a),
        a is SetPermissions,
        asked(work_from(job, state), log, j, b),
        puts(b),
    ensures
        j < i,
    decreases
        (if state.root is None {
            1int
        } else {
            0
        }),
        job.entries.len() - state.placed,
        state.directories.len() - state.restored,
{
    let whole = work_from(job, state);
    if all_placed(job, state) {
        lemma_then_only_modes(log.take(j), job, state);
    } else {
        let first = |l: Log| task_protocol(l, job, state);
        let next = |s: WorkState, l: Log| work_protocol(l, job, s);
        assert forall|l: Log| #[trigger] whole(l) == first(l).bind(next) by {}
        lemma_task_is_thrifty(job, state);
        let after = first(log)->Done_0;
        let mid = first(log)->Done_1;
        let n = used(first(log), log);
        let later = work_from(job, after);
        assert(later =~= (|l: Log| next(first(log)->Done_0, l)));
        lemma_asked_either(first, next, whole, log, i, a);
        lemma_asked_either(first, next, whole, log, j, b);
        if i < n {
            if let Some(root) = state.root {
                lemma_placing_sets_no_mode(
                    log.take(i),
                    root,
                    job.source,
                    job.destination,
                    job.entries[state.placed],
                );
            }
        } else if j >= n {
            lemma_phases(mid, job, after, i - n, j - n, a, b);
        }
    }
}

/// Modes are set only once everything is in place: nothing is put into the destination
/// behind that, so that a directory that must not be written to can be filled.
pub proof fn law_modes_come_last(
    log: Log,
    job: JobView,
    i: int,
    j: int,
    mode: RequestView,
    other: RequestView,
)
    requires
        work_protocol(log, job, WorkState::start()) is Done,
        asked(|l: Log| work_protocol(l, job, WorkState::start()), log, i, mode),
        mode is SetPermissions,
        asked(|l: Log| work_protocol(l, job, WorkState::start()), log, j, other),
        puts(other),
    ensures
        j < i,
{
    let start = WorkState::start();
    assert(work_from(job, start) =~= (|l: Log| work_protocol(l, job, start)));
    lemma_phases(log, job, start, i, j, mode, other);
}

/// Once everything is in place, the directories that were created get their modes from the
/// last one on: first its source is looked at.
pub proof fn law_the_last_directory_gets_its_mode_first(
    job: JobView,
    state: WorkState,
    relative: Seq<u8>,
)
    requires
        all_placed(job, state),
        0 <= state.restored < state.directories.len(),
        below(
            state.directories[state.directories.len() - 1 - state.restored],
            job.destination,
        ) == Some(relative),
    ensures
        work_protocol(Log::empty(), job, state) == Step::<(int, int, int)>::Ask(
            RequestView::SymlinkMetadata(join_path(job.source, relative)),
        ),
{
}

/// Whether a file was cloned at `j`: the answer says so, and the one behind it that it is a
/// file.
pub open spec fn cloned_at<T>(procedure: spec_fn(Log) -> Step<T>, log: Log, j: int) -> bool {
    &&& 0 <= j
    &&& j + 1 < log.len()
    &&& procedure(log.take(j)) matches Step::Ask(request) && request is Clone
    &&& log[j] matches Reply::Cloned(Ok(_))
    &&& log[j + 1] matches Reply::Metadata(Ok(metadata)) && metadata.kind == FileKind::File
}

/// Whether a link was created at `j`.
pub open spec fn linked_at<T>(procedure: spec_fn(Log) -> Step<T>, log: Log, j: int) -> bool {
    &&& 0 <= j < log.len()
    &&& procedure(log.take(j)) matches Step::Ask(request) && request is Link
    &&& succeeded(log[j])
}

/// How many files were cloned by the first `n` answers, how many bytes they have, and how
/// many links were created.
pub open spec fn tally<T>(procedure: spec_fn(Log) -> Step<T>, log: Log, n: int) -> (int, int, int)
    decreases n,
{
    if n <= 0 {
        (0, 0, 0)
    } else {
        let before = tally(procedure, log, n - 1);
        let cloned = cloned_at(procedure, log, n - 1);
        (
            before.0 + if cloned {
                1int
            } else {
                0
            },
            before.1 + if cloned {
                (log[n]->Metadata_0->Ok_0).length as int
            } else {
                0
            },
            before.2 + if linked_at(procedure, log, n - 1) {
                1int
            } else {
                0
            },
        )
    }
}

/// Two counts, one behind the other.
pub open spec fn together(a: (int, int, int), b: (int, int, int)) -> (int, int, int) {
    (a.0 + b.0, a.1 + b.1, a.2 + b.2)
}

/// What is counted of two procedures that are asked alike.
proof fn lemma_tally_same<T, U>(
    p: spec_fn(Log) -> Step<T>,
    q: spec_fn(Log) -> Step<U>,
    log: Log,
    n: int,
)
    requires
        n <= log.len(),
        forall|m: int|
            0 <= m < n ==> match p(#[trigger] log.take(m)) {
                Step::Ask(a) => q(log.take(m)) == Step::<U>::Ask(a),
                _ => !(q(log.take(m)) is Ask),
            },
    ensures
        tally(p, log, n) == tally(q, log, n),
    decreases n,
{
    if n > 0 {
        lemma_tally_same(p, q, log, n - 1);
        let l = log.take(n - 1);
    }
}

/// What is counted of what comes behind.
proof fn lemma_tally_shifted<T, U>(
    p: spec_fn(Log) -> Step<T>,
    q: spec_fn(Log) -> Step<U>,
    log: Log,
    n: int,
    m: int,
)
    requires
        0 <= n <= log.len(),
        0 <= m <= log.len() - n,
        forall|k: int|
            0 <= k < m ==> match q(#[trigger] log.skip(n).take(k)) {
                Step::Ask(a) => p(log.take(n + k)) == Step::<T>::Ask(a),
                _ => !(p(log.take(n + k)) is Ask),
            },
    ensures
        tally(p, log, n + m) == together(tally(p, log, n), tally(q, log.skip(n), m)),
    decreases m,
{
    if m > 0 {
        lemma_tally_shifted(p, q, log, n, m - 1);
        let k = m - 1;
        let mid = log.skip(n);
        let l = mid.take(k);
        assert(mid[k] == log[n + k]);
        if k + 1 < mid.len() {
            assert(mid[k + 1] == log[n + k + 1]);
        }
        assert(cloned_at(p, log, n + k) == cloned_at(q, mid, k));
        assert(linked_at(p, log, n + k) == linked_at(q, mid, k));
        assert(n + m - 1 == n + k);
    }
}

/// What is counted of a procedure that goes on as another.
#[verifier::rlimit(40)]
proof fn lemma_tally_bound<T, U>(
    first: spec_fn(Log) -> Step<T>,
    next: spec_fn(T, Log) -> Step<U>,
    whole: spec_fn(Log) -> Step<U>,
    later: spec_fn(Log) -> Step<U>,
    log: Log,
    m: int,
)
    requires
        thrifty(first),
        forall|l: Log| #[trigger] whole(l) == first(l).bind(next),
        first(log) is Done,
        forall|l: Log| #[trigger] later(l) == next(first(log)->Done_0, l),
        0 <= m <= (first(log)->Done_1).len(),
    ensures
        ({
            let n = used(first(log), log);
            &&& 0 <= n <= log.len()
            &&& first(log)->Done_1 == log.skip(n)
            &&& tally(whole, log, n + m) == together(
                tally(first, log, n),
                tally(later, log.skip(n), m),
            )
        }),
{
    lemma_result(first, log);
    let n = used(first(log), log);
    assert forall|k: int| 0 <= k < n implies match first(#[trigger] log.take(k)) {
        Step::Ask(a) => whole(log.take(k)) == Step::<U>::Ask(a),
        _ => !(whole(log.take(k)) is Ask),
    } by {
        assert(first(log.take(k)) is Ask);
        assert(whole(log.take(k)) == first(log.take(k)).bind(next));
    }
    lemma_tally_same(first, whole, log, n);
    assert forall|k: int| 0 <= k < m implies match later(#[trigger] log.skip(n).take(k)) {
        Step::Ask(a) => whole(log.take(n + k)) == Step::<U>::Ask(a),
        _ => !(whole(log.take(n + k)) is Ask),
    } by {
        assert(first(log.take(n + k)) == Step::Done(
            first(log)->Done_0,
            log.skip(n).take(n + k - n),
        ));
        assert(whole(log.take(n + k)) == first(log.take(n + k)).bind(next));
    }
    lemma_tally_shifted(whole, later, log, n, m);
}

/// What a deed counts for.
spec fn amount(deed: Deed) -> (int, int, int) {
    match deed {
        Deed::Nothing => (0, 0, 0),
        Deed::Linked => (0, 0, 1),
        Deed::Cloned(size) => (1, size as int, 0),
    }
}

/// What is counted of answers that were given to other requests.
proof fn lemma_tally_others<T>(procedure: spec_fn(Log) -> Step<T>, log: Log, n: int)
    requires
        n <= log.len(),
        forall|j: int|
            0 <= j < n ==> (procedure(#[trigger] log.take(j)) matches Step::Ask(request) ==> !(
            request is Clone) && !(request is Link)),
    ensures
        tally(procedure, log, n) == (0int, 0int, 0int),
    decreases n,
{
    if n > 0 {
        lemma_tally_others(procedure, log, n - 1);
        let l = log.take(n - 1);
        assert(!cloned_at(procedure, log, n - 1) && !linked_at(procedure, log, n - 1));
    }
}

spec fn leaf(root: SourceRootView, job: JobView, entry: EntryView) -> spec_fn(Log) -> Step<Deed> {
    |l: Log| place_leaf_protocol(l, root, job.source, job.destination, entry)
}

spec fn filing(from: Seq<u8>, to: Seq<u8>, disposable: bool) -> spec_fn(Log) -> Step<Deed> {
    |l: Log| place_file_protocol(l, from, to, disposable)
}

spec fn linking(
    root: SourceRootView,
    from: Seq<u8>,
    to: Seq<u8>,
    destination: Seq<u8>,
    disposable: bool,
) -> spec_fn(Log) -> Step<Deed> {
    |l: Log| place_link_protocol(l, root, from, to, destination, disposable)
}

#[verifier::rlimit(40)]
proof fn lemma_file_counted(log: Log, from: Seq<u8>, to: Seq<u8>, disposable: bool)
    requires
        place_file_protocol(log, from, to, disposable) is Done,
    ensures
        ({
            let step = place_file_protocol(log, from, to, disposable);
            tally(filing(from, to, disposable), log, used(step, log)) == amount(step->Done_0)
        }),
{
    let p = filing(from, to, disposable);
    let step = place_file_protocol(log, from, to, disposable);
    let n = used(step, log);
    let clone = RequestView::Clone { source: from, destination: to };
    let l1 = log.drop_first();
    assert(log.take(0) =~= Log::empty());
    assert(p(log.take(0)) == Step::<Deed>::Ask(clone));
    assert(log.take(1).drop_first() =~= Log::empty());
    assert(log.take(1)[0] == log[0]);
    reveal_with_fuel(tally, 4);
    if log[0] matches Reply::Cloned(Ok(_)) {
        let look = RequestView::SymlinkMetadata(to);
        assert(p(log.take(1)) == Step::<Deed>::Ask(look));
        assert(l1[0] == log[1]);
        assert(log.take(2).drop_first().drop_first() =~= Log::empty());
        assert(log.take(2)[0] == log[0]);
        assert(log.take(2).drop_first()[0] == log[1]);
        if let Reply::Metadata(Ok(metadata)) = log[1] {
            assert(metadata.kind == FileKind::File);
            assert(n == 2);
            assert(cloned_at(p, log, 0));
            assert(!cloned_at(p, log, 1));
        } else {
            assert(!cloned_at(p, log, 0));
            if n == 3 {
                assert(p(log.take(2)) == Step::<Deed>::Ask(RequestView::SymlinkMetadata(from)));
            }
        }
    } else {
        assert(!cloned_at(p, log, 0));
        if n == 2 {
            assert(p(log.take(1)) == Step::<Deed>::Ask(RequestView::SymlinkMetadata(from)));
        }
    }
}

#[verifier::rlimit(40)]
proof fn lemma_made_link_counted(
    log: Log,
    link: Seq<u8>,
    root: SourceRootView,
    to: Seq<u8>,
    destination: Seq<u8>,
)
    requires
        link_protocol(log, link, root, destination).bind(
            |target: Seq<u8>, l: Log| create_link_protocol(l, target, to),
        ) is Done,
    ensures
        ({
            let p = making_link(link, root, to, destination);
            &&& 0 <= used(p(log), log)
            &&& tally(p, log, used(p(log), log)) == amount(p(log)->Done_0)
        }),
{
    let first = |l: Log| link_protocol(l, link, root, destination);
    let next = |target: Seq<u8>, l: Log| create_link_protocol(l, target, to);
    let whole = making_link(link, root, to, destination);
    assert forall|l: Log| #[trigger] whole(l) == first(l).bind(next) by {}
    lemma_link_is_thrifty(link, root, destination);
    let target = first(log)->Done_0;
    let mid = first(log)->Done_1;
    let later = |l: Log| create_link_protocol(l, target, to);
    lemma_tally_bound(first, next, whole, later, log, 1);
    let k = used(first(log), log);
    assert forall|j: int| 0 <= j < k implies (first(#[trigger] log.take(j)) matches Step::Ask(
        request,
    ) ==> !(request is Clone) && !(request is Link)) by {
        lemma_alias_creates_nothing(log.take(j), ancestors_of(link), root.canonical);
    }
    lemma_tally_others(first, log, k);
    assert(tally(later, mid, 1) == amount(whole(log)->Done_0)) by {
        assert(mid.take(0) =~= Log::empty());
        assert(later(mid.take(0)) == Step::<Deed>::Ask(RequestView::Link { target, path: to }));
        reveal_with_fuel(tally, 2);
        assert(!cloned_at(later, mid, 0));
        assert(linked_at(later, mid, 0) == succeeded(mid[0]));
    }
}

spec fn making_link(
    link: Seq<u8>,
    root: SourceRootView,
    to: Seq<u8>,
    destination: Seq<u8>,
) -> spec_fn(Log) -> Step<Deed> {
    |l: Log|
        link_protocol(l, link, root, destination).bind(
            |target: Seq<u8>, l: Log| create_link_protocol(l, target, to),
        )
}

#[verifier::rlimit(40)]
proof fn lemma_link_counted(
    log: Log,
    root: SourceRootView,
    from: Seq<u8>,
    to: Seq<u8>,
    destination: Seq<u8>,
    disposable: bool,
)
    requires
        place_link_protocol(log, root, from, to, destination, disposable) is Done,
    ensures
        ({
            let step = place_link_protocol(log, root, from, to, destination, disposable);
            tally(
                linking(root, from, to, destination, disposable),
                log,
                used(step, log),
            ) == amount(step->Done_0)
        }),
{
    let p = linking(root, from, to, destination, disposable);
    let step = place_link_protocol(log, root, from, to, destination, disposable);
    let n = used(step, log);
    let tail = log.drop_first();
    assert(log.take(0) =~= Log::empty());
    assert(p(log.take(0)) == Step::<Deed>::Ask(RequestView::ReadLink(from)));
    assert(tail =~= log.skip(1));
    assert(tally(p, log, 1) == (0int, 0int, 0int)) by {
        reveal_with_fuel(tally, 2);
        assert(!cloned_at(p, log, 0) && !linked_at(p, log, 0));
    }
    match log[0]->Path_0 {
        Err(_) => {
            assert(log.take(1).drop_first() =~= Log::empty());
            assert(log.take(1)[0] == log[0]);
            assert(n == 2);
            assert(p(log.take(1)) == Step::<Deed>::Ask(RequestView::SymlinkMetadata(from)));
            reveal_with_fuel(tally, 3);
        },
        Ok(link) => {
            let whole = making_link(link@, root, to, destination);
            assert(step == whole(tail));
            lemma_made_link_counted(tail, link@, root, to, destination);
            let k = used(whole(tail), tail);
            assert(n == 1 + k);
            assert forall|j: int| 0 <= j < k implies match whole(#[trigger] log.skip(1).take(j)) {
                Step::Ask(a) => p(log.take(1 + j)) == Step::<Deed>::Ask(a),
                _ => !(p(log.take(1 + j)) is Ask),
            } by {
                assert(log.take(1 + j)[0] == log[0]);
                assert(log.take(1 + j).drop_first() =~= log.skip(1).take(j));
            }
            lemma_tally_shifted(p, whole, log, 1, k);
        },
    }
}

#[verifier::rlimit(40)]
proof fn lemma_leaf_counted(log: Log, root: SourceRootView, job: JobView, entry: EntryView)
    requires
        place_leaf_protocol(log, root, job.source, job.destination, entry) is Done,
    ensures
        ({
            let step = place_leaf_protocol(log, root, job.source, job.destination, entry);
            tally(leaf(root, job, entry), log, used(step, log)) == amount(step->Done_0)
        }),
{
    let p = leaf(root, job, entry);
    let step = place_leaf_protocol(log, root, job.source, job.destination, entry);
    let n = used(step, log);
    let from = join_path(job.source, entry.relative);
    let to = join_path(job.destination, entry.relative);
    let tail = log.drop_first();
    assert(log.take(0) =~= Log::empty());
    assert(p(log.take(0)) == Step::<Deed>::Ask(RequestView::SymlinkMetadata(to)));
    assert(tail =~= log.skip(1));
    assert(tally(p, log, 1) == (0int, 0int, 0int)) by {
        reveal_with_fuel(tally, 2);
        assert(!cloned_at(p, log, 0));
    }
    if log[0] matches Reply::Metadata(Ok(_)) {
        assert(n == 1);
    } else if entry.kind == FileKind::Symlink {
        let q = linking(root, from, to, job.destination, entry.disposable);
        lemma_link_counted(tail, root, from, to, job.destination, entry.disposable);
        eats_place_link(tail, tail, root, from, to, job.destination, entry.disposable);
        assert forall|j: int| 0 <= j < n - 1 implies match q(#[trigger] log.skip(1).take(j)) {
            Step::Ask(a) => p(log.take(1 + j)) == Step::<Deed>::Ask(a),
            _ => !(p(log.take(1 + j)) is Ask),
        } by {
            assert(log.take(1 + j)[0] == log[0]);
            assert(log.take(1 + j).drop_first() =~= log.skip(1).take(j));
        }
        lemma_tally_shifted(p, q, log, 1, n - 1);
    } else if entry.kind == FileKind::File {
        let q = filing(from, to, entry.disposable);
        lemma_file_counted(tail, from, to, entry.disposable);
        assert forall|j: int| 0 <= j < n - 1 implies match q(#[trigger] log.skip(1).take(j)) {
            Step::Ask(a) => p(log.take(1 + j)) == Step::<Deed>::Ask(a),
            _ => !(p(log.take(1 + j)) is Ask),
        } by {
            assert(log.take(1 + j)[0] == log[0]);
            assert(log.take(1 + j).drop_first() =~= log.skip(1).take(j));
        }
        lemma_tally_shifted(p, q, log, 1, n - 1);
    } else {
        assert(n == 2);
        assert(log.take(1).drop_first() =~= Log::empty());
        assert(log.take(1)[0] == log[0]);
        reveal_with_fuel(tally, 3);
        assert(!cloned_at(p, log, 1) && !linked_at(p, log, 1));
    }
}

proof fn lemma_way_counts_nothing(log: Log, current: Seq<u8>, words: Seq<Seq<u8>>, n: int)
    requires
        n <= log.len(),
    ensures
        tally(
            |l: Log| directories_protocol(l, current, words, Seq::empty()),
            log,
            n,
        ) == (0int, 0int, 0int),
{
    let p = |l: Log| directories_protocol(l, current, words, Seq::empty());
    assert forall|j: int| 0 <= j < n implies (p(#[trigger] log.take(j)) matches Step::Ask(request)
        ==> !(request is Clone) && !(request is Link)) by {
        lemma_directories_ask(log.take(j), current, words, Seq::empty());
    }
    lemma_tally_others(p, log, n);
}

/// What comes behind the way to an entry.
spec fn behind(
    root: SourceRootView,
    job: JobView,
    entry: EntryView,
    made: (bool, Seq<Seq<u8>>),
) -> spec_fn(Log) -> Step<(Seq<Seq<u8>>, Deed)> {
    |l: Log|
        if entry.kind == FileKind::Directory || !made.0 {
            Step::Done((made.1, Deed::Nothing), l)
        } else {
            place_leaf_protocol(l, root, job.source, job.destination, entry).bind(
                |deed: Deed, l: Log| Step::Done((made.1, deed), l),
            )
        }
}

#[verifier::rlimit(40)]
proof fn lemma_behind_counted(
    log: Log,
    root: SourceRootView,
    job: JobView,
    entry: EntryView,
    made: (bool, Seq<Seq<u8>>),
)
    requires
        behind(root, job, entry, made)(log) is Done,
    ensures
        ({
            let p = behind(root, job, entry, made);
            &&& 0 <= used(p(log), log) <= log.len()
            &&& tally(p, log, used(p(log), log)) == amount((p(log)->Done_0).1)
        }),
{
    let p = behind(root, job, entry, made);
    if !(entry.kind == FileKind::Directory || !made.0) {
        lemma_leaf_counted(log, root, job, entry);
        let q = leaf(root, job, entry);
        let m = used(q(log), log);
        eats_place_leaf(log, log, root, job.source, job.destination, entry);
        assert forall|j: int| 0 <= j < m implies match q(#[trigger] log.take(j)) {
            Step::Ask(a) => p(log.take(j)) == Step::<(Seq<Seq<u8>>, Deed)>::Ask(a),
            _ => !(p(log.take(j)) is Ask),
        } by {}
        lemma_tally_same(q, p, log, m);
    }
}

#[verifier::rlimit(40)]
proof fn lemma_placed_counted(log: Log, root: SourceRootView, job: JobView, entry: EntryView)
    requires
        place_protocol(log, root, job.source, job.destination, entry) is Done,
    ensures
        ({
            let step = place_protocol(log, root, job.source, job.destination, entry);
            tally(
                |l: Log| place_protocol(l, root, job.source, job.destination, entry),
                log,
                used(step, log),
            ) == amount((step->Done_0).1)
        }),
{
    let words = way_of(entry);
    let none = Seq::<Seq<u8>>::empty();
    let whole = |l: Log| place_protocol(l, root, job.source, job.destination, entry);
    let first = |l: Log| directories_protocol(l, job.destination, words, none);
    let next = |made: (bool, Seq<Seq<u8>>), l: Log| behind(root, job, entry, made)(l);
    assert forall|l: Log| #[trigger] whole(l) == first(l).bind(next) by {}
    lemma_directories_are_thrifty(job.destination, words, none);
    let made = first(log)->Done_0;
    let mid = first(log)->Done_1;
    let later = behind(root, job, entry, made);
    assert(whole(log) == later(mid));
    lemma_behind_counted(mid, root, job, entry, made);
    let m = used(later(mid), mid);
    lemma_tally_bound(first, next, whole, later, log, m);
    let n = used(first(log), log);
    lemma_way_counts_nothing(log, job.destination, words, n);
    assert(used(whole(log), log) == n + m);
}

/// What a state has counted.
spec fn counted(state: WorkState) -> (int, int, int) {
    (state.files, state.logical_bytes, state.symlinks)
}

proof fn lemma_task_counted(log: Log, job: JobView, state: WorkState)
    requires
        !complete(job, state),
        task_protocol(log, job, state) is Done,
    ensures
        ({
            let step = task_protocol(log, job, state);
            counted(step->Done_0) == together(
                counted(state),
                tally(|l: Log| task_protocol(l, job, state), log, used(step, log)),
            )
        }),
{
    let p = |l: Log| task_protocol(l, job, state);
    let step = task_protocol(log, job, state);
    let n = used(step, log);
    lemma_task_is_thrifty(job, state);
    lemma_result(p, log);
    if state.root is Some && state.placed < job.entries.len() {
        let root = state.root->0;
        let entry = job.entries[state.placed];
        let q = |l: Log| place_protocol(l, root, job.source, job.destination, entry);
        lemma_placed_counted(log, root, job, entry);
        assert forall|j: int| 0 <= j < n implies match q(#[trigger] log.take(j)) {
            Step::Ask(a) => p(log.take(j)) == Step::<WorkState>::Ask(a),
            _ => !(p(log.take(j)) is Ask),
        } by {}
        lemma_tally_same(q, p, log, n);
    } else {
        assert forall|j: int| 0 <= j < n implies (p(#[trigger] log.take(j)) matches Step::Ask(
            request,
        ) ==> !(request is Clone) && !(request is Link)) by {
            if state.root is None {
                assert(source_root_protocol(log.take(j), job.source) matches Step::Ask(request)
                    ==> request is Canonicalize);
            }
        }
        lemma_tally_others(p, log, n);
    }
}

proof fn lemma_task_and_rest(log: Log, job: JobView, state: WorkState, m: int)
    requires
        !complete(job, state),
        task_protocol(log, job, state) is Done,
        0 <= m <= (task_protocol(log, job, state)->Done_1).len(),
    ensures
        ({
            let step = task_protocol(log, job, state);
            let n = used(step, log);
            &&& 0 <= n
            &&& tally(work_from(job, state), log, n + m) == together(
                tally(|l: Log| task_protocol(l, job, state), log, n),
                tally(work_from(job, step->Done_0), step->Done_1, m),
            )
        }),
{
    let whole = work_from(job, state);
    let first = |l: Log| task_protocol(l, job, state);
    let next = |s: WorkState, l: Log| work_protocol(l, job, s);
    assert forall|l: Log| #[trigger] whole(l) == first(l).bind(next) by {}
    lemma_task_is_thrifty(job, state);
    let later = work_from(job, first(log)->Done_0);
    assert forall|l: Log| #[trigger] later(l) == next(first(log)->Done_0, l) by {}
    lemma_tally_bound(first, next, whole, later, log, m);
}

/// Whether what is told is what was counted before, and what happened.
spec fn adds_up(log: Log, job: JobView, state: WorkState) -> bool {
    let step = work_protocol(log, job, state);
    &&& 0 <= used(step, log)
    &&& step->Done_0 == together(
        counted(state),
        tally(work_from(job, state), log, used(step, log)),
    )
}

#[verifier::rlimit(40)]
proof fn lemma_adds_up(log: Log, job: JobView, state: WorkState, after: WorkState, mid: Log)
    requires
        !complete(job, state),
        task_protocol(log, job, state) == Step::Done(after, mid),
        work_protocol(mid, job, after) is Done,
        work_protocol(log, job, state) == work_protocol(mid, job, after),
        adds_up(mid, job, after),
    ensures
        adds_up(log, job, state),
{
    let m = used(work_protocol(mid, job, after), mid);
    lemma_task_counted(log, job, state);
    lemma_task_and_rest(log, job, state, m);
    let n = used(task_protocol(log, job, state), log);
    assert(used(work_protocol(log, job, state), log) == n + m);
}

/// A step of the work brings it nearer to its end.
proof fn lemma_nearer(log: Log, job: JobView, state: WorkState)
    requires
        !complete(job, state),
        task_protocol(log, job, state) is Done,
    ensures
        ({
            let after = task_protocol(log, job, state)->Done_0;
            &&& after.root is Some
            &&& state.root is Some ==> if state.placed < job.entries.len() {
                after.placed == state.placed + 1
            } else {
                after.placed == state.placed && after.directories == state.directories
                    && after.restored == state.restored + 1
            }
        }),
{
}

#[verifier::rlimit(40)]
proof fn lemma_all_counted(log: Log, job: JobView, state: WorkState)
    requires
        work_protocol(log, job, state) is Done,
    ensures
        adds_up(log, job, state),
    decreases
        (if state.root is None {
            1int
        } else {
            0
        }),
        job.entries.len() - state.placed,
        state.directories.len() - state.restored,
{
    if complete(job, state) {
        assert(used(work_protocol(log, job, state), log) == 0);
    } else {
        let step = task_protocol(log, job, state);
        assert(step is Done);
        let after = step->Done_0;
        let mid = step->Done_1;
        lemma_nearer(log, job, state);
        lemma_all_counted(mid, job, after);
        lemma_adds_up(log, job, state, after, mid);
    }
}

/// What is told once everything was carried over is what happened: how many files were
/// cloned, how many bytes these have together, and how many links were created.
pub proof fn law_what_is_counted_happened(log: Log, job: JobView)
    requires
        work_protocol(log, job, WorkState::start()) is Done,
    ensures
        ({
            let step = work_protocol(log, job, WorkState::start());
            step->Done_0 == tally(
                |l: Log| work_protocol(l, job, WorkState::start()),
                log,
                used(step, log),
            )
        }),
{
    let start = WorkState::start();
    assert(work_from(job, start) =~= (|l: Log| work_protocol(l, job, start)));
    lemma_all_counted(log, job, start);
}

} // verus!
