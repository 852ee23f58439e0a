//! Every directory that carrying over creates gets the mode of its source.

use vstd::prelude::*;

use crate::clone::EntryView;
use crate::laws::events::{
    asked, lemma_asked_either, lemma_asked_next, lemma_result, succeeded, thrifty, used,
};
use crate::laws::working::{lemma_directories_are_thrifty, lemma_task_is_thrifty, way_of};
use crate::native::{alias_protocol, link_protocol, source_root_protocol, SourceRootView};
use crate::paths::{ancestors_of, below, join_path, same_path};
use crate::populator::{
    complete, directories_protocol, noted_mode, place_leaf_protocol, place_link_protocol,
    place_protocol, restore_protocol, task_protocol, work_protocol, Deed, JobView, WorkState,
};
use crate::session::{
    metadata_reply, path_reply, ErrorKind, FileKind, Log, Metadata, Reply, RequestView, Step,
};

verus! {

/// Whether a mode was noted of a directory that may disappear.
pub open spec fn noted(entries: Seq<EntryView>, relative: Seq<u8>, mode: u32) -> bool {
    exists|k: int|
        0 <= k < entries.len() && (#[trigger] entries[k]).disposable
            && entries[k].directory_permissions == Some(mode) && same_path(
            entries[k].relative,
            relative,
        )
}

/// Whether a directory got its mode: at `h` its source was looked at, and at `i` the mode
/// that it has there was set, or the one that was noted where the source is gone.
pub open spec fn gets_mode<T>(
    procedure: spec_fn(Log) -> Step<T>,
    log: Log,
    job: JobView,
    directory: Seq<u8>,
    h: int,
    i: int,
    mode: u32,
) -> bool {
    &&& below(directory, job.destination) matches Some(relative) && asked(
        procedure,
        log,
        h,
        RequestView::SymlinkMetadata(join_path(job.source, relative)),
    ) && match log[h] {
        Reply::Metadata(Ok(metadata)) => metadata.kind == FileKind::Directory && metadata.mode
            == mode,
        Reply::Metadata(Err(error)) => error.kind == ErrorKind::NotFound && noted(
            job.entries,
            relative,
            mode,
        ),
        _ => false,
    }
    &&& h < i
    &&& asked(procedure, log, i, RequestView::SetPermissions { path: directory, mode })
    &&& succeeded(log[i])
}

/// Whether a directory got its mode after the answer at `j`.
pub open spec fn gets_mode_after<T>(
    procedure: spec_fn(Log) -> Step<T>,
    log: Log,
    job: JobView,
    directory: Seq<u8>,
    j: int,
) -> bool {
    exists|h: int, i: int, mode: u32|
        j < h && #[trigger] gets_mode(procedure, log, job, directory, h, i, mode)
}

proof fn lemma_noted(entries: Seq<EntryView>, relative: Seq<u8>)
    ensures
        noted_mode(entries, relative) matches Some(mode) ==> noted(entries, relative, mode),
    decreases entries.len(),
{
    if let Some(mode) = noted_mode(entries, relative) {
        let last = entries.last();
        if last.disposable && last.directory_permissions is Some && same_path(
            last.relative,
            relative,
        ) {
            assert(entries[entries.len() - 1] == last);
        } else {
            let front = entries.drop_last();
            lemma_noted(front, relative);
            let k = choose|k: int|
                0 <= k < front.len() && (#[trigger] front[k]).disposable
                    && front[k].directory_permissions == Some(mode) && same_path(
                    front[k].relative,
                    relative,
                );
            assert(entries[k] == front[k]);
        }
    }
}

proof fn lemma_restored(log: Log, job: JobView, directory: Seq<u8>) -> (r: (int, u32))
    requires
        restore_protocol(
            log,
            job.source,
            job.destination,
            job.entries,
            directory,
        ) is Done,
    ensures
        gets_mode(
            |l: Log|
                restore_protocol(l, job.source, job.destination, job.entries, directory),
            log,
            job,
            directory,
            0,
            r.0,
            r.1,
        ),
{
    let p = |l: Log|
        restore_protocol(l, job.source, job.destination, job.entries, directory);
    let relative = below(directory, job.destination)->0;
    lemma_noted(job.entries, relative);
    let from = join_path(job.source, relative);
    assert(log.take(0) =~= Log::empty());
    assert(log.len() > 0);
    let tail = log.drop_first();
    assert(log.take(1).drop_first() =~= Log::empty());
    match log[0]->Metadata_0 {
        Ok(metadata) => {
            assert(p(log.take(1)) == Step::<()>::Ask(
                RequestView::SetPermissions { path: directory, mode: metadata.mode },
            ));
            assert(tail[0] == log[1]);
            assert(asked(p, log, 0, RequestView::SymlinkMetadata(from)));
            assert(succeeded(log[1]));
            assert(gets_mode(p, log, job, directory, 0, 1, metadata.mode));
            (1, metadata.mode)
        },
        Err(error) => {
            let mode = noted_mode(job.entries, relative)->0;
            assert(log.take(2).drop_first() =~= seq![log[1]]);
            assert(seq![log[1]].drop_first() =~= Log::empty());
            assert(tail[0] == log[1]);
            assert(tail.drop_first()[0] == log[2]);
            assert(p(log.take(2)) == Step::<()>::Ask(
                RequestView::SetPermissions { path: directory, mode },
            ));
            assert(asked(p, log, 0, RequestView::SymlinkMetadata(from)));
            assert(succeeded(log[2]));
            assert(noted(job.entries, relative, mode));
            assert(gets_mode(p, log, job, directory, 0, 2, mode));
            (2, mode)
        },
    }
}

spec fn making(current: Seq<u8>, words: Seq<Seq<u8>>, made: Seq<Seq<u8>>) -> spec_fn(Log) -> Step<
    (bool, Seq<Seq<u8>>),
> {
    |l: Log| directories_protocol(l, current, words, made)
}

/// Everything that was created is told, with what was there before.
#[verifier::rlimit(40)]
proof fn lemma_created(
    log: Log,
    current: Seq<u8>,
    words: Seq<Seq<u8>>,
    made: Seq<Seq<u8>>,
)
    ensures
        directories_protocol(log, current, words, made) matches Step::Done((_, created), _) ==> {
            &&& forall|x: int| 0 <= x < made.len() ==> created.contains(#[trigger] made[x])
            &&& forall|j: int, d: Seq<u8>| #[trigger]
                asked(making(current, words, made), log, j, RequestView::CreateDirectory(d))
                    && succeeded(log[j]) ==> created.contains(d)
        },
    decreases words.len(),
{
    let p = making(current, words, made);
    if let Step::Done((free, created), rest) = directories_protocol(log, current, words, made) {
        if words.len() == 0 {
            assert forall|x: int| 0 <= x < made.len() implies created.contains(
                #[trigger] made[x],
            ) by {}
        } else {
            let next = join_path(current, words[0]);
            let tail = log.drop_first();
            match log[0]->Metadata_0 {
                Ok(metadata) => {
                    if metadata.kind == FileKind::Directory {
                        lemma_created(tail, next, words.drop_first(), made);
                    }
                    assert forall|j: int, d: Seq<u8>| #[trigger]
                        asked(p, log, j, RequestView::CreateDirectory(d)) && succeeded(
                            log[j],
                        ) implies created.contains(d) by {
                        assert(j > 0);
                        assert(log.take(j).drop_first() =~= tail.take(j - 1));
                        assert(log.take(j)[0] == log[0]);
                        assert(tail[j - 1] == log[j]);
                        assert(asked(
                            making(next, words.drop_first(), made),
                            tail,
                            j - 1,
                            RequestView::CreateDirectory(d),
                        ));
                    }
                    if metadata.kind != FileKind::Directory {
                        assert forall|x: int| 0 <= x < made.len() implies created.contains(
                            #[trigger] made[x],
                        ) by {}
                    }
                },
                Err(error) => {
                    let more = tail.drop_first();
                    let fuller = made.push(next);
                    lemma_created(more, next, words.drop_first(), fuller);
                    assert forall|x: int| 0 <= x < made.len() implies created.contains(
                        #[trigger] made[x],
                    ) by {
                        assert(fuller[x] == made[x]);
                    }
                    assert(fuller[made.len() as int] == next);
                    assert forall|j: int, d: Seq<u8>| #[trigger]
                        asked(p, log, j, RequestView::CreateDirectory(d)) && succeeded(
                            log[j],
                        ) implies created.contains(d) by {
                        assert(j > 0);
                        assert(log.take(j).drop_first() =~= tail.take(j - 1));
                        assert(log.take(j)[0] == log[0]);
                        assert(tail[j - 1] == log[j]);
                        if j == 1 {
                            assert(tail.take(0) =~= Log::empty());
                            assert(d == next);
                        } else {
                            assert(tail.take(j - 1).drop_first() =~= more.take(j - 2));
                            assert(tail.take(j - 1)[0] == tail[0]);
                            assert(more[j - 2] == log[j]);
                            assert(asked(
                                making(next, words.drop_first(), fuller),
                                more,
                                j - 2,
                                RequestView::CreateDirectory(d),
                            ));
                        }
                    }
                },
            }
        }
    }
}

pub proof fn lemma_alias_creates_nothing(log: Log, candidates: Seq<Seq<u8>>, canonical: Seq<u8>)
    ensures
        alias_protocol(log, candidates, canonical) matches Step::Ask(request)
            ==> request is Canonicalize,
    decreases candidates.len(),
{
    if candidates.len() > 0 {
        let request = RequestView::Canonicalize(candidates.last());
        if let Step::Done(_, l) = path_reply(log, request) {
            lemma_alias_creates_nothing(l, candidates.drop_last(), canonical);
        }
    }
}

proof fn lemma_leaf_creates_no_directory(
    log: Log,
    root: SourceRootView,
    source: Seq<u8>,
    destination: Seq<u8>,
    entry: EntryView,
)
    ensures
        place_leaf_protocol(log, root, source, destination, entry) matches Step::Ask(request)
            ==> !(request is CreateDirectory),
{
    let from = join_path(source, entry.relative);
    let to = join_path(destination, entry.relative);
    if let Step::Done(_, l) = metadata_reply(log, RequestView::SymlinkMetadata(to)) {
        if let Step::Done(Ok(link), l) = path_reply(l, RequestView::ReadLink(from)) {
            lemma_alias_creates_nothing(l, ancestors_of(link@), root.canonical);
            assert(link_protocol(l, link@, root, destination) matches Step::Ask(request)
                ==> request is Canonicalize);
        }
        assert(place_link_protocol(
            l,
            root,
            from,
            to,
            destination,
            entry.disposable,
        ) matches Step::Ask(request) ==> !(request is CreateDirectory));
    }
}

/// What is created for an entry is told.
#[verifier::rlimit(40)]
proof fn lemma_placed(
    log: Log,
    root: SourceRootView,
    source: Seq<u8>,
    destination: Seq<u8>,
    entry: EntryView,
    j: int,
    d: Seq<u8>,
)
    requires
        place_protocol(log, root, source, destination, entry) is Done,
        asked(
            |l: Log| place_protocol(l, root, source, destination, entry),
            log,
            j,
            RequestView::CreateDirectory(d),
        ),
        succeeded(log[j]),
    ensures
        (place_protocol(log, root, source, destination, entry)->Done_0).0.contains(d),
{
    let words = way_of(entry);
    let none = Seq::<Seq<u8>>::empty();
    let whole = |l: Log| place_protocol(l, root, source, destination, entry);
    let first = |l: Log| directories_protocol(l, destination, words, none);
    let next = |made: (bool, Seq<Seq<u8>>), l: Log|
        if entry.kind == FileKind::Directory || !made.0 {
            Step::Done((made.1, Deed::Nothing), l)
        } else {
            place_leaf_protocol(l, root, source, destination, entry).bind(
                |deed: Deed, l: Log| Step::Done((made.1, deed), l),
            )
        };
    assert forall|l: Log| #[trigger] whole(l) == first(l).bind(next) by {}
    lemma_directories_are_thrifty(destination, words, none);
    assert(first(log) is Done);
    lemma_asked_either(first, next, whole, log, j, RequestView::CreateDirectory(d));
    lemma_created(log, destination, words, none);
    assert(first =~= making(destination, words, none));
    let n = used(first(log), log);
    if j >= n {
        let mid = first(log)->Done_1;
        lemma_leaf_creates_no_directory(mid.take(j - n), root, source, destination, entry);
    }
}

/// The work, from a state on.
pub open spec fn work_from(job: JobView, state: WorkState) -> spec_fn(Log) -> Step<(int, int, int)> {
    |l: Log| work_protocol(l, job, state)
}

proof fn lemma_later<T, U>(
    first: spec_fn(Log) -> Step<T>,
    next: spec_fn(T, Log) -> Step<U>,
    whole: spec_fn(Log) -> Step<U>,
    log: Log,
    job: JobView,
    directory: Seq<u8>,
    j: int,
)
    requires
        thrifty(first),
        forall|l: Log| #[trigger] whole(l) == first(l).bind(next),
        first(log) is Done,
        gets_mode_after(
            |l: Log| next(first(log)->Done_0, l),
            first(log)->Done_1,
            job,
            directory,
            j - used(first(log), log),
        ),
    ensures
        gets_mode_after(whole, log, job, directory, j),
{
    let n = used(first(log), log);
    let q = |l: Log| next(first(log)->Done_0, l);
    let mid = first(log)->Done_1;
    let (h, i, mode) = choose|h: int, i: int, mode: u32|
        j - n < h && #[trigger] gets_mode(q, mid, job, directory, h, i, mode);
    let relative = below(directory, job.destination)->0;
    lemma_asked_next(
        first,
        next,
        whole,
        log,
        h,
        RequestView::SymlinkMetadata(join_path(job.source, relative)),
    );
    lemma_asked_next(
        first,
        next,
        whole,
        log,
        i,
        RequestView::SetPermissions { path: directory, mode },
    );
    assert(gets_mode(whole, log, job, directory, n + h, n + i, mode));
}

#[verifier::rlimit(40)]
proof fn lemma_modes(log: Log, job: JobView, state: WorkState)
    requires
        work_protocol(log, job, state) is Done,
        0 <= state.restored <= state.directories.len(),
        state.root is None || state.placed < job.entries.len() ==> state.restored == 0,
    ensures
        forall|x: int|
            0 <= x < state.directories.len() - state.restored ==> gets_mode_after(
                work_from(job, state),
                log,
                job,
                #[trigger] state.directories[x],
                -1,
            ),
        forall|j: int, d: Seq<u8>| #[trigger]
            asked(work_from(job, state), log, j, RequestView::CreateDirectory(d)) && succeeded(
                log[j],
            ) ==> gets_mode_after(work_from(job, state), log, job, d, j),
    decreases
        (if state.root is None {
            1int
        } else {
            0
        }),
        job.entries.len() - state.placed,
        state.directories.len() - state.restored,
{
    let whole = work_from(job, state);
    if complete(job, state) {
        assert forall|j: int, d: Seq<u8>| #[trigger]
            asked(whole, log, j, RequestView::CreateDirectory(d)) implies false by {}
    } else {
        let first = |l: Log| task_protocol(l, job, state);
        let next = |s: WorkState, l: Log| work_protocol(l, job, s);
        assert forall|l: Log| #[trigger] whole(l) == first(l).bind(next) by {}
        lemma_task_is_thrifty(job, state);
        assert(first(log) is Done);
        let after = first(log)->Done_0;
        let mid = first(log)->Done_1;
        let n = used(first(log), log);
        lemma_result(first, log);
        lemma_modes(mid, job, after);
        let later = work_from(job, after);
        assert(later =~= (|l: Log| next(first(log)->Done_0, l)));
        assert forall|x: int|
            0 <= x < state.directories.len() - state.restored implies gets_mode_after(
            whole,
            log,
            job,
            #[trigger] state.directories[x],
            -1,
        ) by {
            let d = state.directories[x];
            if state.root is Some && state.placed >= job.entries.len() && x
                == state.directories.len() - 1 - state.restored {
                let (i, mode) = lemma_restored(log, job, d);
                let p = |l: Log|
                    restore_protocol(l, job.source, job.destination, job.entries, d);
                assert forall|k: int, r: RequestView| #[trigger]
                    asked(p, log, k, r) implies asked(whole, log, k, r) by {
                    assert(first(log.take(k)) == Step::<WorkState>::Ask(r));
                }
                assert(gets_mode(whole, log, job, d, 0, i, mode));
            } else {
                assert(after.directories[x] == d);
                assert(gets_mode_after(later, mid, job, after.directories[x], -1));
                let (h, i, mode) = choose|h: int, i: int, mode: u32|
                    -1 < h && #[trigger] gets_mode(later, mid, job, d, h, i, mode);
                assert(-1 - n < h && gets_mode(later, mid, job, d, h, i, mode));
                lemma_later(first, next, whole, log, job, d, -1);
            }
        }
        assert forall|j: int, d: Seq<u8>| #[trigger]
            asked(whole, log, j, RequestView::CreateDirectory(d)) && succeeded(
                log[j],
            ) implies gets_mode_after(whole, log, job, d, j) by {
            lemma_asked_either(first, next, whole, log, j, RequestView::CreateDirectory(d));
            if j < n {
                lemma_task_created(log, job, state, j, d);
                let x = choose|x: int|
                    state.directories.len() <= x < after.directories.len() && after.directories[x]
                        == d;
                assert(gets_mode_after(later, mid, job, after.directories[x], -1));
                let (h, i, mode) = choose|h: int, i: int, mode: u32|
                    -1 < h && #[trigger] gets_mode(later, mid, job, d, h, i, mode);
                assert(j - n < h && gets_mode(later, mid, job, d, h, i, mode));
                lemma_later(first, next, whole, log, job, d, j);
            } else {
                assert(asked(later, mid, j - n, RequestView::CreateDirectory(d)));
                lemma_later(first, next, whole, log, job, d, j);
            }
        }
    }
}

proof fn lemma_task_created(log: Log, job: JobView, state: WorkState, j: int, d: Seq<u8>)
    requires
        !complete(job, state),
        task_protocol(log, job, state) is Done,
        asked(
            |l: Log| task_protocol(l, job, state),
            log,
            j,
            RequestView::CreateDirectory(d),
        ),
        succeeded(log[j]),
    ensures
        state.root is Some,
        state.placed < job.entries.len(),
        exists|x: int|
            state.directories.len() <= x < (task_protocol(
                log,
                job,
                state,
            )->Done_0).directories.len() && (#[trigger] (task_protocol(
                log,
                job,
                state,
            )->Done_0).directories[x]) == d,
{
    match state.root {
        None => {
            assert(source_root_protocol(log.take(j), job.source) is Ask);
            assert(false);
        },
        Some(root) => {
            if state.placed < job.entries.len() {
                let entry = job.entries[state.placed];
                let p = |l: Log|
                    place_protocol(l, root, job.source, job.destination, entry);
                assert(asked(p, log, j, RequestView::CreateDirectory(d)));
                lemma_placed(log, root, job.source, job.destination, entry, j, d);
                let created = (p(log)->Done_0).0;
                let y = choose|y: int| 0 <= y < created.len() && created[y] == d;
                let after = task_protocol(log, job, state)->Done_0;
                assert(after.directories[state.directories.len() + y] == d);
            } else {
                assert(restore_protocol(
                    log.take(j),
                    job.source,
                    job.destination,
                    job.entries,
                    state.next_directory(),
                ) is Ask);
            }
        },
    }
}

/// When everything was carried over, every directory that was created on the way has
/// got its mode: after it was created its source was looked at, and the mode that the
/// source has was set with success, or the mode that was noted of it where it is gone
/// and may be. None of them is left without.
pub proof fn law_every_new_directory_gets_its_mode(log: Log, job: JobView, j: int, d: Seq<u8>)
    requires
        work_protocol(log, job, WorkState::start()) is Done,
        asked(
            |l: Log| work_protocol(l, job, WorkState::start()),
            log,
            j,
            RequestView::CreateDirectory(d),
        ),
        succeeded(log[j]),
    ensures
        gets_mode_after(
            |l: Log| work_protocol(l, job, WorkState::start()),
            log,
            job,
            d,
            j,
        ),
{
    let start = WorkState::start();
    assert(work_from(job, start) =~= (|l: Log| work_protocol(l, job, start)));
    lemma_modes(log, job, start);
}

} // verus!
