//! How the work of carrying over uses its answers.

use vstd::prelude::*;

use crate::clone::EntryView;
use crate::laws::events::{goes_on, hungry, lean, thrifty};
use crate::native::{
    alias_protocol, clone_file_protocol, link_protocol, source_root_protocol, spellings_protocol,
    steady_alias, steady_clone_file, steady_link, SourceRootView,
};
use crate::paths::{ancestors_of, components, join_path};
use crate::populator::{
    directories_protocol, directory_of, place_file_protocol, place_leaf_protocol,
    place_link_protocol, place_protocol, restore_protocol, steady_directories, steady_place_file,
    steady_place_link, steady_task, task_protocol, JobView, WorkState,
};
use crate::session::{
    group_steady_replies, metadata_reply, path_reply, unit_reply, FileKind, Log, RequestView, Step,
};

verus! {

proof fn eats_directories(
    log: Log,
    more: Log,
    current: Seq<u8>,
    words: Seq<Seq<u8>>,
    created: Seq<Seq<u8>>,
)
    ensures
        lean(directories_protocol(log, current, words, created), log),
        hungry(
            directories_protocol(log, current, words, created),
            directories_protocol(log + more, current, words, created),
            more,
        ),
    decreases words.len(),
{
    broadcast use group_steady_replies;

    if words.len() > 0 {
        let next = join_path(current, words[0]);
        let look = RequestView::SymlinkMetadata(next);
        let create = RequestView::CreateDirectory(next);
        if log.len() == 0 {
            assert(log + more =~= more);
        }
        if let Step::Done(outcome, l) = metadata_reply(log, look) {
            eats_directories(l, more, next, words.drop_first(), created);
            if l.len() == 0 {
                assert(l + more =~= more);
            }
            if let Step::Done(_, l) = unit_reply(l, create) {
                eats_directories(l, more, next, words.drop_first(), created.push(next));
            }
        }
        if let Step::Done(_, l) = metadata_reply(log + more, look) {
            eats_directories(l, more, next, words.drop_first(), created);
            if let Step::Done(_, l) = unit_reply(l, create) {
                eats_directories(l, more, next, words.drop_first(), created.push(next));
            }
        }
    }
}

/// No answer before `more` is `more`.
pub broadcast proof fn lemma_nothing_before(log: Log, more: Log)
    requires
        log.len() == 0,
    ensures
        #[trigger] (log + more) == more,
{
    assert(log + more =~= more);
}

proof fn eats_alias(log: Log, more: Log, candidates: Seq<Seq<u8>>, canonical: Seq<u8>)
    ensures
        lean(alias_protocol(log, candidates, canonical), log),
        hungry(
            alias_protocol(log, candidates, canonical),
            alias_protocol(log + more, candidates, canonical),
            more,
        ),
    decreases candidates.len(),
{
    broadcast use {group_steady_replies, lemma_nothing_before};

    if candidates.len() > 0 {
        let request = RequestView::Canonicalize(candidates.last());
        if let Step::Done(_, l) = path_reply(log, request) {
            eats_alias(l, more, candidates.drop_last(), canonical);
        }
        if let Step::Done(_, l) = path_reply(log + more, request) {
            eats_alias(l, more, candidates.drop_last(), canonical);
        }
    }
}

pub proof fn eats_link(log: Log, more: Log, link: Seq<u8>, root: SourceRootView, destination: Seq<u8>)
    ensures
        lean(link_protocol(log, link, root, destination), log),
        hungry(
            link_protocol(log, link, root, destination),
            link_protocol(log + more, link, root, destination),
            more,
        ),
{
    eats_alias(log, more, ancestors_of(link), root.canonical);
    steady_alias(log, more, ancestors_of(link), root.canonical);
}

pub proof fn eats_place_link(
    log: Log,
    more: Log,
    root: SourceRootView,
    from: Seq<u8>,
    to: Seq<u8>,
    destination: Seq<u8>,
    disposable: bool,
)
    ensures
        lean(place_link_protocol(log, root, from, to, destination, disposable), log),
        hungry(
            place_link_protocol(log, root, from, to, destination, disposable),
            place_link_protocol(log + more, root, from, to, destination, disposable),
            more,
        ),
{
    broadcast use {group_steady_replies, lemma_nothing_before};

    let request = RequestView::ReadLink(from);
    if let Step::Done(Ok(link), l) = path_reply(log, request) {
        eats_link(l, more, link@, root, destination);
        steady_link(l, more, link@, root, destination);
    }
    if let Step::Done(Ok(link), l) = path_reply(log + more, request) {
        eats_link(l, more, link@, root, destination);
    }
}

proof fn eats_place_file(log: Log, more: Log, from: Seq<u8>, to: Seq<u8>, disposable: bool)
    ensures
        lean(place_file_protocol(log, from, to, disposable), log),
        hungry(
            place_file_protocol(log, from, to, disposable),
            place_file_protocol(log + more, from, to, disposable),
            more,
        ),
{
    broadcast use {group_steady_replies, lemma_nothing_before};

    steady_clone_file(log, more, from, to);
    assert(lean(clone_file_protocol(log, from, to), log));
    assert(hungry(
        clone_file_protocol(log, from, to),
        clone_file_protocol(log + more, from, to),
        more,
    ));
}

pub proof fn eats_place_leaf(
    log: Log,
    more: Log,
    root: SourceRootView,
    source: Seq<u8>,
    destination: Seq<u8>,
    entry: EntryView,
)
    ensures
        lean(place_leaf_protocol(log, root, source, destination, entry), log),
        hungry(
            place_leaf_protocol(log, root, source, destination, entry),
            place_leaf_protocol(log + more, root, source, destination, entry),
            more,
        ),
{
    broadcast use {group_steady_replies, lemma_nothing_before};

    let from = join_path(source, entry.relative);
    let to = join_path(destination, entry.relative);
    let request = RequestView::SymlinkMetadata(to);
    if let Step::Done(_, l) = metadata_reply(log, request) {
        eats_place_link(l, more, root, from, to, destination, entry.disposable);
        eats_place_file(l, more, from, to, entry.disposable);
        steady_place_link(l, more, root, from, to, destination, entry.disposable);
        steady_place_file(l, more, from, to, entry.disposable);
    }
    if let Step::Done(_, l) = metadata_reply(log + more, request) {
        eats_place_link(l, more, root, from, to, destination, entry.disposable);
        eats_place_file(l, more, from, to, entry.disposable);
    }
}

/// The words of the directories that an entry needs.
pub open spec fn way_of(entry: EntryView) -> Seq<Seq<u8>> {
    if entry.kind == FileKind::Directory {
        components(entry.relative)
    } else {
        components(directory_of(entry.relative))
    }
}

pub proof fn eats_place(
    log: Log,
    more: Log,
    root: SourceRootView,
    source: Seq<u8>,
    destination: Seq<u8>,
    entry: EntryView,
)
    ensures
        lean(place_protocol(log, root, source, destination, entry), log),
        hungry(
            place_protocol(log, root, source, destination, entry),
            place_protocol(log + more, root, source, destination, entry),
            more,
        ),
{
    let words = way_of(entry);
    let none = Seq::<Seq<u8>>::empty();
    eats_directories(log, more, destination, words, none);
    eats_directories(log + more, more, destination, words, none);
    steady_directories(log, more, destination, words, none);
    if let Step::Done(_, l) = directories_protocol(log, destination, words, none) {
        eats_place_leaf(l, more, root, source, destination, entry);
    }
    if let Step::Done(_, l) = directories_protocol(log + more, destination, words, none) {
        eats_place_leaf(l, more, root, source, destination, entry);
    }
}

proof fn eats_restore(
    log: Log,
    more: Log,
    source: Seq<u8>,
    destination: Seq<u8>,
    entries: Seq<EntryView>,
    directory: Seq<u8>,
)
    ensures
        lean(restore_protocol(log, source, destination, entries, directory), log),
        hungry(
            restore_protocol(log, source, destination, entries, directory),
            restore_protocol(log + more, source, destination, entries, directory),
            more,
        ),
{
    broadcast use {group_steady_replies, lemma_nothing_before};

}

proof fn eats_source_root(log: Log, more: Log, root: Seq<u8>)
    ensures
        lean(source_root_protocol(log, root), log),
        hungry(source_root_protocol(log, root), source_root_protocol(log + more, root), more),
{
    broadcast use {group_steady_replies, lemma_nothing_before};

    assert(lean(spellings_protocol(log, root), log));
    assert(hungry(spellings_protocol(log, root), spellings_protocol(log + more, root), more));
}

/// Creating directories uses its answers one by one.
pub proof fn lemma_directories_are_thrifty(
    current: Seq<u8>,
    words: Seq<Seq<u8>>,
    created: Seq<Seq<u8>>,
)
    ensures
        thrifty(|l: Log| directories_protocol(l, current, words, created)),
{
    let p = |l: Log| directories_protocol(l, current, words, created);
    assert forall|log: Log, more: Log| #[trigger] goes_on(p, log, more) by {
        steady_directories(log, more, current, words, created);
        eats_directories(log, more, current, words, created);
    }
    assert forall|log: Log| lean(#[trigger] p(log), log) by {
        eats_directories(log, log, current, words, created);
    }
}

/// Every step of the work uses its answers one by one.
pub proof fn lemma_task_is_thrifty(job: JobView, state: WorkState)
    ensures
        thrifty(|l: Log| task_protocol(l, job, state)),
{
    let p = |l: Log| task_protocol(l, job, state);
    assert forall|log: Log, more: Log| #[trigger] goes_on(p, log, more) by {
        steady_task(log, more, job, state);
        eats_task(log, more, job, state);
    }
    assert forall|log: Log| lean(#[trigger] p(log), log) by {
        eats_task(log, log, job, state);
    }
}

proof fn eats_task(log: Log, more: Log, job: JobView, state: WorkState)
    ensures
        lean(task_protocol(log, job, state), log),
        hungry(task_protocol(log, job, state), task_protocol(log + more, job, state), more),
{
    match state.root {
        None => {
            eats_source_root(log, more, job.source);
        },
        Some(root) => {
            let entry = job.entries[state.placed];
            eats_place(log, more, root, job.source, job.destination, entry);
            eats_restore(
                log,
                more,
                job.source,
                job.destination,
                job.entries,
                state.next_directory(),
            );
        },
    }
}

} // verus!
