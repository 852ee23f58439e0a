//! What carrying over the environment keeps to.

use vstd::prelude::*;

use crate::clone::EntryView;
use crate::laws::ancestry::lemma_ancestors_absolute;
use crate::laws::effects::{only_reads, reads};
use crate::native::{
    alias_protocol, below_first, clone_file_protocol, link_protocol, retargeted, SourceRootView,
};
use crate::paths::{
    absolute_path, ancestors_of, below, components, join_path, law_below, law_join, law_join_within,
    law_parent, law_within_transitive, lemma_components_well_formed, lemma_spans, parent_of,
    parent_word, plain_word, same_path, spans_of, within,
};
use crate::populator::{
    directories_protocol, directory_of, noted_mode, place_file_protocol, place_leaf_protocol,
    place_link_protocol, place_protocol, restore_protocol, task_protocol, JobView, WorkState,
};
use crate::session::{
    metadata_reply, path_reply, unit_reply, ErrorKind, FileKind, Log, RequestView, Step,
};

verus! {

/// Whether a request creates something, and where.
pub open spec fn created_path(request: RequestView) -> Option<Seq<u8>> {
    match request {
        RequestView::CreateDirectory(path) => Some(path),
        RequestView::Clone { source, destination } => Some(destination),
        RequestView::Link { target, path } => Some(path),
        _ => None,
    }
}

/// Whether a request only looks at something, or creates something inside a
/// directory.
pub open spec fn stays_inside(request: RequestView, destination: Seq<u8>) -> bool {
    reads(request) || (created_path(request) matches Some(path) && within(path, destination))
}

/// An entry of the destination stays as it is: a file or a link is created only
/// where nothing was found under its name.
pub proof fn law_nothing_is_overwritten(
    log: Log,
    root: SourceRootView,
    source: Seq<u8>,
    destination: Seq<u8>,
    entry: EntryView,
)
    ensures
        place_leaf_protocol(log, root, source, destination, entry) matches Step::Ask(request) ==> (
        created_path(request) matches Some(path) ==> {
            &&& path == join_path(destination, entry.relative)
            &&& not_found(log, path)
        }),
{
    let to = join_path(destination, entry.relative);
    let from = join_path(source, entry.relative);
    if let Step::Done(Err(error), rest) = metadata_reply(log, RequestView::SymlinkMetadata(to)) {
        lemma_link_requests(rest, root, from, to, destination, entry.disposable);
        lemma_file_requests(rest, from, to, entry.disposable);
    }
}

proof fn lemma_alias_reads(log: Log, candidates: Seq<Seq<u8>>, canonical: Seq<u8>)
    ensures
        only_reads(alias_protocol(log, candidates, canonical)),
    decreases candidates.len(),
{
    if candidates.len() > 0 {
        if let Step::Done(_, log) = path_reply(
            log,
            RequestView::Canonicalize(candidates.last()),
        ) {
            lemma_alias_reads(log, candidates.drop_last(), canonical);
        }
    }
}

proof fn lemma_link_requests(
    log: Log,
    root: SourceRootView,
    from: Seq<u8>,
    to: Seq<u8>,
    destination: Seq<u8>,
    disposable: bool,
)
    ensures
        place_link_protocol(log, root, from, to, destination, disposable) matches Step::Ask(
            request,
        ) ==> reads(request) || (request matches RequestView::Link { target, path } && path == to),
{
    if let Step::Done(Ok(link), log) = path_reply(log, RequestView::ReadLink(from)) {
        lemma_alias_reads(log, ancestors_of(link@), root.canonical);
    }
}

proof fn lemma_file_requests(log: Log, from: Seq<u8>, to: Seq<u8>, disposable: bool)
    ensures
        place_file_protocol(log, from, to, disposable) matches Step::Ask(request) ==> reads(request)
            || request == (RequestView::Clone { source: from, destination: to }),
{
}

proof fn lemma_words_within(
    log: Log,
    destination: Seq<u8>,
    current: Seq<u8>,
    words: Seq<Seq<u8>>,
    created: Seq<Seq<u8>>,
)
    requires
        within(current, destination),
        forall|k: int| 0 <= k < words.len() ==> plain_word(#[trigger] words[k]),
    ensures
        directories_protocol(log, current, words, created) matches Step::Ask(request)
            ==> stays_inside(request, destination),
    decreases words.len(),
{
    if words.len() > 0 {
        let next = join_path(current, words[0]);
        assert(words[0].contains(words[0][0]));
        assert(!absolute_path(words[0]));
        law_join_within(current, words[0]);
        law_within_transitive(next, current, destination);
        let rest = words.drop_first();
        assert forall|k: int| 0 <= k < rest.len() implies plain_word(#[trigger] rest[k]) by {
            assert(rest[k] == words[k + 1]);
        }
        if let Step::Done(outcome, log) = metadata_reply(log, RequestView::SymlinkMetadata(next)) {
            match outcome {
                Ok(_) => {
                    lemma_words_within(log, destination, next, rest, created);
                },
                Err(_) => {
                    if let Step::Done(_, log) = unit_reply(
                        log,
                        RequestView::CreateDirectory(next),
                    ) {
                        lemma_words_within(log, destination, next, rest, created.push(next));
                    }
                },
            }
        }
    }
}

proof fn lemma_relative_words(p: Seq<u8>)
    requires
        !absolute_path(p),
    ensures
        forall|k: int| 0 <= k < components(p).len() ==> plain_word(#[trigger] components(p)[k]),
{
    lemma_components_well_formed(p);
}

proof fn lemma_directory_relative(p: Seq<u8>)
    requires
        !absolute_path(p),
    ensures
        !absolute_path(directory_of(p)),
{
    if let Some(q) = parent_of(p) {
        law_parent(p);
        lemma_components_well_formed(p);
        lemma_components_well_formed(q);
        if components(q).len() > 0 {
            assert(components(q)[0] == components(p)[0]);
        }
    }
}

/// Carrying an entry over creates something only inside the destination.
pub proof fn law_placing_stays_inside(
    log: Log,
    root: SourceRootView,
    source: Seq<u8>,
    destination: Seq<u8>,
    entry: EntryView,
)
    requires
        !absolute_path(entry.relative),
    ensures
        place_protocol(log, root, source, destination, entry) matches Step::Ask(request)
            ==> stays_inside(request, destination),
{
    let words = if entry.kind == FileKind::Directory {
        components(entry.relative)
    } else {
        components(directory_of(entry.relative))
    };
    lemma_directory_relative(entry.relative);
    lemma_relative_words(entry.relative);
    lemma_relative_words(directory_of(entry.relative));
    assert(components(destination).take(components(destination).len() as int) =~= components(
        destination,
    ));
    lemma_words_within(log, destination, destination, words, Seq::empty());
    if let Step::Done(made, log) = directories_protocol(
        log,
        destination,
        words,
        Seq::empty(),
    ) {
        let to = join_path(destination, entry.relative);
        let from = join_path(source, entry.relative);
        law_join_within(destination, entry.relative);
        if let Step::Done(_, rest) = metadata_reply(log, RequestView::SymlinkMetadata(to)) {
            lemma_link_requests(rest, root, from, to, destination, entry.disposable);
            lemma_file_requests(rest, from, to, entry.disposable);
        }
    }
}

/// Whether an entry was looked for and not found.
pub open spec fn not_found(log: Log, path: Seq<u8>) -> bool {
    metadata_reply(log, RequestView::SymlinkMetadata(path)) matches Step::Done(Err(error), _)
        && error.kind == ErrorKind::NotFound
}

/// A file whose source is missing ends the work, unless it may disappear; and where
/// it may, it is passed by only once its source was looked for and not found.
pub proof fn law_missing_files_are_tolerated_only_where_disposable(
    log: Log,
    from: Seq<u8>,
    to: Seq<u8>,
    disposable: bool,
)
    ensures
        clone_file_protocol(log, from, to) matches Step::Done(Err(error), rest) ==> (error.kind
            != ErrorKind::AlreadyExists ==> {
            &&& !disposable ==> place_file_protocol(log, from, to, disposable) is Fail
            &&& place_file_protocol(log, from, to, disposable) is Done ==> not_found(rest, from)
        }),
{
}

/// The same of a symbolic link.
pub proof fn law_missing_links_are_tolerated_only_where_disposable(
    log: Log,
    root: SourceRootView,
    from: Seq<u8>,
    to: Seq<u8>,
    destination: Seq<u8>,
    disposable: bool,
)
    ensures
        path_reply(log, RequestView::ReadLink(from)) matches Step::Done(Err(error), rest) ==> {
            let step = place_link_protocol(log, root, from, to, destination, disposable);
            &&& !disposable ==> step is Fail
            &&& step is Done ==> not_found(rest, from)
        },
{
}

/// A directory gets the mode that its source has, or, where that source is gone and
/// may be, the mode that was noted of it.
pub proof fn law_modes_come_from_the_source(
    log: Log,
    source: Seq<u8>,
    destination: Seq<u8>,
    entries: Seq<EntryView>,
    directory: Seq<u8>,
)
    ensures
        restore_protocol(log, source, destination, entries, directory) matches Step::Ask(request)
            ==> reads(request) || {
            &&& request matches RequestView::SetPermissions { path, mode }
            &&& path == directory
            &&& below(directory, destination) matches Some(relative)
            &&& metadata_reply(
                log,
                RequestView::SymlinkMetadata(join_path(source, relative)),
            ) matches Step::Done(outcome, _)
            &&& match outcome {
                Ok(metadata) => metadata.kind == FileKind::Directory && mode == metadata.mode,
                Err(error) => error.kind == ErrorKind::NotFound && noted_mode(entries, relative)
                    == Some(mode),
            }
        },
{
}

/// Modes are set only on directories that were created by the work itself.
pub proof fn law_only_new_directories_change_mode(log: Log, job: JobView, state: WorkState)
    requires
        state.root is Some,
        state.placed >= job.entries.len(),
        0 <= state.restored < state.directories.len(),
    ensures
        task_protocol(log, job, state) matches Step::Ask(RequestView::SetPermissions { path, .. })
            ==> state.directories.contains(path),
{
    law_modes_come_from_the_source(
        log,
        job.source,
        job.destination,
        job.entries,
        state.next_directory(),
    );
    assert(state.directories.contains(state.next_directory()));
}

/// What is left below a root is relative.
proof fn lemma_below_relative(p: Seq<u8>, base: Seq<u8>)
    requires
        components(base).len() > 0,
    ensures
        below(p, base) matches Some(relative) ==> !absolute_path(relative),
{
    if let Some(relative) = below(p, base) {
        lemma_spans(p);
        let s = spans_of(p);
        let k = components(base).len() as int;
        if k < s.len() {
            let word = p.subrange(s[k].0, s[k].1);
            assert(s[k].1 <= s.last().1) by {
                if k < s.len() - 1 {
                    assert(s[k].1 <= s[s.len() - 1].0);
                }
            }
            assert(relative[0] == word[0]);
            assert(word.contains(word[0]));
        }
    }
}

proof fn lemma_below_first_relative(link: Seq<u8>, roots: Seq<Seq<u8>>)
    requires
        forall|k: int| 0 <= k < roots.len() ==> components(#[trigger] roots[k]).len() > 0,
    ensures
        below_first(link, roots) matches Some(relative) ==> !absolute_path(relative),
    decreases roots.len(),
{
    if roots.len() > 0 {
        lemma_below_relative(link, roots[0]);
        let rest = roots.drop_first();
        assert forall|k: int| 0 <= k < rest.len() implies components(#[trigger] rest[k]).len()
            > 0 by {
            assert(rest[k] == roots[k + 1]);
        }
        lemma_below_first_relative(link, rest);
    }
}

/// A link that is given a new target leads into the destination.
pub proof fn law_retargeted_links_lead_inside(
    link: Seq<u8>,
    roots: Seq<Seq<u8>>,
    destination: Seq<u8>,
)
    requires
        forall|k: int| 0 <= k < roots.len() ==> components(#[trigger] roots[k]).len() > 0,
    ensures
        retargeted(link, roots, destination) matches Some(target) ==> within(target, destination),
{
    lemma_below_first_relative(link, roots);
    if let Some(relative) = below_first(link, roots) {
        if !absolute_path(relative) {
            law_join_within(destination, relative);
        }
    }
}

proof fn lemma_alias_is_candidate(log: Log, candidates: Seq<Seq<u8>>, canonical: Seq<u8>)
    ensures
        alias_protocol(log, candidates, canonical) matches Step::Done(Some(alias), _) ==> exists|
            k: int,
        |
            0 <= k < candidates.len() && #[trigger] candidates[k] == alias,
    decreases candidates.len(),
{
    if candidates.len() > 0 {
        if let Step::Done(_, rest) = path_reply(
            log,
            RequestView::Canonicalize(candidates.last()),
        ) {
            lemma_alias_is_candidate(rest, candidates.drop_last(), canonical);
            if let Step::Done(Some(alias), _) = alias_protocol(log, candidates, canonical) {
                if alias == candidates.last() {
                    assert(candidates[candidates.len() - 1] == alias);
                } else {
                    let k = choose|k: int|
                        0 <= k < candidates.drop_last().len()
                            && #[trigger] candidates.drop_last()[k] == alias;
                    assert(candidates[k] == alias);
                }
            }
        }
    }
}

/// A link keeps its text, or leads into the destination. One that is relative, or
/// goes up somewhere, always keeps its text.
pub proof fn law_links_stay_or_lead_inside(
    log: Log,
    link: Seq<u8>,
    root: SourceRootView,
    destination: Seq<u8>,
)
    requires
        forall|k: int|
            0 <= k < root.spellings.len() ==> components(#[trigger] root.spellings[k]).len() > 0,
    ensures
        link_protocol(log, link, root, destination) matches Step::Done(target, _) ==> {
            &&& target == link || within(target, destination)
            &&& !absolute_path(link) || components(link).contains(parent_word()) ==> target == link
        },
{
    law_retargeted_links_lead_inside(link, root.spellings, destination);
    if absolute_path(link) {
        let candidates = ancestors_of(link);
        lemma_alias_is_candidate(log, candidates, root.canonical);
        if let Step::Done(Some(alias), _) = alias_protocol(log, candidates, root.canonical) {
            let k = choose|k: int| 0 <= k < candidates.len() && #[trigger] candidates[k] == alias;
            lemma_ancestors_absolute(link, k);
            law_retargeted_links_lead_inside(link, seq![alias], destination);
        }
    }
}

/// A link that was retargeted from one root to another can be retargeted back: that
/// gives the same path again.
pub proof fn law_retargeting_can_be_undone(link: Seq<u8>, source: Seq<u8>, destination: Seq<u8>)
    requires
        absolute_path(source),
        absolute_path(destination),
        !components(source).contains(parent_word()),
        !components(destination).contains(parent_word()),
    ensures
        retargeted(link, seq![source], destination) matches Some(moved) ==> {
            &&& within(moved, destination)
            &&& retargeted(moved, seq![destination], source) matches Some(back) && same_path(
                back,
                link,
            )
        },
{
    reveal_with_fuel(below_first, 2);
    lemma_components_well_formed(source);
    lemma_components_well_formed(destination);
    assert(seq![source][0] == source && seq![destination][0] == destination);
    assert(seq![source].drop_first().len() == 0 && seq![destination].drop_first().len() == 0);
    if let Some(moved) = retargeted(link, seq![source], destination) {
        let relative = below(link, source)->0;
        let (c, s, d) = (components(link), components(source), components(destination));
        law_below(link, source);
        law_join(destination, relative);
        let left = c.skip(s.len() as int);
        assert(components(moved) == d + left);
        assert((d + left).take(d.len() as int) =~= d);
        assert((d + left).skip(d.len() as int) =~= left);
        assert(!components(moved).contains(parent_word())) by {
            if components(moved).contains(parent_word()) {
                let k = choose|k: int|
                    0 <= k < components(moved).len() && components(moved)[k] == parent_word();
                if k < d.len() {
                    assert(d[k] == parent_word());
                } else {
                    assert(c[k - d.len() + s.len()] == parent_word());
                }
            }
        }
        law_below(moved, destination);
        let again = below(moved, destination)->0;
        law_join(source, again);
        assert(s + left =~= c) by {
            assert(c.take(s.len() as int) == s);
        }
    }
}

} // verus!
