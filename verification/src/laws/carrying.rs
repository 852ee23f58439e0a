//! Everything that was planned is carried over.

use vstd::prelude::*;

use vstd::utf8::encode_utf8;

use crate::clone::EntryView;
use crate::encoding::lossy;
use crate::laws::ancestry::{lemma_ancestors_absolute, lemma_ancestors_within};
use crate::laws::events::{
    asked, goes_on, lean, lemma_asked_first, lemma_asked_next, succeeded, thrifty, used,
};
use crate::laws::furnishing::{heard, lemma_heard};
use crate::laws::modes::work_from;
use crate::laws::working::{eats_link, lemma_directories_are_thrifty, lemma_task_is_thrifty, way_of};
use crate::native::{
    alias_protocol, below_first, clone_failure, link_protocol, plain_spellings, retargeted,
    root_spellings_protocol, source_root_protocol, steady_link, SourceRootView,
};
use crate::paths::{
    absolute_path, ancestors_of, below, components, join_path, law_below, law_join, law_parent,
    lemma_components_well_formed, parent_word, root_word, same_path, within,
};
use crate::populator::{
    create_link_protocol, directories_protocol, place_leaf_protocol, place_link_protocol,
    place_protocol, special_notice, task_protocol, work_protocol, Deed, JobView, WorkState,
};
use crate::session::{ErrorKind, FileKind, Log, Reply, RequestView, Step};

verus! {

/// Where words lead from a directory.
pub open spec fn descend(current: Seq<u8>, words: Seq<Seq<u8>>) -> Seq<u8>
    decreases words.len(),
{
    if words.len() == 0 {
        current
    } else {
        descend(join_path(current, words[0]), words.drop_first())
    }
}

/// Whether a path lies on the way that words lead from a directory.
pub open spec fn on_the_way(path: Seq<u8>, current: Seq<u8>, words: Seq<Seq<u8>>) -> bool {
    exists|i: int| 0 < i <= words.len() && path == descend(current, #[trigger] words.take(i))
}

/// Whether an answer shows that something else stands where a directory is needed.
pub open spec fn blocks(
    current: Seq<u8>,
    words: Seq<Seq<u8>>,
    request: RequestView,
    reply: Reply,
) -> bool {
    &&& request matches RequestView::SymlinkMetadata(path) && on_the_way(path, current, words)
    &&& reply matches Reply::Metadata(Ok(metadata)) && metadata.kind != FileKind::Directory
}

/// Whether an answer shows that a directory is there.
pub open spec fn shows_directory(directory: Seq<u8>, request: RequestView, reply: Reply) -> bool {
    ||| request == RequestView::SymlinkMetadata(directory) && (reply matches Reply::Metadata(
        Ok(metadata),
    ) && metadata.kind == FileKind::Directory)
    ||| request == RequestView::CreateDirectory(directory) && succeeded(reply)
}

/// Whether an answer shows what became of an entry that is no directory: there was one of
/// that name before, or it was carried over, or it was gone and may be. One that is
/// neither file nor link is reported.
pub open spec fn settles(
    job: JobView,
    entry: EntryView,
    request: RequestView,
    reply: Reply,
) -> bool {
    let from = join_path(job.source, entry.relative);
    let to = join_path(job.destination, entry.relative);
    match request {
        RequestView::SymlinkMetadata(path) => path == to && (reply matches Reply::Metadata(Ok(_))),
        RequestView::Clone { source, destination } => entry.kind == FileKind::File && source == from
            && destination == to && match reply {
            Reply::Cloned(Ok(_)) => true,
            Reply::Cloned(Err(error)) => clone_failure(error).kind == ErrorKind::AlreadyExists || (
            entry.disposable && clone_failure(error).kind == ErrorKind::NotFound),
            _ => false,
        },
        RequestView::ReadLink(path) => entry.kind == FileKind::Symlink && path == from
            && entry.disposable && (reply matches Reply::Path(Err(error)) && error.kind
            == ErrorKind::NotFound),
        RequestView::Link { target: _, path } => entry.kind == FileKind::Symlink && path == to
            && match reply {
            Reply::Unit(Ok(_)) => true,
            Reply::Unit(Err(error)) => error.kind == ErrorKind::AlreadyExists,
            _ => false,
        },
        RequestView::Report(notice) => entry.kind != FileKind::File && entry.kind
            != FileKind::Symlink && notice == encode_utf8(
            "git-wt: skipping special file "@ + lossy(from) + "\n"@,
        ) && succeeded(reply),
        _ => false,
    }
}

/// Whether an answer shows what became of an entry.
pub open spec fn deals_with(
    job: JobView,
    entry: EntryView,
    request: RequestView,
    reply: Reply,
) -> bool {
    ||| blocks(
        job.destination,
        if entry.kind == FileKind::Directory {
            components(entry.relative)
        } else {
            components(entry.relative).drop_last()
        },
        request,
        reply,
    )
    ||| if entry.kind == FileKind::Directory {
        shows_directory(descend(job.destination, components(entry.relative)), request, reply)
    } else {
        settles(job, entry, request, reply)
    }
}

/// Whether a procedure asked for something whose answer shows what became of an entry.
pub open spec fn dealt_with<T>(
    procedure: spec_fn(Log) -> Step<T>,
    log: Log,
    job: JobView,
    entry: EntryView,
) -> bool {
    exists|j: int, request: RequestView| #[trigger]
        asked(procedure, log, j, request) && deals_with(job, entry, request, log[j])
}

spec fn making(current: Seq<u8>, words: Seq<Seq<u8>>, made: Seq<Seq<u8>>) -> spec_fn(Log) -> Step<
    (bool, Seq<Seq<u8>>),
> {
    |l: Log| directories_protocol(l, current, words, made)
}

/// Whether something is in the way is told, and so is where the way ends.
#[verifier::rlimit(40)]
proof fn lemma_way(log: Log, current: Seq<u8>, words: Seq<Seq<u8>>, made: Seq<Seq<u8>>)
    requires
        words.len() > 0,
    ensures
        directories_protocol(log, current, words, made) matches Step::Done((free, _), _)
            ==> exists|j: int, request: RequestView| #[trigger]
            asked(making(current, words, made), log, j, request) && if free {
                shows_directory(descend(current, words), request, log[j])
            } else {
                blocks(current, words, request, log[j])
            },
    decreases words.len(),
{
    let p = making(current, words, made);
    if let Step::Done((free, _), _) = directories_protocol(log, current, words, made) {
        let next = join_path(current, words[0]);
        let rest = words.drop_first();
        let look = RequestView::SymlinkMetadata(next);
        let create = RequestView::CreateDirectory(next);
        let tail = log.drop_first();
        assert(log.take(0) =~= Log::empty());
        assert(asked(p, log, 0, look));
        assert(descend(current, words.take(1)) == next) by {
            reveal_with_fuel(descend, 2);
            assert(words.take(1)[0] == words[0]);
            assert(words.take(1).drop_first().len() == 0);
        }
        assert(on_the_way(next, current, words));
        let (n, later, fuller): (int, Log, Seq<Seq<u8>>) = match log[0]->Metadata_0 {
            Ok(_) => (1, tail, made),
            Err(_) => (2, tail.drop_first(), made.push(next)),
        };
        if log[0]->Metadata_0 matches Ok(metadata) && metadata.kind != FileKind::Directory {
            assert(blocks(current, words, look, log[0]));
        } else {
            if log[0]->Metadata_0 is Err {
                assert(log.take(1).drop_first() =~= Log::empty());
                assert(log.take(1)[0] == log[0]);
                assert(asked(p, log, 1, create));
                assert(succeeded(log[1]));
            }
            if rest.len() == 0 {
                assert(words.take(1) =~= words);
                reveal_with_fuel(directories_protocol, 2);
                assert(free);
                if log[0]->Metadata_0 is Err {
                    assert(shows_directory(next, create, log[1]));
                } else {
                    assert(shows_directory(next, look, log[0]));
                }
            } else {
                lemma_way(later, next, rest, fuller);
                let q = making(next, rest, fuller);
                let (j, request) = choose|j: int, request: RequestView| #[trigger]
                    asked(q, later, j, request) && if free {
                        shows_directory(descend(next, rest), request, later[j])
                    } else {
                        blocks(next, rest, request, later[j])
                    };
                assert(later[j] == log[n + j]);
                assert(log.take(n + j)[0] == log[0]);
                assert(log.take(n + j).drop_first() =~= tail.take(n - 1 + j));
                if n == 2 {
                    assert(tail.take(n - 1 + j)[0] == tail[0]);
                    assert(tail.take(n - 1 + j).drop_first() =~= later.take(j));
                }
                assert(p(log.take(n + j)) == q(later.take(j)));
                assert(asked(p, log, n + j, request));
                if !free {
                    let path = request->SymlinkMetadata_0;
                    let i = choose|i: int|
                        0 < i <= rest.len() && path == descend(next, #[trigger] rest.take(i));
                    assert(words.take(i + 1)[0] == words[0]);
                    assert(words.take(i + 1).drop_first() =~= rest.take(i));
                    assert(path == descend(current, words.take(i + 1)));
                }
            }
        }
    }
}

pub proof fn lemma_link_is_thrifty(link: Seq<u8>, root: SourceRootView, destination: Seq<u8>)
    ensures
        thrifty(|l: Log| link_protocol(l, link, root, destination)),
{
    let p = |l: Log| link_protocol(l, link, root, destination);
    assert forall|log: Log, more: Log| #[trigger] goes_on(p, log, more) by {
        steady_link(log, more, link, root, destination);
        eats_link(log, more, link, root, destination);
    }
    assert forall|log: Log| lean(#[trigger] p(log), log) by {
        eats_link(log, log, link, root, destination);
    }
}

spec fn leaf(root: SourceRootView, job: JobView, entry: EntryView) -> spec_fn(Log) -> Step<Deed> {
    |l: Log| place_leaf_protocol(l, root, job.source, job.destination, entry)
}

#[verifier::rlimit(40)]
proof fn lemma_leaf(log: Log, root: SourceRootView, job: JobView, entry: EntryView) -> (r: (
    int,
    RequestView,
))
    requires
        place_leaf_protocol(log, root, job.source, job.destination, entry) is Done,
    ensures
        asked(leaf(root, job, entry), log, r.0, r.1),
        settles(job, entry, r.1, log[r.0]),
{
    let p = leaf(root, job, entry);
    let from = join_path(job.source, entry.relative);
    let to = join_path(job.destination, entry.relative);
    let look = RequestView::SymlinkMetadata(to);
    let tail = log.drop_first();
    assert(log.take(0) =~= Log::empty());
    assert(asked(p, log, 0, look));
    if log[0] matches Reply::Metadata(Ok(_)) {
        (0, look)
    } else {
        assert(log.take(1).drop_first() =~= Log::empty());
        assert(log.take(1)[0] == log[0]);
        assert(tail.len() > 0);
        assert(tail[0] == log[1]);
        if entry.kind == FileKind::Symlink {
            let read = RequestView::ReadLink(from);
            assert(asked(p, log, 1, read));
            match tail[0]->Path_0 {
                Err(_) => (1, read),
                Ok(link) => {
                    let rest = tail.drop_first();
                    let first = |l: Log| link_protocol(l, link@, root, job.destination);
                    let next = |target: Seq<u8>, l: Log| create_link_protocol(l, target, to);
                    let whole = |l: Log| first(l).bind(next);
                    lemma_link_is_thrifty(link@, root, job.destination);
                    let target = first(rest)->Done_0;
                    let mid = first(rest)->Done_1;
                    let n = used(first(rest), rest);
                    let make = RequestView::Link { target, path: to };
                    assert(mid.take(0) =~= Log::empty());
                    assert(asked(|l: Log| next(first(rest)->Done_0, l), mid, 0, make));
                    lemma_asked_next(first, next, whole, rest, 0, make);
                    assert(log.take(2 + n)[0] == log[0]);
                    assert(log.take(2 + n).drop_first() =~= tail.take(1 + n));
                    assert(tail.take(1 + n)[0] == tail[0]);
                    assert(tail.take(1 + n).drop_first() =~= rest.take(n));
                    assert(p(log.take(2 + n)) == whole(rest.take(n)));
                    assert(log[2 + n] == mid[0]);
                    (2 + n, make)
                },
            }
        } else if entry.kind == FileKind::File {
            let clone = RequestView::Clone { source: from, destination: to };
            assert(asked(p, log, 1, clone));
            (1, clone)
        } else {
            let report = RequestView::Report(special_notice(from));
            assert(asked(p, log, 1, report));
            (1, report)
        }
    }
}

spec fn placing(root: SourceRootView, job: JobView, entry: EntryView) -> spec_fn(Log) -> Step<
    (Seq<Seq<u8>>, Deed),
> {
    |l: Log| place_protocol(l, root, job.source, job.destination, entry)
}

#[verifier::rlimit(40)]
proof fn lemma_dealt_with(log: Log, root: SourceRootView, job: JobView, entry: EntryView)
    requires
        place_protocol(log, root, job.source, job.destination, entry) is Done,
        components(entry.relative).len() > 0,
    ensures
        dealt_with(placing(root, job, entry), log, job, entry),
{
    let words = way_of(entry);
    let none = Seq::<Seq<u8>>::empty();
    let whole = placing(root, job, entry);
    let first = making(job.destination, words, none);
    let next = |made: (bool, Seq<Seq<u8>>), l: Log|
        if entry.kind == FileKind::Directory || !made.0 {
            Step::Done((made.1, Deed::Nothing), l)
        } else {
            place_leaf_protocol(l, root, job.source, job.destination, entry).bind(
                |deed: Deed, l: Log| Step::Done((made.1, deed), l),
            )
        };
    assert forall|l: Log| #[trigger] whole(l) == first(l).bind(next) by {}
    lemma_directories_are_thrifty(job.destination, words, none);
    assert(first =~= (|l: Log| directories_protocol(l, job.destination, words, none)));
    law_parent(entry.relative);
    if entry.kind != FileKind::Directory {
        assert(words =~= components(entry.relative).drop_last() || words.len() == 0);
    }
    let (free, _) = first(log)->Done_0;
    if entry.kind == FileKind::Directory || !free {
        lemma_way(log, job.destination, words, none);
        let (j, request) = choose|j: int, request: RequestView| #[trigger]
            asked(first, log, j, request) && if free {
                shows_directory(descend(job.destination, words), request, log[j])
            } else {
                blocks(job.destination, words, request, log[j])
            };
        lemma_asked_first(first, next, whole, log, j, request);
        assert(deals_with(job, entry, request, log[j]));
    } else {
        let mid = first(log)->Done_1;
        let (j, request) = lemma_leaf(mid, root, job, entry);
        let later = |l: Log| next(first(log)->Done_0, l);
        assert(leaf(root, job, entry)(mid.take(j)) == Step::<Deed>::Ask(request));
        assert(asked(later, mid, j, request));
        lemma_asked_next(first, next, whole, log, j, request);
        assert(deals_with(job, entry, request, log[used(first(log), log) + j]));
    }
}

#[verifier::rlimit(40)]
proof fn lemma_rest_dealt_with(log: Log, job: JobView, state: WorkState, k: int)
    requires
        work_protocol(log, job, state) is Done,
        0 <= state.placed <= k < job.entries.len(),
        components(job.entries[k].relative).len() > 0,
    ensures
        dealt_with(work_from(job, state), log, job, job.entries[k]),
    decreases
        (if state.root is None {
            1int
        } else {
            0
        }),
        job.entries.len() - state.placed,
{
    let whole = work_from(job, state);
    let entry = job.entries[k];
    let first = |l: Log| task_protocol(l, job, state);
    let next = |s: WorkState, l: Log| work_protocol(l, job, s);
    assert forall|l: Log| #[trigger] whole(l) == first(l).bind(next) by {}
    lemma_task_is_thrifty(job, state);
    let after = first(log)->Done_0;
    let mid = first(log)->Done_1;
    if state.root is Some && state.placed == k {
        let root = state.root->0;
        lemma_dealt_with(log, root, job, entry);
        let (j, request) = choose|j: int, request: RequestView| #[trigger]
            asked(placing(root, job, entry), log, j, request) && deals_with(
                job,
                entry,
                request,
                log[j],
            );
        assert(asked(first, log, j, request));
        lemma_asked_first(first, next, whole, log, j, request);
    } else {
        lemma_rest_dealt_with(mid, job, after, k);
        let later = work_from(job, after);
        assert(later =~= (|l: Log| next(first(log)->Done_0, l)));
        let (j, request) = choose|j: int, request: RequestView| #[trigger]
            asked(later, mid, j, request) && deals_with(job, entry, request, mid[j]);
        lemma_asked_next(first, next, whole, log, j, request);
    }
}

/// Where a link below a root leads when the root is another: the rest of it stays.
pub open spec fn leads_to(
    target: Seq<u8>,
    link: Seq<u8>,
    root: Seq<u8>,
    destination: Seq<u8>,
) -> bool {
    &&& within(link, root)
    &&& components(target) == components(destination) + components(link).skip(
        components(root).len() as int,
    )
}

proof fn lemma_moved(link: Seq<u8>, root: Seq<u8>, destination: Seq<u8>)
    requires
        within(link, root),
        components(root).len() > 0,
        destination.len() > 0,
    ensures
        below(link, root) matches Some(relative) && leads_to(
            join_path(destination, relative),
            link,
            root,
            destination,
        ),
{
    law_below(link, root);
    let relative = below(link, root)->0;
    lemma_components_well_formed(link);
    lemma_components_well_formed(relative);
    let c = components(link);
    let n = components(root).len() as int;
    assert(components(relative) == c.skip(n));
    if components(relative).len() > 0 {
        assert(components(relative)[0] == c[n]);
    }
    law_join(destination, relative);
}

proof fn lemma_first_root(link: Seq<u8>, roots: Seq<Seq<u8>>, destination: Seq<u8>, k: int)
    requires
        0 <= k < roots.len(),
        within(link, roots[k]),
        forall|i: int| 0 <= i < roots.len() ==> components(#[trigger] roots[i]).len() > 0,
        destination.len() > 0,
    ensures
        below_first(link, roots) matches Some(relative) && exists|i: int|
            0 <= i < roots.len() && leads_to(
                join_path(destination, relative),
                link,
                #[trigger] roots[i],
                destination,
            ),
    decreases roots.len(),
{
    law_below(link, roots[0]);
    if below(link, roots[0]) is Some {
        lemma_moved(link, roots[0], destination);
    } else {
        let rest = roots.drop_first();
        assert(rest[k - 1] == roots[k]);
        assert forall|i: int| 0 <= i < rest.len() implies components(#[trigger] rest[i]).len()
            > 0 by {
            assert(rest[i] == roots[i + 1]);
        }
        lemma_first_root(link, rest, destination, k - 1);
        let relative = below_first(link, rest)->0;
        let i = choose|i: int|
            0 <= i < rest.len() && leads_to(
                join_path(destination, relative),
                link,
                #[trigger] rest[i],
                destination,
            );
        assert(rest[i] == roots[i + 1]);
    }
}

/// Whether a path leads down all the way.
pub open spec fn goes_straight(link: Seq<u8>) -> bool {
    absolute_path(link) && !components(link).contains(parent_word())
}

/// A link into the source, under a known name of its root, leads in the copy to the same
/// place below the destination. No answer is needed for that.
pub proof fn law_links_into_the_source_lead_into_the_copy(
    log: Log,
    link: Seq<u8>,
    root: SourceRootView,
    destination: Seq<u8>,
    k: int,
)
    requires
        goes_straight(link),
        0 <= k < root.spellings.len(),
        within(link, root.spellings[k]),
        forall|i: int|
            0 <= i < root.spellings.len() ==> components(#[trigger] root.spellings[i]).len() > 0,
        destination.len() > 0,
    ensures
        link_protocol(log, link, root, destination) matches Step::Done(target, left) && left == log
            && exists|i: int|
            0 <= i < root.spellings.len() && leads_to(
                target,
                link,
                #[trigger] root.spellings[i],
                destination,
            ),
{
    lemma_first_root(link, root.spellings, destination, k);
}

/// Whether an answer says that a path leads to a directory.
pub open spec fn resolves_to(reply: Reply, canonical: Seq<u8>) -> bool {
    reply matches Reply::Path(Ok(found)) && components(found@) == components(canonical)
}

proof fn lemma_alias_found(answers: Log, candidates: Seq<Seq<u8>>, canonical: Seq<u8>, k: int)
    requires
        0 <= k <= candidates.len(),
        k <= answers.len(),
        forall|i: int|
            0 <= i < k ==> (#[trigger] answers[i]) is Path && !resolves_to(answers[i], canonical),
        k < candidates.len() ==> k < answers.len() && resolves_to(answers[k], canonical),
    ensures
        alias_protocol(answers, candidates, canonical) == if k < candidates.len() {
            Step::Done(Some(candidates[candidates.len() - 1 - k]), answers.skip(k + 1))
        } else {
            Step::Done(None, answers.skip(k))
        },
    decreases k,
{
    if candidates.len() == 0 {
        assert(answers.skip(0) =~= answers);
    } else if k == 0 {
        assert(answers.drop_first() =~= answers.skip(1));
    } else {
        let rest = answers.drop_first();
        assert(answers[0] is Path && !resolves_to(answers[0], canonical));
        assert forall|i: int| 0 <= i < k - 1 implies (#[trigger] rest[i]) is Path && !resolves_to(
            rest[i],
            canonical,
        ) by {
            assert(rest[i] == answers[i + 1]);
        }
        lemma_alias_found(rest, candidates.drop_last(), canonical, k - 1);
        if k < candidates.len() {
            assert(rest.skip(k) =~= answers.skip(k + 1));
        }
        assert(rest.skip(k - 1) =~= answers.skip(k));
    }
}

/// A link that lies below no known name of the source is looked up from its beginning on.
/// Where some part of it leads to the source, the link leads in the copy to the same place
/// below the destination; where none does, it stays as it is.
pub proof fn law_links_under_other_names_are_looked_up(
    answers: Log,
    link: Seq<u8>,
    root: SourceRootView,
    destination: Seq<u8>,
    k: int,
)
    requires
        goes_straight(link),
        forall|i: int|
            0 <= i < root.spellings.len() ==> !within(link, #[trigger] root.spellings[i]),
        destination.len() > 0,
        0 <= k <= ancestors_of(link).len(),
        k <= answers.len(),
        forall|i: int|
            0 <= i < k ==> (#[trigger] answers[i]) is Path && !resolves_to(
                answers[i],
                root.canonical,
            ),
        k < ancestors_of(link).len() ==> k < answers.len() && resolves_to(
            answers[k],
            root.canonical,
        ),
    ensures
        k == ancestors_of(link).len() ==> link_protocol(answers, link, root, destination)
            == Step::Done(link, answers.skip(k)),
        k < ancestors_of(link).len() ==> (link_protocol(
            answers,
            link,
            root,
            destination,
        ) matches Step::Done(target, left) && left == answers.skip(k + 1) && leads_to(
            target,
            link,
            ancestors_of(link)[ancestors_of(link).len() - 1 - k],
            destination,
        )),
{
    lemma_not_below_any(link, root.spellings);
    let candidates = ancestors_of(link);
    lemma_alias_found(answers, candidates, root.canonical, k);
    if k < candidates.len() {
        let alias = candidates[candidates.len() - 1 - k];
        lemma_ancestors_absolute(link, candidates.len() - 1 - k);
        lemma_components_well_formed(alias);
        lemma_ancestors_within(link, candidates.len() - 1 - k);
        lemma_moved(link, alias, destination);
        reveal_with_fuel(below_first, 2);
        assert(seq![alias][0] == alias);
        assert(retargeted(link, seq![alias], destination) == Some(
            join_path(destination, below(link, alias)->0),
        ));
    }
}

proof fn lemma_not_below_any(link: Seq<u8>, roots: Seq<Seq<u8>>)
    requires
        forall|i: int| 0 <= i < roots.len() ==> !within(link, #[trigger] roots[i]),
    ensures
        below_first(link, roots) is None,
    decreases roots.len(),
{
    if roots.len() > 0 {
        assert(!within(link, roots[0]));
        law_below(link, roots[0]);
        let rest = roots.drop_first();
        assert forall|i: int| 0 <= i < rest.len() implies !within(link, #[trigger] rest[i]) by {
            assert(rest[i] == roots[i + 1]);
        }
        lemma_not_below_any(link, rest);
    }
}

/// A link is read in the source, and what it must hold is put at its place in the
/// destination.
pub proof fn law_a_link_is_made_of_what_was_read(
    before: Log,
    root: SourceRootView,
    from: Seq<u8>,
    to: Seq<u8>,
    destination: Seq<u8>,
    disposable: bool,
    link: Vec<u8>,
    target: Seq<u8>,
)
    requires
        link_protocol(before, link@, root, destination) == Step::Done(target, Log::empty()),
    ensures
        place_link_protocol(Log::empty(), root, from, to, destination, disposable) == Step::<
            Deed,
        >::Ask(RequestView::ReadLink(from)),
        place_link_protocol(
            seq![Reply::Path(Ok(link))] + before,
            root,
            from,
            to,
            destination,
            disposable,
        ) == Step::<Deed>::Ask(RequestView::Link { target, path: to }),
{
    assert((seq![Reply::Path(Ok(link))] + before).drop_first() =~= before);
}

/// When everything was carried over, each entry of the plan was dealt with: a file was
/// cloned from its place in the source to its place in the destination, a link was
/// created there, a directory is there. Only what was there before stays, what is in the
/// way is not passed, and what may disappear can be gone.
pub proof fn law_every_planned_entry_is_carried_over(log: Log, job: JobView, k: int)
    requires
        work_protocol(log, job, WorkState::start()) is Done,
        0 <= k < job.entries.len(),
        components(job.entries[k].relative).len() > 0,
    ensures
        dealt_with(
            |l: Log| work_protocol(l, job, WorkState::start()),
            log,
            job,
            job.entries[k],
        ),
{
    let start = WorkState::start();
    assert(work_from(job, start) =~= (|l: Log| work_protocol(l, job, start)));
    lemma_rest_dealt_with(log, job, start, k);
}

/// The root of the source is known as it was given, and as the system resolves it. Where it
/// resolves to something below `/private`, it is known by the rest of that, too, if that
/// leads to it.
pub proof fn law_how_the_source_is_known(
    root: Seq<u8>,
    canonical: Vec<u8>,
    reply: Reply,
    rest: Log,
)
    requires
        reply is Path,
    ensures
        source_root_protocol(Log::empty(), root) == Step::<SourceRootView>::Ask(
            RequestView::Canonicalize(root),
        ),
        !within(canonical@, encode_utf8("/private"@)) ==> (source_root_protocol(
            heard(Reply::Path(Ok(canonical)), rest),
            root,
        ) matches Step::Done(known, left) && left == rest && known.canonical == canonical@
            && known_by(known.spellings, root, canonical@) && known.spellings.len() <= 2),
        within(canonical@, encode_utf8("/private"@)) ==> {
            let short = join_path(root_word(), below(canonical@, encode_utf8("/private"@))->0);
            let step = source_root_protocol(
                heard(Reply::Path(Ok(canonical)), heard(reply, rest)),
                root,
            );
            same_path(short, root) || same_path(short, canonical@) || {
                &&& source_root_protocol(heard(Reply::Path(Ok(canonical)), Log::empty()), root)
                    == Step::<SourceRootView>::Ask(RequestView::Canonicalize(short))
                &&& step matches Step::Done(known, left) && left == rest && known.canonical
                    == canonical@ && known_by(known.spellings, root, canonical@) && (resolves_to(
                    reply,
                    canonical@,
                ) <==> known.spellings.contains(short))
            }
        },
{
    broadcast use lemma_heard;

    law_below(canonical@, encode_utf8("/private"@));
    let roots = plain_spellings(root, canonical@);
    assert(roots[0] == root);
    if !same_path(canonical@, root) {
        assert(roots[1] == canonical@);
    }
    if within(canonical@, encode_utf8("/private"@)) {
        let short = join_path(root_word(), below(canonical@, encode_utf8("/private"@))->0);
        assert(roots.push(short)[roots.len() as int] == short);
        assert(roots.push(short)[0] == root);
        if !same_path(canonical@, root) {
            assert(roots.push(short)[1] == canonical@);
        }
        if roots.contains(short) {
            assert(same_path(short, root) || same_path(short, canonical@));
        }
    }
}

/// Whether a root is known by a spelling, and by what it resolves to.
pub open spec fn known_by(spellings: Seq<Seq<u8>>, root: Seq<u8>, canonical: Seq<u8>) -> bool {
    &&& spellings.contains(root)
    &&& exists|k: int| 0 <= k < spellings.len() && same_path(#[trigger] spellings[k], canonical)
}

/// The spellings of a root are those that the source is known by.
pub proof fn law_spellings_are_those_of_the_source(log: Log, root: Seq<u8>)
    ensures
        match source_root_protocol(log, root) {
            Step::Done(known, left) => root_spellings_protocol(log, root) == Step::Done(
                known.spellings,
                left,
            ),
            Step::Ask(request) => root_spellings_protocol(log, root) == Step::<Seq<Seq<u8>>>::Ask(
                request,
            ),
            Step::Fail(error, left) => root_spellings_protocol(log, root) == Step::<
                Seq<Seq<u8>>,
            >::Fail(error, left),
            Step::Stray => root_spellings_protocol(log, root) is Stray,
        },
{
}

} // verus!
