//! Resolving paths in a file system that stays as it is.

use vstd::prelude::*;

use crate::encoding::lossy;
use crate::errors::{plain, system, ErrorView};
use crate::git::path_text;
use crate::laws::still::{
    comes_to, failed, lemma_after_answer, lemma_same_procedure, told, truthful, FileSystem, MetView,
};
use crate::naming::{absolute_protocol, directory_protocol, resolve_protocol, seen_from};
use crate::paths::{
    absolute_path, components, is_name, join_path, law_join_name, law_normal_parent, law_parent,
    law_parent_trimmed, lemma_components_well_formed, lemma_parent_shorter, lemma_spans,
    name_of, normal, parent_of, plain_word, spans_of, trimmed,
};
use crate::session::{
    fails, metadata_reply, path_reply, ErrorKind, FileKind, IoError, IoErrorView, Log, Reply,
    RequestView, Step,
};

verus! {

/// Whether a path is spelled as resolving one gives it: from the root, in names alone.
pub open spec fn canonical(path: Seq<u8>) -> bool {
    &&& absolute_path(path)
    &&& normal(path) == path
    &&& forall|k: int| 0 < k < components(path).len() ==> is_name(#[trigger] components(path)[k])
}

/// Whether nothing is found at a path, neither an entry nor through links.
pub open spec fn nothing_at(fs: FileSystem, path: Seq<u8>) -> bool {
    &&& (fs.resolved)(path) matches Err(error) && error.kind == ErrorKind::NotFound
    &&& (fs.entry)(path) matches Err(error) && error.kind == ErrorKind::NotFound
}

/// Whether a path leads to a directory.
pub open spec fn leads_to_directory(fs: FileSystem, path: Seq<u8>) -> bool {
    (fs.target)(path) matches Ok(metadata) && metadata.kind == FileKind::Directory
}

/// What every file system keeps to while it stays as it is, for paths that are not too
/// long for it: a resolved path resolves to itself and lies in directories that do so
/// too; a name leads to the same entry from a directory and from what that directory
/// resolves to; and below nothing there is nothing. A zero byte is no part of a path.
pub open spec fn stays(fs: FileSystem) -> bool {
    &&& forall|path: Seq<u8>|
        (#[trigger] (fs.resolved)(path)) matches Ok(found) ==> {
            &&& canonical(found)
            &&& (fs.resolved)(found) == Ok::<Seq<u8>, IoErrorView>(found)
            &&& parent_of(found) matches Some(parent) ==> (fs.resolved)(parent) == Ok::<
                Seq<u8>,
                IoErrorView,
            >(parent) && leads_to_directory(fs, parent)
        }
    &&& forall|path: Seq<u8>|
        #![trigger (fs.resolved)(path)]
        #![trigger (fs.entry)(path)]
        trimmed(path) && absolute_path(path) ==> (name_of(path) matches Some(name) ==> (parent_of(
            path,
        ) matches Some(parent) ==> ((fs.resolved)(parent) matches Ok(found) ==> (fs.resolved)(
            join_path(found, name),
        ) == (fs.resolved)(path) && (fs.entry)(join_path(found, name)) == (fs.entry)(path))))
    &&& forall|path: Seq<u8>, name: Seq<u8>|
        #![trigger nothing_at(fs, join_path(path, name))]
        trimmed(path) && absolute_path(path) && plain_word(name) && is_name(name)
            && !name.contains(0u8) && nothing_at(fs, path) ==> nothing_at(fs, join_path(path, name))
    &&& forall|path: Seq<u8>| #[trigger] nothing_at(fs, path) ==> !path.contains(0u8)
}

/// The failure that the system reported.
pub open spec fn reported(error: IoErrorView) -> ErrorView {
    plain(error.text)
}

/// What resolving a directory comes to.
pub open spec fn resolve_in(fs: FileSystem, path: Seq<u8>) -> Result<Seq<u8>, ErrorView>
    decreases path.len(),
{
    proof {
        lemma_parent_shorter(path);
    }
    match (fs.resolved)(path) {
        Ok(found) => match (fs.target)(found) {
            Err(error) => Err(reported(error)),
            Ok(metadata) => if metadata.kind != FileKind::Directory {
                failed("path ancestor is not a directory: "@ + lossy(path))
            } else {
                Ok(found)
            },
        },
        Err(error) => if error.kind != ErrorKind::NotFound {
            Err(reported(error).wrap("resolving path ancestor"@))
        } else {
            match (fs.entry)(path) {
                Ok(_) => Err(reported(error).wrap("resolving path ancestor"@)),
                Err(entry) => if entry.kind != ErrorKind::NotFound {
                    Err(reported(entry).wrap("reading path ancestor"@))
                } else {
                    match (name_of(path), parent_of(path)) {
                        (None, _) => failed(
                            "cannot resolve parent traversal through a missing directory"@,
                        ),
                        (Some(_), None) => failed("no accessible path ancestor"@),
                        (Some(name), Some(parent)) => match resolve_in(fs, parent) {
                            Err(error) => Err(error),
                            Ok(found) => Ok(join_path(found, name)),
                        },
                    }
                },
            }
        },
    }
}

/// What the absolute form of a path comes to.
pub open spec fn absolute_in(fs: FileSystem, path: Seq<u8>, cwd: Seq<u8>) -> Result<
    Seq<u8>,
    ErrorView,
> {
    let joined = seen_from(path, cwd);
    match path_text(path) {
        Err(error) => Err(error),
        Ok(_) => {
            let result = match name_of(joined) {
                None => resolve_in(fs, joined),
                Some(name) => match parent_of(joined) {
                    None => failed("destination needs a parent"@),
                    Some(parent) => match resolve_in(fs, parent) {
                        Err(error) => Err(error),
                        Ok(found) => Ok(join_path(found, name)),
                    },
                },
            };
            match result {
                Err(error) => Err(error),
                Ok(found) => match path_text(found) {
                    Err(error) => Err(error),
                    Ok(_) => Ok(found),
                },
            }
        },
    }
}

proof fn lemma_directory_told(fs: FileSystem, log: Log, path: Seq<u8>, found: Seq<u8>)
    requires
        truthful(fs, Seq::empty(), log, |l: Log| directory_protocol(l, path, found)),
    ensures
        comes_to(
            directory_protocol(log, path, found),
            match (fs.target)(found) {
                Err(error) => Err(reported(error)),
                Ok(metadata) => if metadata.kind != FileKind::Directory {
                    failed("path ancestor is not a directory: "@ + lossy(path))
                } else {
                    Ok(found)
                },
            },
        ),
{
    if log.len() > 0 {
        let p = |l: Log| directory_protocol(l, path, found);
        let next = |l: Log| p(seq![log[0]] + l);
        assert forall|l: Log| l.len() > 0 && l[0] == log[0] implies #[trigger] p(l) == next(
            l.drop_first(),
        ) by {
            assert(seq![log[0]] + l.drop_first() =~= l);
        }
        lemma_after_answer(fs, Seq::empty(), log, p, next, RequestView::Metadata(found));
    }
}

/// What is left to resolve once nothing was found at a path.
spec fn climbs(log: Log, path: Seq<u8>) -> Step<Seq<u8>> {
    match (name_of(path), parent_of(path)) {
        (None, _) => fails(
            "cannot resolve parent traversal through a missing directory"@,
            log,
        ),
        (Some(_), None) => fails("no accessible path ancestor"@, log),
        (Some(name), Some(parent)) => resolve_protocol(log, parent).bind(
            |resolved: Seq<u8>, log: Log| Step::Done(join_path(resolved, name), log),
        ),
    }
}

/// What is left to resolve once a path could not be found.
spec fn looks(log: Log, path: Seq<u8>, error: IoError) -> Step<Seq<u8>> {
    match metadata_reply(log, RequestView::SymlinkMetadata(path)) {
        Step::Ask(request) => Step::Ask(request),
        Step::Stray => Step::Stray,
        Step::Fail(error, log) => Step::Fail(error, log),
        Step::Done(Ok(_), log) => Step::Fail(system(error).wrap("resolving path ancestor"@), log),
        Step::Done(Err(entry), log) => if entry.kind != ErrorKind::NotFound {
            Step::Fail(system(entry).wrap("reading path ancestor"@), log)
        } else {
            climbs(log, path)
        },
    }
}

/// What is left to resolve once resolving a path was answered.
spec fn resolves(log: Log, path: Seq<u8>, outcome: Result<Vec<u8>, IoError>) -> Step<Seq<u8>> {
    match outcome {
        Ok(resolved) => directory_protocol(log, path, resolved@),
        Err(error) => if error.kind != ErrorKind::NotFound {
            Step::Fail(system(error).wrap("resolving path ancestor"@), log)
        } else {
            looks(log, path, error)
        },
    }
}

proof fn lemma_resolves(log: Log, path: Seq<u8>)
    ensures
        resolve_protocol(log, path) == path_reply(log, RequestView::Canonicalize(path)).bind(
            |outcome: Result<Vec<u8>, IoError>, log: Log| resolves(log, path, outcome),
        ),
{
}

proof fn lemma_climb_told(fs: FileSystem, log: Log, path: Seq<u8>)
    requires
        truthful(fs, Seq::empty(), log, |l: Log| climbs(l, path)),
        nothing_at(fs, path),
    ensures
        comes_to(climbs(log, path), resolve_in(fs, path)),
    decreases path.len(), 0int,
{
    lemma_parent_shorter(path);
    let rest = Seq::<MetView>::empty();
    if let (Some(name), Some(parent)) = (name_of(path), parent_of(path)) {
        let p = |l: Log| climbs(l, path);
        let q = |l: Log| resolve_protocol(l, parent);
        assert forall|k: int| 0 <= k < log.len() implies told(
            fs,
            rest,
            q(#[trigger] log.take(k)),
            log[k],
        ) by {
            assert(told(fs, rest, p(log.take(k)), log[k]));
        }
        lemma_resolve_told(fs, log, parent);
    }
}

proof fn lemma_look_told(fs: FileSystem, log: Log, path: Seq<u8>, error: IoError)
    requires
        truthful(fs, Seq::empty(), log, |l: Log| looks(l, path, error)),
        (fs.resolved)(path) == Err::<Seq<u8>, IoErrorView>(error.deep_view()),
        error.kind == ErrorKind::NotFound,
    ensures
        comes_to(looks(log, path, error), resolve_in(fs, path)),
    decreases path.len(), 1int,
{
    let rest = Seq::<MetView>::empty();
    if log.len() > 0 {
        let p = |l: Log| looks(l, path, error);
        let next = |l: Log| p(seq![log[0]] + l);
        assert forall|l: Log| l.len() > 0 && l[0] == log[0] implies #[trigger] p(l) == next(
            l.drop_first(),
        ) by {
            assert(seq![log[0]] + l.drop_first() =~= l);
        }
        lemma_after_answer(fs, rest, log, p, next, RequestView::SymlinkMetadata(path));
        if let Reply::Metadata(Err(entry)) = log[0] {
            if entry.kind == ErrorKind::NotFound {
                let q = |l: Log| climbs(l, path);
                assert forall|l: Log| #[trigger] next(l) == q(l) by {
                    assert((seq![log[0]] + l).drop_first() =~= l);
                }
                lemma_same_procedure(fs, rest, log.drop_first(), next, q);
                lemma_climb_told(fs, log.drop_first(), path);
            }
        }
    }
}

/// Told of a file system, resolving a directory comes to one result.
pub proof fn lemma_resolve_told(fs: FileSystem, log: Log, path: Seq<u8>)
    requires
        truthful(fs, Seq::empty(), log, |l: Log| resolve_protocol(l, path)),
    ensures
        comes_to(resolve_protocol(log, path), resolve_in(fs, path)),
    decreases path.len(), 2int,
{
    let rest = Seq::<MetView>::empty();
    lemma_resolves(log, path);
    if log.len() > 0 {
        let p = |l: Log| resolve_protocol(l, path);
        let next = |l: Log| p(seq![log[0]] + l);
        let tail = log.drop_first();
        assert forall|l: Log| l.len() > 0 && l[0] == log[0] implies #[trigger] p(l) == next(
            l.drop_first(),
        ) by {
            assert(seq![log[0]] + l.drop_first() =~= l);
        }
        lemma_resolves(Log::empty(), path);
        lemma_after_answer(fs, rest, log, p, next, RequestView::Canonicalize(path));
        if let Reply::Path(outcome) = log[0] {
            let q = |l: Log| resolves(l, path, outcome);
            assert forall|l: Log| #[trigger] next(l) == q(l) by {
                assert((seq![log[0]] + l).drop_first() =~= l);
                lemma_resolves(seq![log[0]] + l, path);
            }
            lemma_same_procedure(fs, rest, tail, next, q);
            match outcome {
                Ok(found) => {
                    let d = |l: Log| directory_protocol(l, path, found@);
                    lemma_same_procedure(fs, rest, tail, q, d);
                    lemma_directory_told(fs, tail, path, found@);
                },
                Err(error) => {
                    if error.kind == ErrorKind::NotFound {
                        let d = |l: Log| looks(l, path, error);
                        lemma_same_procedure(fs, rest, tail, q, d);
                        lemma_look_told(fs, tail, path, error);
                    }
                },
            }
        }
    }
}

/// Told of a file system, the absolute form of a path comes to one result.
pub proof fn lemma_absolute_told(fs: FileSystem, log: Log, path: Seq<u8>, cwd: Seq<u8>)
    requires
        truthful(fs, Seq::empty(), log, |l: Log| absolute_protocol(l, path, cwd)),
    ensures
        comes_to(absolute_protocol(log, path, cwd), absolute_in(fs, path, cwd)),
{
    let rest = Seq::<MetView>::empty();
    let p = |l: Log| absolute_protocol(l, path, cwd);
    let joined = seen_from(path, cwd);
    let place = match name_of(joined) {
        Some(_) => parent_of(joined),
        None => Some(joined),
    };
    if let Some(place) = place {
        if path_text(path) is Ok {
            let q = |l: Log| resolve_protocol(l, place);
            assert forall|k: int| 0 <= k < log.len() implies told(
                fs,
                rest,
                q(#[trigger] log.take(k)),
                log[k],
            ) by {
                assert(told(fs, rest, p(log.take(k)), log[k]));
            }
            lemma_resolve_told(fs, log, place);
        }
    }
}

/// Whether resolving a path gives it back, as it is spelled.
spec fn settled_at(fs: FileSystem, path: Seq<u8>) -> bool {
    &&& absolute_path(path)
    &&& trimmed(path)
    &&& resolve_in(fs, path) == Ok::<Seq<u8>, ErrorView>(path)
    &&& (fs.resolved)(path) == Ok::<Seq<u8>, IoErrorView>(path) || nothing_at(fs, path)
}

proof fn lemma_name_plain(path: Seq<u8>)
    requires
        absolute_path(path),
    ensures
        name_of(path) matches Some(name) ==> plain_word(name) && is_name(name) && (parent_of(
            path,
        ) is Some),
{
    lemma_components_well_formed(path);
    law_parent(path);
    let c = components(path);
    if name_of(path) is Some {
        assert(c.len() > 1) by {
            if c.len() == 1 {
                assert(c.last() == c[0]);
            }
        }
        assert(plain_word(c[c.len() - 1]));
    }
}

/// What resolving gives resolves to itself.
proof fn lemma_resolved_settles(fs: FileSystem, path: Seq<u8>)
    requires
        stays(fs),
        absolute_path(path),
        trimmed(path) || name_of(path) is None,
    ensures
        resolve_in(fs, path) matches Ok(found) ==> settled_at(fs, found) && (
        (fs.resolved)(path) is Err ==> nothing_at(fs, found)) && ((fs.resolved)(path)
            matches Ok(same) ==> same == found),
    decreases path.len(),
{
    lemma_parent_shorter(path);
    if let Ok(found) = resolve_in(fs, path) {
        match (fs.resolved)(path) {
            Ok(same) => {
                law_normal_parent(found);
            },
            Err(_) => {
                lemma_name_plain(path);
                law_parent_trimmed(path);
                let name = name_of(path)->0;
                let parent = parent_of(path)->0;
                lemma_resolved_settles(fs, parent);
                let above = resolve_in(fs, parent)->Ok_0;
                law_join_name(above, name);
                assert(nothing_at(fs, path));
                assert(!name.contains(0u8)) by {
                    lemma_spans(path);
                    let last = spans_of(path).last();
                    if name.contains(0u8) {
                        let k = choose|k: int| 0 <= k < name.len() && name[k] == 0u8;
                        assert(path[last.0 + k] == 0u8);
                    }
                }
                if (fs.resolved)(parent) is Ok {
                    assert((fs.resolved)(parent) == Ok::<Seq<u8>, IoErrorView>(above));
                    assert(nothing_at(fs, join_path(above, name)));
                } else {
                    assert(nothing_at(fs, above));
                    assert(nothing_at(fs, join_path(above, name)));
                }
            },
        }
    }
}

/// The absolute form of a path is absolute, with the last name as it was given, so
/// that a link of that name is kept; and in a file system that stays as it is it is
/// its own absolute form, whatever directory it is seen from.
pub proof fn law_absolute_form_is_final(
    fs: FileSystem,
    path: Seq<u8>,
    cwd: Seq<u8>,
    log: Log,
    result: Seq<u8>,
    left: Log,
    other: Seq<u8>,
    again: Log,
)
    requires
        stays(fs),
        absolute_path(cwd),
        truthful(fs, Seq::empty(), log, |l: Log| absolute_protocol(l, path, cwd)),
        absolute_protocol(log, path, cwd) == Step::Done(result, left),
        truthful(fs, Seq::empty(), again, |l: Log| absolute_protocol(l, result, other)),
    ensures
        absolute_path(result),
        name_of(seen_from(path, cwd)) matches Some(name) ==> (parent_of(
            seen_from(path, cwd),
        ) matches Some(parent) && (resolve_in(fs, parent) matches Ok(found) && result == join_path(
            found,
            name,
        ))),
        match absolute_protocol(again, result, other) {
            Step::Ask(_) => true,
            Step::Done(second, _) => second == result,
            _ => false,
        },
{
    lemma_absolute_told(fs, log, path, cwd);
    lemma_absolute_told(fs, again, result, other);
    let joined = seen_from(path, cwd);
    assert(absolute_path(joined));
    match name_of(joined) {
        Some(name) => {
            lemma_name_plain(joined);
            law_parent_trimmed(joined);
            let parent = parent_of(joined)->0;
            lemma_resolved_settles(fs, parent);
            let found = resolve_in(fs, parent)->Ok_0;
            law_join_name(found, name);
        },
        None => {
            lemma_resolved_settles(fs, joined);
            assert((fs.resolved)(joined) is Ok);
            law_normal_parent(result);
            if let Some(parent) = parent_of(result) {
                assert((fs.resolved)(parent) == Ok::<Seq<u8>, IoErrorView>(parent));
            }
        },
    }
}

} // verus!
