//! Cloning single files copy-on-write, and pointing links into the clone.

use vstd::prelude::*;

use vstd::slice::slice_to_vec;
use vstd::utf8::encode_utf8;

use crate::encoding::bytes_of;
use crate::paths;
use crate::paths::{
    absolute_path, ancestors_of, below, components, join_path, listed, parent_word, root_word, same_path,
};
use crate::session::{
    ask_clone, ask_metadata, ask_path, canonicalize, canonicalize_protocol, clone_reply, extends,
    follows, lemma_bytes, metadata_reply, path_reply, reports, Errno, ErrorKind, FileKind, IoError,
    IoErrorView, Log, Metadata, OsError, Request, RequestView, Session, Step, Stop,
};

verus! {

broadcast use lemma_bytes;

/// What is left of a link below the first of the roots that it lies in.
pub open spec fn below_first(link: Seq<u8>, roots: Seq<Seq<u8>>) -> Option<Seq<u8>>
    decreases roots.len(),
{
    if roots.len() == 0 {
        None
    } else {
        match below(link, roots[0]) {
            Some(relative) => Some(relative),
            None => below_first(link, roots.drop_first()),
        }
    }
}

/// Where a link into one of the roots leads in the destination. A link that goes
/// up somewhere can cross a symbolic link or leave the root: it leads nowhere else.
pub open spec fn retargeted(link: Seq<u8>, roots: Seq<Seq<u8>>, destination: Seq<u8>) -> Option<
    Seq<u8>,
> {
    if components(link).contains(parent_word()) {
        None
    } else {
        match below_first(link, roots) {
            Some(relative) => Some(join_path(destination, relative)),
            None => None,
        }
    }
}

/// Where a link into the source must lead in the clone.
pub fn retarget(link: &[u8], source_roots: &Vec<Vec<u8>>, destination: &[u8]) -> (r: Option<Vec<u8>>)
    ensures
        r.deep_view() == retargeted(link@, source_roots.deep_view(), destination@),
{
    if paths::goes_up(link) {
        return None;
    }
    let ghost all = source_roots.deep_view();
    let mut i: usize = 0;
    assert(all.skip(0) =~= all);
    while i < source_roots.len()
        invariant
            i <= source_roots@.len(),
            all == source_roots.deep_view(),
            !components(link@).contains(parent_word()),
            below_first(link@, all) == below_first(link@, all.skip(i as int)),
        decreases source_roots@.len() - i,
    {
        let stripped = paths::strip_prefix(link, source_roots[i].as_slice());
        assert(all.skip(i as int)[0] == source_roots@[i as int]@);
        assert(all.skip(i as int).drop_first() =~= all.skip(i + 1));
        if let Some(relative) = stripped {
            return Some(paths::join(destination, relative.as_slice()));
        }
        i = i + 1;
    }
    None
}

fn is_listed(roots: &Vec<Vec<u8>>, path: &[u8]) -> (r: bool)
    ensures
        r == listed(roots.deep_view(), path@),
{
    let ghost all = roots.deep_view();
    let mut i: usize = 0;
    while i < roots.len()
        invariant
            i <= roots@.len(),
            all == roots.deep_view(),
            forall|k: int| 0 <= k < i ==> !same_path(#[trigger] all[k], path@),
        decreases roots@.len() - i,
    {
        assert(all[i as int] == roots@[i as int]@);
        if paths::same(roots[i].as_slice(), path) {
            return true;
        }
        i = i + 1;
    }
    false
}

/// The spellings of a root that need no further look: as it is given, and resolved.
pub open spec fn plain_spellings(root: Seq<u8>, canonical: Seq<u8>) -> Seq<Seq<u8>> {
    if same_path(canonical, root) {
        seq![root]
    } else {
        seq![root, canonical]
    }
}

/// The short spelling of a path below `/private`.
pub open spec fn short_spelling(canonical: Seq<u8>) -> Option<Seq<u8>> {
    match below(canonical, encode_utf8("/private"@)) {
        Some(relative) => Some(join_path(root_word(), relative)),
        None => None,
    }
}

pub open spec fn spellings_protocol(log: Log, root: Seq<u8>) -> Step<(Seq<Seq<u8>>, Seq<u8>)> {
    canonicalize_protocol(log, root).bind(
        |canonical: Seq<u8>, log: Log|
            {
                let roots = plain_spellings(root, canonical);
                match short_spelling(canonical) {
                    None => Step::Done((roots, canonical), log),
                    Some(alias) => if listed(roots, alias) {
                        Step::Done((roots, canonical), log)
                    } else {
                        path_reply(log, RequestView::Canonicalize(alias)).bind(
                            |outcome: Result<Vec<u8>, IoError>, log: Log|
                                Step::Done(
                                    (
                                        if outcome matches Ok(resolved) && same_path(
                                            resolved@,
                                            canonical,
                                        ) {
                                            roots.push(alias)
                                        } else {
                                            roots
                                        },
                                        canonical,
                                    ),
                                    log,
                                ),
                        )
                    },
                }
            },
    )
}

/// The spellings of a root, and the root resolved. Git reports paths below
/// `/private` also where links keep the shorter spelling.
fn spellings<'a>(io: &mut Session<'a>, root: &[u8]) -> (r: Result<(Vec<Vec<u8>>, Vec<u8>), Stop>)
    ensures
        follows(r, final(io)@, spellings_protocol(old(io)@, root@)),
{
    let canonical = canonicalize(io, root)?;
    let mut roots: Vec<Vec<u8>> = vec![slice_to_vec(root)];
    if !paths::same(canonical.as_slice(), root) {
        roots.push(slice_to_vec(canonical.as_slice()));
    }
    assert(roots.deep_view() =~= plain_spellings(root@, canonical@));
    match paths::strip_prefix(canonical.as_slice(), bytes_of("/private").as_slice()) {
        None => Ok((roots, canonical)),
        Some(relative) => {
            let top: Vec<u8> = vec![paths::SLASH];
            assert(top@ =~= root_word());
            let alias = paths::join(top.as_slice(), relative.as_slice());
            if is_listed(&roots, alias.as_slice()) {
                return Ok((roots, canonical));
            }
            if let Ok(resolved) = ask_path(
                io,
                Request::Canonicalize(slice_to_vec(alias.as_slice())),
            )? {
                if paths::same(resolved.as_slice(), canonical.as_slice()) {
                    let ghost before = roots.deep_view();
                    roots.push(alias);
                    assert(roots.deep_view() =~= before.push(alias@));
                }
            }
            Ok((roots, canonical))
        },
    }
}

pub open spec fn root_spellings_protocol(log: Log, root: Seq<u8>) -> Step<Seq<Seq<u8>>> {
    spellings_protocol(log, root).bind(
        |found: (Seq<Seq<u8>>, Seq<u8>), log: Log| Step::Done(found.0, log),
    )
}

/// The spellings of a root under which links may name it.
pub fn root_spellings<'a>(io: &mut Session<'a>, root: &[u8]) -> (r: Result<Vec<Vec<u8>>, Stop>)
    ensures
        follows(r, final(io)@, root_spellings_protocol(old(io)@, root@)),
{
    let (roots, _) = spellings(io, root)?;
    Ok(roots)
}

/// The root that is cloned: the spellings that are known of it, and itself resolved.
#[derive(Debug)]
pub struct SourceRoot {
    pub spellings: Vec<Vec<u8>>,
    pub canonical: Vec<u8>,
}

/// What a [`SourceRoot`] says.
#[verifier::ext_equal]
pub struct SourceRootView {
    pub spellings: Seq<Seq<u8>>,
    pub canonical: Seq<u8>,
}

impl DeepView for SourceRoot {
    type V = SourceRootView;

    open spec fn deep_view(&self) -> SourceRootView {
        SourceRootView { spellings: self.spellings.deep_view(), canonical: self.canonical@ }
    }
}

pub open spec fn source_root_protocol(log: Log, root: Seq<u8>) -> Step<SourceRootView> {
    spellings_protocol(log, root).bind(
        |found: (Seq<Seq<u8>>, Seq<u8>), log: Log|
            Step::Done(SourceRootView { spellings: found.0, canonical: found.1 }, log),
    )
}

/// The first of the candidates, from the last to the first, that resolves to
/// `canonical`. A candidate that does not resolve is none.
pub open spec fn alias_protocol(log: Log, candidates: Seq<Seq<u8>>, canonical: Seq<u8>) -> Step<
    Option<Seq<u8>>,
>
    decreases candidates.len(),
{
    if candidates.len() == 0 {
        Step::Done(None, log)
    } else {
        match path_reply(log, RequestView::Canonicalize(candidates.last())) {
            Step::Ask(request) => Step::Ask(request),
            Step::Stray => Step::Stray,
            Step::Fail(error, log) => Step::Fail(error, log),
            Step::Done(outcome, log) => if outcome matches Ok(resolved) && same_path(
                resolved@,
                canonical,
            ) {
                Step::Done(Some(candidates.last()), log)
            } else {
                alias_protocol(log, candidates.drop_last(), canonical)
            },
        }
    }
}

fn find_alias<'a>(
    io: &mut Session<'a>,
    candidates: &Vec<Vec<u8>>,
    count: usize,
    canonical: &[u8],
) -> (r: Result<Option<Vec<u8>>, Stop>)
    requires
        count <= candidates@.len(),
    ensures
        follows(
            r,
            final(io)@,
            alias_protocol(old(io)@, candidates.deep_view().take(count as int), canonical@),
        ),
    decreases count,
{
    let ghost some = candidates.deep_view().take(count as int);
    if count == 0 {
        return Ok(None);
    }
    let candidate = &candidates[count - 1];
    assert(some.last() == candidate@);
    assert(some.drop_last() =~= candidates.deep_view().take(count - 1));
    if let Ok(resolved) = ask_path(
        io,
        Request::Canonicalize(slice_to_vec(candidate.as_slice())),
    )? {
        if paths::same(resolved.as_slice(), canonical) {
            return Ok(Some(slice_to_vec(candidate.as_slice())));
        }
    }
    find_alias(io, candidates, count - 1, canonical)
}

/// What a link of the source must hold in the clone: a link into the source, under
/// any name of its root, leads into the clone, and every other link stays as it is.
pub open spec fn link_protocol(
    log: Log,
    link: Seq<u8>,
    root: SourceRootView,
    destination: Seq<u8>,
) -> Step<Seq<u8>> {
    if components(link).contains(parent_word()) || !absolute_path(link) {
        Step::Done(link, log)
    } else {
        match retargeted(link, root.spellings, destination) {
            Some(target) => Step::Done(target, log),
            None => alias_protocol(log, ancestors_of(link), root.canonical).bind(
                |alias: Option<Seq<u8>>, log: Log|
                    match alias {
                        None => Step::Done(link, log),
                        Some(alias) => Step::Done(
                            match retargeted(link, seq![alias], destination) {
                                Some(target) => target,
                                None => link,
                            },
                            log,
                        ),
                    },
            ),
        }
    }
}

impl SourceRoot {
    /// The root at a path.
    pub fn new<'a>(io: &mut Session<'a>, root: &[u8]) -> (r: Result<SourceRoot, Stop>)
        ensures
            follows(r, final(io)@, source_root_protocol(old(io)@, root@)),
    {
        let (spellings, canonical) = spellings(io, root)?;
        Ok(SourceRoot { spellings, canonical })
    }

    /// What a link of the source must hold in the clone.
    pub fn link<'a>(&self, io: &mut Session<'a>, link: &[u8], destination: &[u8]) -> (r: Result<
        Vec<u8>,
        Stop,
    >)
        ensures
            follows(r, final(io)@, link_protocol(old(io)@, link@, self.deep_view(), destination@)),
    {
        if paths::goes_up(link) || !paths::is_absolute(link) {
            return Ok(slice_to_vec(link));
        }
        if let Some(target) = retarget(link, &self.spellings, destination) {
            return Ok(target);
        }
        let candidates = paths::ancestors(link);
        assert(candidates.deep_view().take(candidates@.len() as int) =~= ancestors_of(link@));
        match find_alias(io, &candidates, candidates.len(), self.canonical.as_slice())? {
            None => Ok(slice_to_vec(link)),
            Some(alias) => {
                let ghost found = alias@;
                let roots = vec![alias];
                assert(roots.deep_view() =~= seq![found]);
                match retarget(link, &roots, destination) {
                    Some(target) => Ok(target),
                    None => Ok(slice_to_vec(link)),
                }
            },
        }
    }
}

/// Whether an error number says that the two places cannot share a clone.
pub open spec fn says_unsupported(errno: Errno) -> bool {
    errno != Errno::Other
}

/// The failure that the cloning primitive reported.
pub open spec fn clone_failure(error: OsError) -> IoErrorView {
    IoErrorView {
        kind: if says_unsupported(error.errno) {
            ErrorKind::Unsupported
        } else {
            error.kind
        },
        text: error.text@,
    }
}

pub open spec fn clone_file_protocol(log: Log, source: Seq<u8>, destination: Seq<u8>) -> Step<
    Result<u64, IoErrorView>,
> {
    if source.contains(0u8) {
        Step::Done(
            Err(IoErrorView { kind: ErrorKind::InvalidInput, text: "source path contains NUL"@ }),
            log,
        )
    } else if destination.contains(0u8) {
        Step::Done(
            Err(
                IoErrorView {
                    kind: ErrorKind::InvalidInput,
                    text: "destination path contains NUL"@,
                },
            ),
            log,
        )
    } else {
        clone_reply(log, source, destination).bind(
            |outcome: Result<(), OsError>, log: Log|
                match outcome {
                    Err(error) => Step::Done(Err(clone_failure(error)), log),
                    Ok(_) => metadata_reply(log, RequestView::SymlinkMetadata(destination)).bind(
                        |outcome: Result<Metadata, IoError>, log: Log|
                            match outcome {
                                Err(error) => Step::Done(Err(error.deep_view()), log),
                                Ok(metadata) => if metadata.kind != FileKind::File {
                                    Step::Done(
                                        Err(
                                            IoErrorView {
                                                kind: ErrorKind::Other,
                                                text: "cloned object is no longer a regular file"@,
                                            },
                                        ),
                                        log,
                                    )
                                } else {
                                    Step::Done(Ok(metadata.length), log)
                                },
                            },
                    ),
                },
        )
    }
}

fn holds_nul(path: &[u8]) -> (r: bool)
    ensures
        r == path@.contains(0u8),
{
    let mut i: usize = 0;
    while i < path.len()
        invariant
            i <= path@.len(),
            forall|k: int| 0 <= k < i ==> path@[k] != 0,
        decreases path@.len() - i,
    {
        if path[i] == 0 {
            assert(path@[i as int] == 0u8);
            return true;
        }
        i = i + 1;
    }
    false
}

/// Clones one regular file copy-on-write, with its mode; its length. A source that
/// changed its kind is an error, and whoever asked cleans up the cloned entry.
pub fn clone_file<'a>(io: &mut Session<'a>, source: &[u8], destination: &[u8]) -> (r: Result<
    Result<u64, IoError>,
    Stop,
>)
    ensures
        reports(r, final(io)@, clone_file_protocol(old(io)@, source@, destination@)),
{
    if holds_nul(source) {
        return Ok(
            Err(
                IoError {
                    kind: ErrorKind::InvalidInput,
                    text: "source path contains NUL".to_owned(),
                },
            ),
        );
    }
    if holds_nul(destination) {
        return Ok(
            Err(
                IoError {
                    kind: ErrorKind::InvalidInput,
                    text: "destination path contains NUL".to_owned(),
                },
            ),
        );
    }
    match ask_clone(io, source, destination)? {
        Err(error) => {
            let kind = match error.errno {
                Errno::Other => error.kind,
                _ => ErrorKind::Unsupported,
            };
            Ok(Err(IoError { kind, text: error.text.clone() }))
        },
        Ok(_) => match ask_metadata(io, Request::SymlinkMetadata(slice_to_vec(destination)))? {
            Err(error) => Ok(Err(IoError { kind: error.kind, text: error.text.clone() })),
            Ok(metadata) => {
                if metadata.kind != FileKind::File {
                    return Ok(
                        Err(
                            IoError {
                                kind: ErrorKind::Other,
                                text: "cloned object is no longer a regular file".to_owned(),
                            },
                        ),
                    );
                }
                Ok(Ok(metadata.length))
            },
        },
    }
}

proof fn lemma_alias_is_performable(log: Log, candidates: Seq<Seq<u8>>, canonical: Seq<u8>)
    ensures
        alias_protocol(log, candidates, canonical) matches Step::Ask(request)
            ==> request.performable(),
    decreases candidates.len(),
{
    if candidates.len() > 0 {
        if let Step::Done(_, log) = path_reply(log, RequestView::Canonicalize(candidates.last())) {
            lemma_alias_is_performable(log, candidates.drop_last(), canonical);
        }
    }
}

pub proof fn lemma_link_is_performable(
    log: Log,
    link: Seq<u8>,
    root: SourceRootView,
    destination: Seq<u8>,
)
    ensures
        link_protocol(log, link, root, destination) matches Step::Ask(request)
            ==> request.performable(),
{
    lemma_alias_is_performable(log, ancestors_of(link), root.canonical);
}

pub proof fn steady_spellings(log: Log, more: Log, root: Seq<u8>)
    ensures
        extends(spellings_protocol(log, root), spellings_protocol(log + more, root), more),
{
    broadcast use crate::session::group_steady_replies;

}

pub proof fn steady_source_root(log: Log, more: Log, root: Seq<u8>)
    ensures
        extends(source_root_protocol(log, root), source_root_protocol(log + more, root), more),
{
    steady_spellings(log, more, root);
}

pub proof fn steady_alias(log: Log, more: Log, candidates: Seq<Seq<u8>>, canonical: Seq<u8>)
    ensures
        extends(
            alias_protocol(log, candidates, canonical),
            alias_protocol(log + more, candidates, canonical),
            more,
        ),
    decreases candidates.len(),
{
    if candidates.len() > 0 {
        let request = RequestView::Canonicalize(candidates.last());
        crate::session::steady_path(log, more, request);
        if let Step::Done(_, log) = path_reply(log, request) {
            steady_alias(log, more, candidates.drop_last(), canonical);
        }
    }
}

pub proof fn steady_link(
    log: Log,
    more: Log,
    link: Seq<u8>,
    root: SourceRootView,
    destination: Seq<u8>,
)
    ensures
        extends(
            link_protocol(log, link, root, destination),
            link_protocol(log + more, link, root, destination),
            more,
        ),
{
    steady_alias(log, more, ancestors_of(link), root.canonical);
}

pub proof fn steady_clone_file(log: Log, more: Log, source: Seq<u8>, destination: Seq<u8>)
    ensures
        extends(
            clone_file_protocol(log, source, destination),
            clone_file_protocol(log + more, source, destination),
            more,
        ),
{
    broadcast use crate::session::group_steady_replies;

}

} // verus!
