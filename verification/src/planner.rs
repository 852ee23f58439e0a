//! Planning what to carry over: a walk through the source, entry by entry.

use vstd::prelude::*;

use vstd::slice::slice_to_vec;
use vstd::utf8::encode_utf8;

use crate::clone::{disappeared, disappeared_protocol, Entry, EntryView, Survey, SurveyView};
use crate::encoding::{bytes_of, lossy, read_lossy};
use crate::errors::{failure, system, system_failure, Error, ErrorView};
use crate::git::{path_str, path_text};
use crate::order::{sorted, sorts};
use crate::paths;
use crate::paths::{
    ancestors, ancestors_of, below, components, join_path, law_normal, listed, normal, same_path,
    within,
};
use crate::pathset::{gathers, PathSet};
use crate::session::{
    answers, ask_metadata, ask_unit, ask_walk, extends, fails, follows, lemma_bytes, lemma_used_up,
    metadata_reply, stop, unit_reply, walk_reply, FileKind, IoError, Log, Metadata, Progress, Reply,
    Request, RequestView, Session, Step, Stop, WalkEntry, WalkFailure,
};
use crate::text;
use crate::text::cat;

verus! {

broadcast use lemma_bytes;

/// Whether a path or one above it is among `paths`.
pub open spec fn covered(paths: Seq<Seq<u8>>, p: Seq<u8>) -> bool {
    exists|k: int| 0 <= k < ancestors_of(p).len() && listed(paths, #[trigger] ancestors_of(p)[k])
}

/// Whether a directory lies above a path.
pub open spec fn lies_above(dir: Seq<u8>, p: Seq<u8>) -> bool {
    exists|j: int|
        1 <= j < ancestors_of(p).len() && same_path(#[trigger] ancestors_of(p)[j], dir)
}

/// Whether a directory lies above one of the paths.
pub open spec fn lies_above_any(dir: Seq<u8>, paths: Seq<Seq<u8>>) -> bool {
    exists|k: int| 0 <= k < paths.len() && lies_above(dir, #[trigger] paths[k])
}

impl SurveyView {
    /// Where the walk begins: at the source itself, or at each ignored entry.
    pub open spec fn roots(self) -> Seq<Seq<u8>> {
        if self.dirty {
            seq![Seq::empty()]
        } else {
            self.ignored
        }
    }

    /// Whether a path is ignored and neither holds nor is anything that must not
    /// be lost.
    pub open spec fn disposable(self, relative: Seq<u8>) -> bool {
        covered(self.ignored, relative) && !listed(self.protected, relative) && !lies_above_any(
            relative,
            self.protected,
        )
    }

    /// Whether an entry belongs to Git itself, to another worktree or to the
    /// destination.
    pub open spec fn off_limits(self, path: Seq<u8>, relative: Seq<u8>) -> bool {
        ||| components(relative).contains(encode_utf8(".git"@))
        ||| exists|k: int| 0 <= k < self.nested.len() && within(path, #[trigger] self.nested[k])
        ||| within(path, self.destination)
    }

    /// Whether an entry is left out at the user's wish. What is not ignored cannot
    /// be left out, nor what holds something that must not be lost.
    pub open spec fn left_out(self, relative: Seq<u8>, directory: bool) -> bool {
        &&& covered(self.ignored, relative)
        &&& covered(self.exclude, relative)
        &&& !(if directory {
            lies_above_any(relative, self.protected)
        } else {
            listed(self.protected, relative)
        })
    }
}

/// What came of an entry that the walk met.
#[derive(Debug)]
pub enum Visit {
    /// There was none: the walk is over.
    End,
    /// It is not carried over.
    Pass,
    /// It was to be carried over, and is gone.
    Gone(Vec<u8>),
    /// It is carried over.
    Take(Entry),
}

/// What a [`Visit`] says.
pub enum VisitView {
    End,
    Pass,
    Gone(Seq<u8>),
    Take(EntryView),
}

impl DeepView for Visit {
    type V = VisitView;

    open spec fn deep_view(&self) -> VisitView {
        match self {
            Visit::End => VisitView::End,
            Visit::Pass => VisitView::Pass,
            Visit::Gone(relative) => VisitView::Gone(relative@),
            Visit::Take(entry) => VisitView::Take(entry.deep_view()),
        }
    }
}

/// Passes an entry by; a directory with everything in it.
pub open spec fn leave_protocol(log: Log, directory: bool) -> Step<VisitView> {
    if directory {
        unit_reply(log, RequestView::SkipDirectory).bind(
            |_done: Result<(), IoError>, log: Log| Step::Done(VisitView::Pass, log),
        )
    } else {
        Step::Done(VisitView::Pass, log)
    }
}

fn leave<'a>(io: &mut Session<'a>, directory: bool) -> (r: Result<Visit, Stop>)
    ensures
        follows(r, final(io)@, leave_protocol(old(io)@, directory)),
{
    if directory {
        let _ = ask_unit(io, Request::SkipDirectory)?;
    }
    Ok(Visit::Pass)
}

/// The failure of a walk.
pub open spec fn walk_error(failure: WalkFailure) -> ErrorView {
    ErrorView { usage: false, chain: failure.causes.deep_view() }
}

/// What comes of a failure on the walk: an entry that may be gone, and is, is
/// passed by.
pub open spec fn broken_protocol(log: Log, s: SurveyView, failure: WalkFailure) -> Step<VisitView> {
    let error = walk_error(failure).wrap("reading source tree"@);
    match (failure.path, failure.kind) {
        (Some(path), Some(kind)) => match below(path@, s.source) {
            Some(relative) => if s.disposable(relative) {
                disappeared_protocol(log, kind, path@, true).bind(
                    |gone: bool, log: Log|
                        if gone {
                            Step::Done(VisitView::Pass, log)
                        } else {
                            Step::Fail(error, log)
                        },
                )
            } else {
                Step::Fail(error, log)
            },
            None => Step::Fail(error, log),
        },
        _ => Step::Fail(error, log),
    }
}

/// Whether a directory is a repository: it holds `.git`, or what a bare repository
/// holds.
pub open spec fn repository_protocol(log: Log, path: Seq<u8>) -> Step<bool> {
    metadata_reply(log, RequestView::SymlinkMetadata(join_path(path, encode_utf8(".git"@)))).bind(
        |administration: Result<Metadata, IoError>, log: Log|
            if administration is Ok {
                Step::Done(true, log)
            } else {
                kind_protocol(log, join_path(path, encode_utf8("HEAD"@)), FileKind::File).bind(
                    |head: bool, log: Log|
                        if !head {
                            Step::Done(false, log)
                        } else {
                            kind_protocol(
                                log,
                                join_path(path, encode_utf8("objects"@)),
                                FileKind::Directory,
                            ).bind(
                                |objects: bool, log: Log|
                                    if !objects {
                                        Step::Done(false, log)
                                    } else {
                                        kind_protocol(
                                            log,
                                            join_path(path, encode_utf8("refs"@)),
                                            FileKind::Directory,
                                        )
                                    },
                            )
                        },
                )
            },
    )
}

/// Whether a path leads to an entry of a kind.
pub open spec fn kind_protocol(log: Log, path: Seq<u8>, kind: FileKind) -> Step<bool> {
    metadata_reply(log, RequestView::Metadata(path)).bind(
        |outcome: Result<Metadata, IoError>, log: Log|
            Step::Done(outcome matches Ok(metadata) && metadata.kind == kind, log),
    )
}

fn is_kind<'a>(io: &mut Session<'a>, path: Vec<u8>, kind: FileKind) -> (r: Result<bool, Stop>)
    ensures
        follows(r, final(io)@, kind_protocol(old(io)@, path@, kind)),
{
    match ask_metadata(io, Request::Metadata(path))? {
        Ok(metadata) => Ok(metadata.kind == kind),
        Err(_) => Ok(false),
    }
}

fn is_repository<'a>(io: &mut Session<'a>, path: &[u8]) -> (r: Result<bool, Stop>)
    ensures
        follows(r, final(io)@, repository_protocol(old(io)@, path@)),
{
    let administration = paths::join(path, bytes_of(".git").as_slice());
    if let Ok(_) = ask_metadata(io, Request::SymlinkMetadata(administration))? {
        return Ok(true);
    }
    if !is_kind(io, paths::join(path, bytes_of("HEAD").as_slice()), FileKind::File)? {
        return Ok(false);
    }
    if !is_kind(io, paths::join(path, bytes_of("objects").as_slice()), FileKind::Directory)? {
        return Ok(false);
    }
    is_kind(io, paths::join(path, bytes_of("refs").as_slice()), FileKind::Directory)
}

/// Takes a directory with its mode.
pub open spec fn directory_entry_protocol(
    log: Log,
    s: SurveyView,
    path: Seq<u8>,
    relative: Seq<u8>,
) -> Step<VisitView> {
    metadata_reply(log, RequestView::SymlinkMetadata(path)).bind(
        |outcome: Result<Metadata, IoError>, log: Log|
            match outcome {
                Ok(metadata) => if metadata.kind != FileKind::Directory {
                    fails("source is no longer a directory: "@ + lossy(path), log)
                } else {
                    Step::Done(
                        VisitView::Take(
                            EntryView {
                                relative,
                                kind: FileKind::Directory,
                                disposable: s.disposable(relative),
                                directory_permissions: Some(metadata.mode),
                            },
                        ),
                        log,
                    )
                },
                Err(error) => disappeared_protocol(
                    log,
                    error.kind,
                    path,
                    s.disposable(relative),
                ).bind(
                    |gone: bool, log: Log|
                        if gone {
                            unit_reply(log, RequestView::SkipDirectory).bind(
                                |_done: Result<(), IoError>, log: Log|
                                    Step::Done(VisitView::Gone(relative), log),
                            )
                        } else {
                            Step::Fail(
                                system(error).wrap("planning source directory permissions"@),
                                log,
                            )
                        },
                ),
            },
    )
}

/// What comes of an entry that nothing forbids.
pub open spec fn wanted_protocol(
    log: Log,
    s: SurveyView,
    seen: Set<Seq<u8>>,
    path: Seq<u8>,
    relative: Seq<u8>,
    kind: FileKind,
) -> Step<VisitView> {
    let directory = kind == FileKind::Directory;
    if !s.dirty && listed(s.indexed, relative) {
        Step::Done(VisitView::Pass, log)
    } else if s.left_out(relative, directory) {
        leave_protocol(log, directory)
    } else if seen.contains(normal(relative)) {
        Step::Done(VisitView::Pass, log)
    } else if directory {
        directory_entry_protocol(log, s, path, relative)
    } else {
        Step::Done(
            VisitView::Take(
                EntryView {
                    relative,
                    kind,
                    disposable: s.disposable(relative),
                    directory_permissions: None,
                },
            ),
            log,
        )
    }
}

/// What comes of an entry below the source.
pub open spec fn found_protocol(
    log: Log,
    s: SurveyView,
    seen: Set<Seq<u8>>,
    path: Seq<u8>,
    relative: Seq<u8>,
    kind: FileKind,
) -> Step<VisitView> {
    let directory = kind == FileKind::Directory;
    if s.off_limits(path, relative) {
        leave_protocol(log, directory)
    } else if directory {
        repository_protocol(log, path).bind(
            |repository: bool, log: Log|
                if !repository {
                    wanted_protocol(log, s, seen, path, relative, kind)
                } else if s.dirty {
                    fails("dirty creation cannot copy nested repository "@ + lossy(path), log)
                } else {
                    leave_protocol(log, true)
                },
        )
    } else {
        wanted_protocol(log, s, seen, path, relative, kind)
    }
}

/// What comes of an entry that the walk met.
pub open spec fn met_protocol(log: Log, s: SurveyView, seen: Set<Seq<u8>>, entry: WalkEntry) -> Step<
    VisitView,
> {
    match below(entry.path@, s.source) {
        None => fails("prefix not found"@, log),
        Some(relative) => match path_text(relative) {
            Err(error) => Step::Fail(error, log),
            Ok(_) => if relative.len() == 0 {
                Step::Done(VisitView::Pass, log)
            } else {
                found_protocol(log, s, seen, entry.path@, relative, entry.kind)
            },
        },
    }
}

/// What comes of the next entry of the walk.
pub open spec fn visit_protocol(log: Log, s: SurveyView, seen: Set<Seq<u8>>) -> Step<VisitView> {
    walk_reply(log).bind(
        |met: Option<Result<WalkEntry, WalkFailure>>, log: Log|
            match met {
                None => Step::Done(VisitView::End, log),
                Some(Err(failure)) => broken_protocol(log, s, failure),
                Some(Ok(entry)) => met_protocol(log, s, seen, entry),
            },
    )
}

/// How far a plan has come.
#[verifier::ext_equal]
pub struct PlanState {
    /// The root that is walked.
    pub root: int,
    /// Whether the walk of that root has begun.
    pub open: bool,
    /// What was met, in its normal spelling.
    pub seen: Set<Seq<u8>>,
    /// What is carried over.
    pub entries: Seq<EntryView>,
}

impl PlanState {
    /// The beginning.
    pub open spec fn start() -> PlanState {
        PlanState { root: 0, open: false, seen: Set::empty(), entries: Seq::empty() }
    }

    /// After one more entry.
    pub open spec fn after(self, visit: VisitView) -> PlanState {
        match visit {
            VisitView::End => PlanState { root: self.root + 1, open: false, ..self },
            VisitView::Pass => self,
            VisitView::Gone(relative) => PlanState {
                seen: self.seen.insert(normal(relative)),
                ..self
            },
            VisitView::Take(entry) => PlanState {
                seen: self.seen.insert(normal(entry.relative)),
                entries: self.entries.push(entry),
                ..self
            },
        }
    }
}

/// The step of a plan that is next.
pub open spec fn stage_protocol(log: Log, s: SurveyView, state: PlanState) -> Step<PlanState> {
    if state.open {
        visit_protocol(log, s, state.seen).bind(
            |visit: VisitView, log: Log| Step::Done(state.after(visit), log),
        )
    } else {
        unit_reply(
            log,
            RequestView::OpenWalk(join_path(s.source, s.roots()[state.root])),
        ).bind(
            |_done: Result<(), IoError>, log: Log|
                Step::Done(PlanState { open: true, ..state }, log),
        )
    }
}

/// What is planned, in the order in which it was met: each root is walked, and each
/// entry that is met is taken or passed by.
pub open spec fn survey_protocol(log: Log, s: SurveyView, state: PlanState) -> Step<Seq<EntryView>>
    decreases log.len(),
{
    if !(0 <= state.root < s.roots().len()) {
        Step::Done(state.entries, log)
    } else {
        proof {
            lemma_stage_uses(log, s, state);
        }
        match stage_protocol(log, s, state) {
            Step::Ask(request) => Step::Ask(request),
            Step::Stray => Step::Stray,
            Step::Fail(error, log) => Step::Fail(error, log),
            Step::Done(next, rest) => survey_protocol(rest, s, next),
        }
    }
}

/// Every step uses an answer.
pub proof fn lemma_stage_uses(log: Log, s: SurveyView, state: PlanState)
    ensures
        stage_protocol(log, s, state) matches Step::Done(_, rest) ==> rest.len() < log.len(),
{
}

/// No step asks for another plan or a population.
pub proof fn lemma_stage_is_performable(log: Log, s: SurveyView, state: PlanState)
    ensures
        stage_protocol(log, s, state) matches Step::Ask(request) ==> request.performable(),
{
}

/// The survey, with its lists as sets.
pub struct Ground {
    survey: Survey,
    indexed: PathSet,
    protected: PathSet,
    protected_directories: PathSet,
    ignored: PathSet,
    excluded: PathSet,
}

impl View for Ground {
    type V = SurveyView;

    closed spec fn view(&self) -> SurveyView {
        self.survey.deep_view()
    }
}

/// The directories above the paths of a vector.
fn directories_above(paths: &Vec<Vec<u8>>) -> (r: PathSet)
    ensures
        forall|d: Seq<u8>|
            #![trigger normal(d)]
            r@.contains(normal(d)) <==> lies_above_any(d, paths.deep_view()),
{
    let ghost all = paths.deep_view();
    let mut r = PathSet::new();
    let mut i: usize = 0;
    while i < paths.len()
        invariant
            i <= paths@.len(),
            all == paths.deep_view(),
            forall|d: Seq<u8>|
                #![trigger normal(d)]
                r@.contains(normal(d)) <==> lies_above_any(d, all.take(i as int)),
        decreases paths@.len() - i,
    {
        let chain = ancestors(paths[i].as_slice());
        let ghost p = paths@[i as int]@;
        let ghost some = all.take(i as int);
        let ghost before = r@;
        assert(all[i as int] == p);
        let mut j: usize = 1;
        while j < chain.len()
            invariant
                1 <= j,
                chain@.len() >= 1 ==> j <= chain@.len(),
                chain@.len() == ancestors_of(p).len(),
                forall|k: int|
                    0 <= k < chain@.len() ==> (#[trigger] chain@[k])@ == ancestors_of(p)[k],
                forall|d: Seq<u8>|
                    #![trigger normal(d)]
                    r@.contains(normal(d)) <==> before.contains(normal(d)) || exists|k: int|
                        1 <= k < j && k < ancestors_of(p).len() && same_path(
                            #[trigger] ancestors_of(p)[k],
                            d,
                        ),
            decreases chain@.len() - j,
        {
            let ghost middle = r@;
            r.insert(chain[j].as_slice());
            proof {
                let a = ancestors_of(p)[j as int];
                assert forall|d: Seq<u8>|
                    #![trigger normal(d)]
                    r@.contains(normal(d)) <==> before.contains(normal(d)) || exists|k: int|
                        1 <= k < j + 1 && k < ancestors_of(p).len() && same_path(
                            #[trigger] ancestors_of(p)[k],
                            d,
                        ) by {
                    law_normal(a, d);
                    assert(r@.contains(normal(d)) <==> middle.contains(normal(d)) || normal(d)
                        == normal(a));
                    if same_path(a, d) {
                        assert(same_path(ancestors_of(p)[j as int], d));
                    }
                }
            }
            j = j + 1;
        }
        proof {
            let wide = all.take(i + 1);
            assert(wide =~= some.push(p));
            assert forall|d: Seq<u8>|
                #![trigger normal(d)]
                r@.contains(normal(d)) <==> lies_above_any(d, wide) by {
                assert(before.contains(normal(d)) <==> lies_above_any(d, some));
                if lies_above_any(d, some) {
                    let k = choose|k: int| 0 <= k < some.len() && lies_above(d, #[trigger] some[k]);
                    assert(lies_above(d, wide[k]));
                }
                if lies_above(d, p) {
                    assert(lies_above(d, wide[i as int]));
                }
                if lies_above_any(d, wide) {
                    let k = choose|k: int| 0 <= k < wide.len() && lies_above(d, #[trigger] wide[k]);
                    if k < some.len() {
                        assert(lies_above(d, some[k]));
                    } else {
                        assert(lies_above(d, p));
                    }
                }
            }
        }
        i = i + 1;
    }
    assert(all.take(i as int) =~= all);
    r
}

impl Ground {
    /// Whether the sets are those of the survey.
    pub closed spec fn sound(&self) -> bool {
        &&& gathers(self.indexed@, self@.indexed)
        &&& gathers(self.protected@, self@.protected)
        &&& gathers(self.ignored@, self@.ignored)
        &&& gathers(self.excluded@, self@.exclude)
        &&& forall|d: Seq<u8>|
            #![trigger normal(d)]
            self.protected_directories@.contains(normal(d)) <==> lies_above_any(d, self@.protected)
    }

    /// The ground of a survey.
    pub fn new(survey: Survey) -> (r: Ground)
        ensures
            r@ == survey.deep_view(),
            r.sound(),
    {
        let indexed = PathSet::of(&survey.indexed);
        let protected = PathSet::of(&survey.protected);
        let protected_directories = directories_above(&survey.protected);
        let ignored = PathSet::of(&survey.ignored);
        let excluded = PathSet::of(&survey.exclude);
        Ground { survey, indexed, protected, protected_directories, ignored, excluded }
    }

    fn is_ignored(&self, relative: &[u8]) -> (r: bool)
        requires
            self.sound(),
        ensures
            r == covered(self@.ignored, relative@),
    {
        self.ignored.holds_above(relative)
    }

    fn is_excluded(&self, relative: &[u8]) -> (r: bool)
        requires
            self.sound(),
        ensures
            r == covered(self@.exclude, relative@),
    {
        self.excluded.holds_above(relative)
    }

    fn is_disposable(&self, relative: &[u8]) -> (r: bool)
        requires
            self.sound(),
        ensures
            r == self@.disposable(relative@),
    {
        self.is_ignored(relative) && !self.protected.contains(relative)
            && !self.protected_directories.contains(relative)
    }

    fn is_off_limits(&self, path: &[u8], relative: &[u8]) -> (r: bool)
        ensures
            r == self@.off_limits(path@, relative@),
    {
        if paths::has_component(relative, bytes_of(".git").as_slice()) {
            return true;
        }
        let nested = &self.survey.nested;
        let ghost trees = nested.deep_view();
        let mut i: usize = 0;
        while i < nested.len()
            invariant
                i <= nested@.len(),
                trees == nested.deep_view(),
                trees == self@.nested,
                forall|k: int| 0 <= k < i ==> !within(path@, #[trigger] trees[k]),
            decreases nested@.len() - i,
        {
            assert(trees[i as int] == nested@[i as int]@);
            if paths::starts_with(path, nested[i].as_slice()) {
                return true;
            }
            i = i + 1;
        }
        paths::starts_with(path, self.survey.destination.as_slice())
    }

    fn is_left_out(&self, relative: &[u8], directory: bool) -> (r: bool)
        requires
            self.sound(),
        ensures
            r == self@.left_out(relative@, directory),
    {
        if !self.is_ignored(relative) || !self.is_excluded(relative) {
            return false;
        }
        if directory {
            !self.protected_directories.contains(relative)
        } else {
            !self.protected.contains(relative)
        }
    }

    fn broken<'a>(&self, io: &mut Session<'a>, failure: &WalkFailure) -> (r: Result<Visit, Stop>)
        requires
            self.sound(),
        ensures
            follows(r, final(io)@, broken_protocol(old(io)@, self@, *failure)),
    {
        let error = Error { usage: false, chain: text::copied(&failure.causes) };
        let error = error.context("reading source tree");
        if let Some(path) = &failure.path {
            if let Some(kind) = failure.kind {
                if let Some(relative) = paths::strip_prefix(
                    path.as_slice(),
                    self.survey.source.as_slice(),
                ) {
                    if self.is_disposable(relative.as_slice()) {
                        if disappeared(io, kind, path.as_slice(), true)? {
                            return Ok(Visit::Pass);
                        }
                    }
                }
            }
        }
        Err(Stop::Fail(error))
    }

    fn directory_entry<'a>(&self, io: &mut Session<'a>, path: &[u8], relative: Vec<u8>) -> (r: Result<
        Visit,
        Stop,
    >)
        requires
            self.sound(),
        ensures
            follows(r, final(io)@, directory_entry_protocol(old(io)@, self@, path@, relative@)),
    {
        let disposable = self.is_disposable(relative.as_slice());
        match ask_metadata(io, Request::SymlinkMetadata(slice_to_vec(path)))? {
            Ok(metadata) => {
                if metadata.kind != FileKind::Directory {
                    let message = cat(
                        "source is no longer a directory: ",
                        read_lossy(path).as_str(),
                    );
                    return Err(stop(message.as_str()));
                }
                Ok(
                    Visit::Take(
                        Entry {
                            relative,
                            kind: FileKind::Directory,
                            disposable,
                            directory_permissions: Some(metadata.mode),
                        },
                    ),
                )
            },
            Err(error) => {
                if disappeared(io, error.kind, path, disposable)? {
                    let _ = ask_unit(io, Request::SkipDirectory)?;
                    return Ok(Visit::Gone(relative));
                }
                Err(
                    Stop::Fail(
                        system_failure(error).context("planning source directory permissions"),
                    ),
                )
            },
        }
    }

    fn wanted<'a>(
        &self,
        io: &mut Session<'a>,
        seen: &PathSet,
        path: &[u8],
        relative: Vec<u8>,
        kind: FileKind,
    ) -> (r: Result<Visit, Stop>)
        requires
            self.sound(),
        ensures
            follows(
                r,
                final(io)@,
                wanted_protocol(old(io)@, self@, seen@, path@, relative@, kind),
            ),
    {
        let directory = kind == FileKind::Directory;
        if !self.survey.dirty && self.indexed.contains(relative.as_slice()) {
            return Ok(Visit::Pass);
        }
        if self.is_left_out(relative.as_slice(), directory) {
            return leave(io, directory);
        }
        if seen.contains(relative.as_slice()) {
            return Ok(Visit::Pass);
        }
        if directory {
            return self.directory_entry(io, path, relative);
        }
        let disposable = self.is_disposable(relative.as_slice());
        Ok(Visit::Take(Entry { relative, kind, disposable, directory_permissions: None }))
    }

    fn found<'a>(
        &self,
        io: &mut Session<'a>,
        seen: &PathSet,
        path: &[u8],
        relative: Vec<u8>,
        kind: FileKind,
    ) -> (r: Result<Visit, Stop>)
        requires
            self.sound(),
        ensures
            follows(
                r,
                final(io)@,
                found_protocol(old(io)@, self@, seen@, path@, relative@, kind),
            ),
    {
        let directory = kind == FileKind::Directory;
        if self.is_off_limits(path, relative.as_slice()) {
            return leave(io, directory);
        }
        if directory {
            if is_repository(io, path)? {
                if self.survey.dirty {
                    let message = cat(
                        "dirty creation cannot copy nested repository ",
                        read_lossy(path).as_str(),
                    );
                    return Err(stop(message.as_str()));
                }
                return leave(io, true);
            }
        }
        self.wanted(io, seen, path, relative, kind)
    }

    /// What comes of the next entry of the walk.
    fn visit<'a>(&self, io: &mut Session<'a>, seen: &PathSet) -> (r: Result<Visit, Stop>)
        requires
            self.sound(),
        ensures
            follows(r, final(io)@, visit_protocol(old(io)@, self@, seen@)),
    {
        match ask_walk(io)? {
            None => Ok(Visit::End),
            Some(Err(failure)) => self.broken(io, failure),
            Some(Ok(entry)) => {
                match paths::strip_prefix(entry.path.as_slice(), self.survey.source.as_slice()) {
                    None => Err(stop("prefix not found")),
                    Some(relative) => {
                        if let Err(error) = path_str(relative.as_slice()) {
                            return Err(Stop::Fail(error));
                        }
                        if relative.len() == 0 {
                            return Ok(Visit::Pass);
                        }
                        self.found(io, seen, entry.path.as_slice(), relative, entry.kind)
                    },
                }
            },
        }
    }
}

pub proof fn steady_leave(log: Log, more: Log, directory: bool)
    ensures
        extends(leave_protocol(log, directory), leave_protocol(log + more, directory), more),
{
    broadcast use crate::session::group_steady_replies;

}

proof fn steady_broken(log: Log, more: Log, s: SurveyView, failure: WalkFailure)
    ensures
        extends(broken_protocol(log, s, failure), broken_protocol(log + more, s, failure), more),
{
    broadcast use crate::session::group_steady_replies;

}

pub proof fn steady_repository(log: Log, more: Log, path: Seq<u8>)
    ensures
        extends(repository_protocol(log, path), repository_protocol(log + more, path), more),
{
    broadcast use crate::session::group_steady_replies;

}

proof fn steady_directory_entry(
    log: Log,
    more: Log,
    s: SurveyView,
    path: Seq<u8>,
    relative: Seq<u8>,
)
    ensures
        extends(
            directory_entry_protocol(log, s, path, relative),
            directory_entry_protocol(log + more, s, path, relative),
            more,
        ),
{
    broadcast use crate::session::group_steady_replies;

}

pub proof fn steady_wanted(
    log: Log,
    more: Log,
    s: SurveyView,
    seen: Set<Seq<u8>>,
    path: Seq<u8>,
    relative: Seq<u8>,
    kind: FileKind,
)
    ensures
        extends(
            wanted_protocol(log, s, seen, path, relative, kind),
            wanted_protocol(log + more, s, seen, path, relative, kind),
            more,
        ),
{
    steady_leave(log, more, kind == FileKind::Directory);
    steady_directory_entry(log, more, s, path, relative);
}

proof fn steady_found(
    log: Log,
    more: Log,
    s: SurveyView,
    seen: Set<Seq<u8>>,
    path: Seq<u8>,
    relative: Seq<u8>,
    kind: FileKind,
)
    ensures
        extends(
            found_protocol(log, s, seen, path, relative, kind),
            found_protocol(log + more, s, seen, path, relative, kind),
            more,
        ),
{
    steady_leave(log, more, kind == FileKind::Directory);
    steady_wanted(log, more, s, seen, path, relative, kind);
    steady_repository(log, more, path);
    if let Step::Done(_, log) = repository_protocol(log, path) {
        steady_leave(log, more, true);
        steady_wanted(log, more, s, seen, path, relative, kind);
    }
}

proof fn steady_visit(log: Log, more: Log, s: SurveyView, seen: Set<Seq<u8>>)
    ensures
        extends(visit_protocol(log, s, seen), visit_protocol(log + more, s, seen), more),
{
    crate::session::steady_walk(log, more);
    if let Step::Done(met, log) = walk_reply(log) {
        match met {
            None => {},
            Some(Err(failure)) => {
                steady_broken(log, more, s, failure);
            },
            Some(Ok(entry)) => {
                if let Some(relative) = below(entry.path@, s.source) {
                    steady_found(log, more, s, seen, entry.path@, relative, entry.kind);
                }
            },
        }
    }
}

/// A step of a plan that is done stays done, whatever is answered later.
pub proof fn steady_stage(log: Log, more: Log, s: SurveyView, state: PlanState)
    ensures
        extends(stage_protocol(log, s, state), stage_protocol(log + more, s, state), more),
{
    steady_visit(log, more, s, state.seen);
    crate::session::steady_unit(
        log,
        more,
        RequestView::OpenWalk(join_path(s.source, s.roots()[state.root])),
    );
}

/// How a plan goes on: what the next step asks for is to be performed; a step that is
/// done is behind it, with the answers that it used; and once every root was walked,
/// what was met is put in order.
pub open spec fn plan_advances(before: Planner, r: Progress<Vec<Entry>>, after: Planner) -> bool {
    if before.is_over() {
        r matches Progress::Finished(Ok(entries)) && sorts(
            before.state().entries,
            entries.deep_view(),
        )
    } else {
        match stage_protocol(before.log(), before.survey(), before.state()) {
            Step::Ask(request) => {
                &&& r matches Progress::Perform(asked) && asked.deep_view() == request
                &&& after.state() == before.state()
                &&& after.log() == before.log()
            },
            Step::Stray => r is Stray,
            Step::Fail(error, _) => r matches Progress::Finished(Err(failed)) && failed.deep_view()
                == error,
            Step::Done(next, rest) => if rest.len() > 0 {
                r is Stray
            } else {
                &&& r is Working
                &&& after.state() == next
                &&& after.log() == Log::empty()
            },
        }
    }
}

/// What a plan that was made from these answers comes to: what it asks for, the failure
/// that ended it, or what was met, in order.
pub open spec fn plan_comes_to(
    answers: Log,
    survey: SurveyView,
    r: Progress<Vec<Entry>>,
) -> bool {
    let step = survey_protocol(answers, survey, PlanState::start());
    match r {
        Progress::Perform(request) => step == Step::<Seq<EntryView>>::Ask(request.deep_view()),
        Progress::Finished(Ok(entries)) => step matches Step::Done(met, _) && sorts(
            met,
            entries.deep_view(),
        ),
        Progress::Finished(Err(error)) => step matches Step::Fail(failed, _) && failed
            == error.deep_view(),
        _ => true,
    }
}

/// A plan being made.
pub struct Planner {
    ground: Ground,
    root: usize,
    open: bool,
    seen: PathSet,
    entries: Vec<Entry>,
    log: Vec<Reply>,
    answers: Ghost<Log>,
}

impl Planner {
    /// What the plan is made from.
    pub closed spec fn survey(&self) -> SurveyView {
        self.ground@
    }

    /// How far the plan has come.
    pub closed spec fn state(&self) -> PlanState {
        PlanState {
            root: self.root as int,
            open: self.open,
            seen: self.seen@,
            entries: self.entries.deep_view(),
        }
    }

    /// The answers that were not used yet.
    pub closed spec fn log(&self) -> Log {
        self.log@
    }

    /// Everything that was answered.
    pub closed spec fn answers(&self) -> Log {
        self.answers@
    }

    /// Whether the plan can go on.
    pub closed spec fn valid(&self) -> bool {
        self.ground.sound()
    }

    /// Whether the plan comes out where the answers from its beginning on lead.
    pub open spec fn faithful(&self) -> bool {
        forall|more: Log| #[trigger]
            self.outcome(more) == survey_protocol(
                self.answers() + more,
                self.survey(),
                PlanState::start(),
            )
    }

    /// Where the plan comes out if nothing but `more` is answered from now on.
    pub open spec fn outcome(&self, more: Log) -> Step<Seq<EntryView>> {
        survey_protocol(self.log() + more, self.survey(), self.state())
    }

    /// Whether every root was walked.
    pub open spec fn is_over(&self) -> bool {
        !(0 <= self.state().root < self.survey().roots().len())
    }

    /// A plan that has not begun.
    pub fn new(survey: Survey) -> (r: Planner)
        ensures
            r.valid(),
            r.survey() == survey.deep_view(),
            r.state() == PlanState::start(),
            r.log() == Log::empty(),
            r.answers() == Log::empty(),
            r.faithful(),
    {
        let r = Planner {
            ground: Ground::new(survey),
            root: 0,
            open: false,
            seen: PathSet::new(),
            entries: Vec::new(),
            log: Vec::new(),
            answers: Ghost(Log::empty()),
        };
        assert(r.state() =~= PlanState::start());
        r
    }

    /// Takes the answer to the request that was made last.
    pub fn answer(&mut self, reply: Reply)
        requires
            old(self).valid(),
        ensures
            final(self).valid(),
            final(self).survey() == old(self).survey(),
            final(self).state() == old(self).state(),
            final(self).log() == old(self).log().push(reply),
            final(self).answers() == old(self).answers().push(reply),
            old(self).faithful() ==> final(self).faithful(),
    {
        self.log.push(reply);
        self.answers = Ghost(self.answers@.push(reply));
        proof {
            assert forall|more: Log| old(self).faithful() implies #[trigger] self.outcome(more)
                == survey_protocol(self.answers() + more, self.survey(), PlanState::start()) by {
                let later = seq![reply] + more;
                assert(self.log() + more =~= old(self).log() + later);
                assert(self.answers() + more =~= old(self).answers() + later);
                assert(old(self).outcome(later) == survey_protocol(
                    old(self).answers() + later,
                    old(self).survey(),
                    PlanState::start(),
                ));
                assert(self.state() =~= old(self).state());
            }
        }
    }

    /// The failure or result of the step that is next, if the answers suffice, and
    /// whether they were all used.
    fn try_visit(&self) -> (r: (Result<Visit, Stop>, bool))
        requires
            self.valid(),
        ensures
            exists|rest: Log| #[trigger]
                follows(r.0, rest, visit_protocol(self.log@, self.ground@, self.seen@)) && r.1 == (
                rest.len() == 0),
    {
        let mut io = Session::new(self.log.as_slice());
        let visit = self.ground.visit(&mut io, &self.seen);
        let over = io.is_over();
        let r = (visit, over);
        assert(follows(r.0, io@, visit_protocol(self.log@, self.ground@, self.seen@)));
        r
    }

    fn try_open(&self) -> (r: (Result<(), Stop>, bool))
        requires
            self.valid(),
            self.root < self.ground@.roots().len(),
        ensures
            ({
                let step = unit_reply(
                    self.log@,
                    RequestView::OpenWalk(
                        join_path(self.ground@.source, self.ground@.roots()[self.root as int]),
                    ),
                );
                match step {
                    Step::Ask(request) => r.0 matches Err(Stop::Ask(asked)) && asked.deep_view()
                        == request,
                    Step::Stray => r.0 matches Err(Stop::Stray),
                    Step::Fail(_, _) => false,
                    Step::Done(_, rest) => r.0 is Ok && r.1 == (rest.len() == 0),
                }
            }),
    {
        let survey = &self.ground.survey;
        let path = if survey.dirty {
            let top: Vec<u8> = Vec::new();
            paths::join(survey.source.as_slice(), top.as_slice())
        } else {
            paths::join(survey.source.as_slice(), survey.ignored[self.root].as_slice())
        };
        let mut io = Session::new(self.log.as_slice());
        match ask_unit(&mut io, Request::OpenWalk(path)) {
            Ok(_) => (Ok(()), io.is_over()),
            Err(stopped) => (Err(stopped), io.is_over()),
        }
    }

    fn root_count(&self) -> (r: usize)
        ensures
            r == self.ground@.roots().len(),
    {
        if self.ground.survey.dirty {
            1
        } else {
            self.ground.survey.ignored.len()
        }
    }

    /// Goes one step, if the answers suffice.
    pub fn advance(&mut self) -> (r: Progress<Vec<Entry>>)
        requires
            old(self).valid(),
        ensures
            final(self).valid(),
            final(self).survey() == old(self).survey(),
            plan_advances(*old(self), r, *final(self)),
            r is Working ==> forall|more: Log| #[trigger]
                final(self).outcome(more) == old(self).outcome(more),
            final(self).answers() == old(self).answers(),
            old(self).faithful() ==> plan_comes_to(old(self).answers(), old(self).survey(), r),
            old(self).faithful() && (r is Perform || r is Working) ==> final(self).faithful(),
    {
        proof {
            let none = Log::empty();
            assert(self.log() + none =~= self.log());
            assert(self.answers() + none =~= self.answers());
            if self.faithful() {
                assert(self.outcome(none) == survey_protocol(
                    self.answers(),
                    self.survey(),
                    PlanState::start(),
                ));
            }
        }
        let ghost log = self.log();
        let ghost s = self.survey();
        let ghost state = self.state();
        assert(log + Log::empty() =~= log);
        if self.root >= self.root_count() {
            let mut entries: Vec<Entry> = Vec::new();
            std::mem::swap(&mut self.entries, &mut entries);
            return Progress::Finished(Ok(sorted(entries)));
        }
        if !self.open {
            let (opened, over) = self.try_open();
            match opened {
                Err(Stop::Ask(request)) => Progress::Perform(request),
                Err(_) => Progress::Stray,
                Ok(_) => {
                    if !over {
                        return Progress::Stray;
                    }
                    self.open = true;
                    self.log = Vec::new();
                    proof {
                        assert forall|more: Log| #[trigger]
                            self.outcome(more) == old(self).outcome(more) by {
                            steady_stage(log, more, s, state);
                            lemma_used_up(more);
                            assert(self.log() + more =~= more);
                            assert(self.state() =~= (PlanState { open: true, ..state }));
                        }
                    }
                    Progress::Working
                },
            }
        } else {
            let (visit, over) = self.try_visit();
            match visit {
                Err(Stop::Ask(request)) => Progress::Perform(request),
                Err(Stop::Stray) => Progress::Stray,
                Err(Stop::Fail(error)) => Progress::Finished(Err(error)),
                Ok(visit) => {
                    if !over {
                        return Progress::Stray;
                    }
                    let ghost met = visit.deep_view();
                    self.commit(visit);
                    self.log = Vec::new();
                    proof {
                        assert forall|more: Log| #[trigger]
                            self.outcome(more) == old(self).outcome(more) by {
                            steady_stage(log, more, s, state);
                            lemma_used_up(more);
                            assert(self.log() + more =~= more);
                            assert(self.state() =~= state.after(met));
                        }
                    }
                    Progress::Working
                },
            }
        }
    }

    fn commit(&mut self, visit: Visit)
        requires
            old(self).valid(),
            old(self).root < old(self).ground@.roots().len(),
        ensures
            final(self).valid(),
            final(self).ground == old(self).ground,
            final(self).log == old(self).log,
            final(self).answers == old(self).answers,
            final(self).state() == old(self).state().after(visit.deep_view()),
    {
        match visit {
            Visit::End => {
                if self.root < self.root_count() {
                    self.root = self.root + 1;
                }
                self.open = false;
            },
            Visit::Pass => {},
            Visit::Gone(relative) => {
                let _ = self.seen.insert(relative.as_slice());
            },
            Visit::Take(entry) => {
                let _ = self.seen.insert(entry.relative.as_slice());
                let ghost before = self.entries.deep_view();
                self.entries.push(entry);
                assert(self.entries.deep_view() =~= before.push(entry.deep_view()));
            },
        }
        assert(self.state() =~= old(self).state().after(visit.deep_view()));
    }
}

} // verus!
