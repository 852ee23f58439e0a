//! Carrying over what was planned, entry by entry, and giving the new directories
//! the modes of the old ones.

use vstd::prelude::*;

use vstd::slice::slice_to_vec;
use vstd::utf8::encode_utf8;

use crate::clone::{disappeared, disappeared_protocol, Entry, EntryView, Stats};
use crate::encoding::{bytes_of, lossy, read_lossy};
use crate::errors::{failure, plain, system, system_failure};
use crate::native::{
    clone_file, clone_file_protocol, lemma_link_is_performable, link_protocol, source_root_protocol, steady_clone_file,
    steady_link, steady_source_root, SourceRoot, SourceRootView,
};
use crate::paths;
use crate::paths::{below, components, join_path, parent_of, same_path};
use crate::session::{
    answers, ask_metadata, ask_path, ask_unit, extends, fails, follows, lemma_bytes, lemma_used_up,
    metadata_reply, path_reply, stop, stop_system, unit_reply, ErrorKind, FileKind, IoError,
    IoErrorView, Log, Metadata, Progress, Reply, Request, RequestView, Session, Step, Stop,
};
use crate::text::{cat, cat3};

verus! {

broadcast use lemma_bytes;

/// Creates the directories that are missing on the way down from `current`. A
/// symbolic link or a file on the way is not passed.
pub open spec fn directories_protocol(
    log: Log,
    current: Seq<u8>,
    words: Seq<Seq<u8>>,
    created: Seq<Seq<u8>>,
) -> Step<(bool, Seq<Seq<u8>>)>
    decreases words.len(),
{
    if words.len() == 0 {
        Step::Done((true, created), log)
    } else {
        let next = join_path(current, words[0]);
        match metadata_reply(log, RequestView::SymlinkMetadata(next)) {
            Step::Ask(request) => Step::Ask(request),
            Step::Stray => Step::Stray,
            Step::Fail(error, log) => Step::Fail(error, log),
            Step::Done(Ok(metadata), log) => if metadata.kind == FileKind::Directory {
                directories_protocol(log, next, words.drop_first(), created)
            } else {
                Step::Done((false, created), log)
            },
            Step::Done(Err(error), log) => if error.kind != ErrorKind::NotFound {
                Step::Fail(system(error), log)
            } else {
                match unit_reply(log, RequestView::CreateDirectory(next)) {
                    Step::Ask(request) => Step::Ask(request),
                    Step::Stray => Step::Stray,
                    Step::Fail(error, log) => Step::Fail(error, log),
                    Step::Done(Err(error), log) => Step::Fail(system(error), log),
                    Step::Done(Ok(_), log) => directories_protocol(
                        log,
                        next,
                        words.drop_first(),
                        created.push(next),
                    ),
                }
            },
        }
    }
}

fn directories_from<'a>(
    io: &mut Session<'a>,
    current: Vec<u8>,
    words: &Vec<Vec<u8>>,
    from: usize,
    created: Vec<Vec<u8>>,
) -> (r: Result<(bool, Vec<Vec<u8>>), Stop>)
    requires
        from <= words@.len(),
    ensures
        follows(
            r,
            final(io)@,
            directories_protocol(
                old(io)@,
                current@,
                words.deep_view().skip(from as int),
                created.deep_view(),
            ),
        ),
    decreases words@.len() - from,
{
    let ghost left = words.deep_view().skip(from as int);
    if from == words.len() {
        return Ok((true, created));
    }
    assert(left[0] == words@[from as int]@);
    assert(left.drop_first() =~= words.deep_view().skip(from + 1));
    let next = paths::join(current.as_slice(), words[from].as_slice());
    match ask_metadata(io, Request::SymlinkMetadata(slice_to_vec(next.as_slice())))? {
        Ok(metadata) => {
            if metadata.kind != FileKind::Directory {
                return Ok((false, created));
            }
            directories_from(io, next, words, from + 1, created)
        },
        Err(error) => {
            if error.kind != ErrorKind::NotFound {
                return Err(stop_system(error));
            }
            if let Err(error) = ask_unit(
                io,
                Request::CreateDirectory(slice_to_vec(next.as_slice())),
            )? {
                return Err(stop_system(error));
            }
            let ghost before = created.deep_view();
            let mut created = created;
            created.push(slice_to_vec(next.as_slice()));
            assert(created.deep_view() =~= before.push(next@));
            directories_from(io, next, words, from + 1, created)
        },
    }
}

/// Creates the directories that are missing in the destination on the way to
/// `relative`; whether the way is free, and what was created.
pub fn directories<'a>(io: &mut Session<'a>, destination: &[u8], relative: &[u8]) -> (r: Result<
    (bool, Vec<Vec<u8>>),
    Stop,
>)
    ensures
        follows(
            r,
            final(io)@,
            directories_protocol(old(io)@, destination@, components(relative@), Seq::empty()),
        ),
{
    let words = paths::component_list(relative);
    let created: Vec<Vec<u8>> = Vec::new();
    assert(created.deep_view() =~= Seq::<Seq<u8>>::empty());
    assert(words.deep_view().skip(0) =~= components(relative@));
    directories_from(io, slice_to_vec(destination), &words, 0, created)
}

/// What was done for an entry.
#[derive(Debug, Clone, Copy, PartialEq, Eq, Structural)]
pub enum Deed {
    /// Nothing that is counted.
    Nothing,
    /// A symbolic link was created.
    Linked,
    /// A file of this length was cloned.
    Cloned(u64),
}

impl DeepView for Deed {
    type V = Deed;

    open spec fn deep_view(&self) -> Deed {
        *self
    }
}

/// Creates a symbolic link, unless there is an entry of that name by now.
pub open spec fn create_link_protocol(log: Log, target: Seq<u8>, path: Seq<u8>) -> Step<Deed> {
    unit_reply(log, RequestView::Link { target, path }).bind(
        |outcome: Result<(), IoError>, log: Log|
            match outcome {
                Ok(_) => Step::Done(Deed::Linked, log),
                Err(error) => if error.kind == ErrorKind::AlreadyExists {
                    Step::Done(Deed::Nothing, log)
                } else {
                    Step::Fail(system(error).wrap("creating symlink"@), log)
                },
            },
    )
}

/// Carries a symbolic link over.
pub open spec fn place_link_protocol(
    log: Log,
    root: SourceRootView,
    from: Seq<u8>,
    to: Seq<u8>,
    destination: Seq<u8>,
    disposable: bool,
) -> Step<Deed> {
    path_reply(log, RequestView::ReadLink(from)).bind(
        |outcome: Result<Vec<u8>, IoError>, log: Log|
            match outcome {
                Err(error) => disappeared_protocol(log, error.kind, from, disposable).bind(
                    |gone: bool, log: Log|
                        if gone {
                            Step::Done(Deed::Nothing, log)
                        } else {
                            Step::Fail(system(error).wrap("reading source symlink"@), log)
                        },
                ),
                Ok(link) => link_protocol(log, link@, root, destination).bind(
                    |target: Seq<u8>, log: Log| create_link_protocol(log, target, to),
                ),
            },
    )
}

/// Carries a regular file over.
pub open spec fn place_file_protocol(log: Log, from: Seq<u8>, to: Seq<u8>, disposable: bool) -> Step<
    Deed,
> {
    clone_file_protocol(log, from, to).bind(
        |outcome: Result<u64, IoErrorView>, log: Log|
            match outcome {
                Ok(size) => Step::Done(Deed::Cloned(size), log),
                Err(error) => if error.kind == ErrorKind::AlreadyExists {
                    Step::Done(Deed::Nothing, log)
                } else {
                    disappeared_protocol(log, error.kind, from, disposable).bind(
                        |gone: bool, log: Log|
                            if gone {
                                Step::Done(Deed::Nothing, log)
                            } else {
                                Step::Fail(plain(error.text).wrap("cloning "@ + lossy(from)), log)
                            },
                    )
                },
            },
    )
}

/// What is said of an entry that is neither file, directory nor link.
pub open spec fn special_notice(from: Seq<u8>) -> Seq<u8> {
    encode_utf8("git-wt: skipping special file "@ + lossy(from) + "\n"@)
}

/// Reports an entry that is neither file, directory nor link.
pub open spec fn report_special_protocol(log: Log, from: Seq<u8>) -> Step<Deed> {
    unit_reply(log, RequestView::Report(special_notice(from))).bind(
        |outcome: Result<(), IoError>, log: Log|
            match outcome {
                Ok(_) => Step::Done(Deed::Nothing, log),
                Err(error) => Step::Fail(system(error).wrap("writing clone diagnostics"@), log),
            },
    )
}

/// Carries an entry over that is no directory and whose directory is there. An
/// entry of that name stays as it is.
pub open spec fn place_leaf_protocol(
    log: Log,
    root: SourceRootView,
    source: Seq<u8>,
    destination: Seq<u8>,
    entry: EntryView,
) -> Step<Deed> {
    let from = join_path(source, entry.relative);
    let to = join_path(destination, entry.relative);
    metadata_reply(log, RequestView::SymlinkMetadata(to)).bind(
        |outcome: Result<Metadata, IoError>, log: Log|
            match outcome {
                Ok(_) => Step::Done(Deed::Nothing, log),
                Err(error) => if error.kind != ErrorKind::NotFound {
                    Step::Fail(system(error), log)
                } else if entry.kind == FileKind::Symlink {
                    place_link_protocol(log, root, from, to, destination, entry.disposable)
                } else if entry.kind == FileKind::File {
                    place_file_protocol(log, from, to, entry.disposable)
                } else {
                    report_special_protocol(log, from)
                },
            },
    )
}

/// The directory that an entry lies in.
pub open spec fn directory_of(relative: Seq<u8>) -> Seq<u8> {
    match parent_of(relative) {
        Some(parent) => parent,
        None => Seq::empty(),
    }
}

/// Carries one entry over: the directories that were created, and what was done.
pub open spec fn place_protocol(
    log: Log,
    root: SourceRootView,
    source: Seq<u8>,
    destination: Seq<u8>,
    entry: EntryView,
) -> Step<(Seq<Seq<u8>>, Deed)> {
    if entry.kind == FileKind::Directory {
        directories_protocol(log, destination, components(entry.relative), Seq::empty()).bind(
            |made: (bool, Seq<Seq<u8>>), log: Log| Step::Done((made.1, Deed::Nothing), log),
        )
    } else {
        directories_protocol(
            log,
            destination,
            components(directory_of(entry.relative)),
            Seq::empty(),
        ).bind(
            |made: (bool, Seq<Seq<u8>>), log: Log|
                if !made.0 {
                    Step::Done((made.1, Deed::Nothing), log)
                } else {
                    place_leaf_protocol(log, root, source, destination, entry).bind(
                        |deed: Deed, log: Log| Step::Done((made.1, deed), log),
                    )
                },
        )
    }
}

fn place_link<'a>(
    io: &mut Session<'a>,
    root: &SourceRoot,
    from: &[u8],
    to: &[u8],
    destination: &[u8],
    disposable: bool,
) -> (r: Result<Deed, Stop>)
    ensures
        follows(
            r,
            final(io)@,
            place_link_protocol(
                old(io)@,
                root.deep_view(),
                from@,
                to@,
                destination@,
                disposable,
            ),
        ),
{
    match ask_path(io, Request::ReadLink(slice_to_vec(from)))? {
        Err(error) => {
            if disappeared(io, error.kind, from, disposable)? {
                return Ok(Deed::Nothing);
            }
            Err(Stop::Fail(system_failure(error).context("reading source symlink")))
        },
        Ok(link) => {
            let target = root.link(io, link.as_slice(), destination)?;
            match ask_unit(io, Request::Link { target, path: slice_to_vec(to) })? {
                Ok(_) => Ok(Deed::Linked),
                Err(error) => {
                    if error.kind == ErrorKind::AlreadyExists {
                        return Ok(Deed::Nothing);
                    }
                    Err(Stop::Fail(system_failure(error).context("creating symlink")))
                },
            }
        },
    }
}

fn place_file<'a>(io: &mut Session<'a>, from: &[u8], to: &[u8], disposable: bool) -> (r: Result<
    Deed,
    Stop,
>)
    ensures
        follows(r, final(io)@, place_file_protocol(old(io)@, from@, to@, disposable)),
{
    match clone_file(io, from, to)? {
        Ok(size) => Ok(Deed::Cloned(size)),
        Err(error) => {
            if error.kind == ErrorKind::AlreadyExists {
                return Ok(Deed::Nothing);
            }
            if disappeared(io, error.kind, from, disposable)? {
                return Ok(Deed::Nothing);
            }
            let context = cat("cloning ", read_lossy(from).as_str());
            Err(Stop::Fail(failure(error.text.as_str()).context(context.as_str())))
        },
    }
}

fn report_special<'a>(io: &mut Session<'a>, from: &[u8]) -> (r: Result<Deed, Stop>)
    ensures
        follows(r, final(io)@, report_special_protocol(old(io)@, from@)),
{
    let notice = cat3("git-wt: skipping special file ", read_lossy(from).as_str(), "\n");
    match ask_unit(io, Request::Report(bytes_of(notice.as_str())))? {
        Ok(_) => Ok(Deed::Nothing),
        Err(error) => Err(Stop::Fail(system_failure(error).context("writing clone diagnostics"))),
    }
}

fn place_leaf<'a>(
    io: &mut Session<'a>,
    root: &SourceRoot,
    source: &[u8],
    destination: &[u8],
    entry: &Entry,
) -> (r: Result<Deed, Stop>)
    ensures
        follows(
            r,
            final(io)@,
            place_leaf_protocol(
                old(io)@,
                root.deep_view(),
                source@,
                destination@,
                entry.deep_view(),
            ),
        ),
{
    let from = paths::join(source, entry.relative.as_slice());
    let to = paths::join(destination, entry.relative.as_slice());
    match ask_metadata(io, Request::SymlinkMetadata(slice_to_vec(to.as_slice())))? {
        Ok(_) => {
            return Ok(Deed::Nothing);
        },
        Err(error) => {
            if error.kind != ErrorKind::NotFound {
                return Err(stop_system(error));
            }
        },
    }
    if entry.kind == FileKind::Symlink {
        place_link(io, root, from.as_slice(), to.as_slice(), destination, entry.disposable)
    } else if entry.kind == FileKind::File {
        place_file(io, from.as_slice(), to.as_slice(), entry.disposable)
    } else {
        report_special(io, from.as_slice())
    }
}

/// Carries one entry over: the directories that were created, and what was done.
pub fn place<'a>(
    io: &mut Session<'a>,
    root: &SourceRoot,
    source: &[u8],
    destination: &[u8],
    entry: &Entry,
) -> (r: Result<(Vec<Vec<u8>>, Deed), Stop>)
    ensures
        follows(
            r,
            final(io)@,
            place_protocol(
                old(io)@,
                root.deep_view(),
                source@,
                destination@,
                entry.deep_view(),
            ),
        ),
{
    if entry.kind == FileKind::Directory {
        let (_, created) = directories(io, destination, entry.relative.as_slice())?;
        return Ok((created, Deed::Nothing));
    }
    let parent = match paths::parent(entry.relative.as_slice()) {
        Some(parent) => parent,
        None => Vec::new(),
    };
    assert(parent@ =~= directory_of(entry.relative@));
    let (free, created) = directories(io, destination, parent.as_slice())?;
    if !free {
        return Ok((created, Deed::Nothing));
    }
    let deed = place_leaf(io, root, source, destination, entry)?;
    Ok((created, deed))
}

/// The mode that was noted of a directory that may disappear; of two notes the
/// later one.
pub open spec fn noted_mode(entries: Seq<EntryView>, relative: Seq<u8>) -> Option<u32>
    decreases entries.len(),
{
    if entries.len() == 0 {
        None
    } else {
        let last = entries.last();
        if last.disposable && last.directory_permissions is Some && same_path(
            last.relative,
            relative,
        ) {
            last.directory_permissions
        } else {
            noted_mode(entries.drop_last(), relative)
        }
    }
}

fn find_mode(entries: &Vec<Entry>, relative: &[u8]) -> (r: Option<u32>)
    ensures
        r == noted_mode(entries.deep_view(), relative@),
{
    let ghost all = entries.deep_view();
    let mut i: usize = entries.len();
    assert(all.take(i as int) =~= all);
    while i > 0
        invariant
            i <= entries@.len(),
            all == entries.deep_view(),
            noted_mode(all, relative@) == noted_mode(all.take(i as int), relative@),
        decreases i,
    {
        i = i - 1;
        assert(all.take(i + 1).last() == entries@[i as int].deep_view());
        assert(all.take(i + 1).drop_last() =~= all.take(i as int));
        let entry = &entries[i];
        if entry.disposable {
            if let Some(mode) = entry.directory_permissions {
                if paths::same(entry.relative.as_slice(), relative) {
                    return Some(mode);
                }
            }
        }
    }
    None
}

/// The mode that the copy of a source directory gets.
pub open spec fn mode_protocol(log: Log, from: Seq<u8>, noted: Option<u32>) -> Step<u32> {
    metadata_reply(log, RequestView::SymlinkMetadata(from)).bind(
        |outcome: Result<Metadata, IoError>, log: Log|
            match outcome {
                Ok(metadata) => if metadata.kind != FileKind::Directory {
                    fails("source is no longer a directory: "@ + lossy(from), log)
                } else {
                    Step::Done(metadata.mode, log)
                },
                Err(error) => disappeared_protocol(log, error.kind, from, noted is Some).bind(
                    |gone: bool, log: Log|
                        match noted {
                            Some(mode) => if gone {
                                Step::Done(mode, log)
                            } else {
                                Step::Fail(
                                    system(error).wrap("reading source directory permissions"@),
                                    log,
                                )
                            },
                            None => Step::Fail(
                                system(error).wrap("reading source directory permissions"@),
                                log,
                            ),
                        },
                ),
            },
    )
}

/// Gives a directory that was created the mode of its source.
pub open spec fn restore_protocol(
    log: Log,
    source: Seq<u8>,
    destination: Seq<u8>,
    entries: Seq<EntryView>,
    directory: Seq<u8>,
) -> Step<()> {
    match below(directory, destination) {
        None => fails("prefix not found"@, log),
        Some(relative) => mode_protocol(
            log,
            join_path(source, relative),
            noted_mode(entries, relative),
        ).bind(
            |mode: u32, log: Log|
                unit_reply(log, RequestView::SetPermissions { path: directory, mode }).bind(
                    |outcome: Result<(), IoError>, log: Log|
                        match outcome {
                            Ok(_) => Step::Done((), log),
                            Err(error) => Step::Fail(system(error), log),
                        },
                ),
        ),
    }
}

fn mode_for<'a>(io: &mut Session<'a>, from: &[u8], entries: &Vec<Entry>, relative: &[u8]) -> (r: Result<
    u32,
    Stop,
>)
    ensures
        follows(
            r,
            final(io)@,
            mode_protocol(old(io)@, from@, noted_mode(entries.deep_view(), relative@)),
        ),
{
    match ask_metadata(io, Request::SymlinkMetadata(slice_to_vec(from)))? {
        Ok(metadata) => {
            if metadata.kind != FileKind::Directory {
                let message = cat("source is no longer a directory: ", read_lossy(from).as_str());
                return Err(stop(message.as_str()));
            }
            Ok(metadata.mode)
        },
        Err(error) => {
            let noted = find_mode(entries, relative);
            let gone = disappeared(io, error.kind, from, noted.is_some())?;
            if gone {
                if let Some(mode) = noted {
                    return Ok(mode);
                }
            }
            Err(Stop::Fail(system_failure(error).context("reading source directory permissions")))
        },
    }
}

/// Gives a directory that was created the mode of its source. Modes are set after
/// everything is in place, so that read-only directories can be filled.
pub fn restore_directory_permissions<'a>(
    io: &mut Session<'a>,
    source: &[u8],
    destination: &[u8],
    entries: &Vec<Entry>,
    directory: &[u8],
) -> (r: Result<(), Stop>)
    ensures
        follows(
            r,
            final(io)@,
            restore_protocol(
                old(io)@,
                source@,
                destination@,
                entries.deep_view(),
                directory@,
            ),
        ),
{
    match paths::strip_prefix(directory, destination) {
        None => Err(stop("prefix not found")),
        Some(relative) => {
            let from = paths::join(source, relative.as_slice());
            let mode = mode_for(io, from.as_slice(), entries, relative.as_slice())?;
            match ask_unit(io, Request::SetPermissions { path: slice_to_vec(directory), mode })? {
                Ok(_) => Ok(()),
                Err(error) => Err(stop_system(error)),
            }
        },
    }
}

/// What is carried over, from where to where.
#[verifier::ext_equal]
pub struct JobView {
    pub source: Seq<u8>,
    pub destination: Seq<u8>,
    pub entries: Seq<EntryView>,
}

/// How far the work has come.
#[verifier::ext_equal]
pub struct WorkState {
    /// The source, once it was looked at.
    pub root: Option<SourceRootView>,
    /// How many entries were carried over.
    pub placed: int,
    /// The directories that were created.
    pub directories: Seq<Seq<u8>>,
    /// How many of them have their mode, from the last one on.
    pub restored: int,
    /// What was done.
    pub files: int,
    pub logical_bytes: int,
    pub symlinks: int,
}

impl WorkState {
    /// The beginning.
    pub open spec fn start() -> WorkState {
        WorkState {
            root: None,
            placed: 0,
            directories: Seq::empty(),
            restored: 0,
            files: 0,
            logical_bytes: 0,
            symlinks: 0,
        }
    }

    /// After one more entry.
    pub open spec fn after(self, created: Seq<Seq<u8>>, deed: Deed) -> WorkState {
        WorkState {
            placed: self.placed + 1,
            directories: self.directories + created,
            files: self.files + if deed is Cloned {
                1int
            } else {
                0
            },
            logical_bytes: self.logical_bytes + match deed {
                Deed::Cloned(size) => size as int,
                _ => 0,
            },
            symlinks: self.symlinks + if deed == Deed::Linked {
                1int
            } else {
                0
            },
            ..self
        }
    }

    /// The directory whose mode is set next.
    pub open spec fn next_directory(self) -> Seq<u8> {
        self.directories[self.directories.len() - 1 - self.restored]
    }
}

/// The step of the work that is next. More bytes than can be counted end it.
pub open spec fn task_protocol(log: Log, job: JobView, state: WorkState) -> Step<WorkState> {
    match state.root {
        None => source_root_protocol(log, job.source).bind(
            |root: SourceRootView, log: Log|
                Step::Done(WorkState { root: Some(root), ..state }, log),
        ),
        Some(root) => if state.placed < job.entries.len() {
            place_protocol(
                log,
                root,
                job.source,
                job.destination,
                job.entries[state.placed],
            ).bind(
                |done: (Seq<Seq<u8>>, Deed), log: Log|
                    {
                        let next = state.after(done.0, done.1);
                        if next.logical_bytes > u64::MAX {
                            fails("cloned size exceeds what can be counted"@, log)
                        } else {
                            Step::Done(next, log)
                        }
                    },
            )
        } else {
            restore_protocol(
                log,
                job.source,
                job.destination,
                job.entries,
                state.next_directory(),
            ).bind(
                |_done: (), log: Log|
                    Step::Done(WorkState { restored: state.restored + 1, ..state }, log),
            )
        },
    }
}

/// Whether nothing is left to do.
pub open spec fn complete(job: JobView, state: WorkState) -> bool {
    state.root is Some && state.placed >= job.entries.len() && state.restored
        >= state.directories.len()
}

/// What was done, once everything is in place: the source is looked at, each entry
/// is carried over, and then each directory that was created gets its mode, the
/// inner ones before the outer ones.
pub open spec fn work_protocol(log: Log, job: JobView, state: WorkState) -> Step<
    (int, int, int),
>
    decreases
        (if state.root is None {
            1int
        } else {
            0
        }),
        job.entries.len() - state.placed,
        state.directories.len() - state.restored,
{
    if complete(job, state) {
        Step::Done((state.files, state.logical_bytes, state.symlinks), log)
    } else {
        match task_protocol(log, job, state) {
            Step::Ask(request) => Step::Ask(request),
            Step::Stray => Step::Stray,
            Step::Fail(error, log) => Step::Fail(error, log),
            Step::Done(next, log) => work_protocol(log, job, next),
        }
    }
}

pub proof fn steady_directories(
    log: Log,
    more: Log,
    current: Seq<u8>,
    words: Seq<Seq<u8>>,
    created: Seq<Seq<u8>>,
)
    ensures
        extends(
            directories_protocol(log, current, words, created),
            directories_protocol(log + more, current, words, created),
            more,
        ),
    decreases words.len(),
{
    if words.len() > 0 {
        let next = join_path(current, words[0]);
        crate::session::steady_metadata(log, more, RequestView::SymlinkMetadata(next));
        if let Step::Done(outcome, log) = metadata_reply(log, RequestView::SymlinkMetadata(next)) {
            match outcome {
                Ok(_) => {
                    steady_directories(log, more, next, words.drop_first(), created);
                },
                Err(_) => {
                    crate::session::steady_unit(log, more, RequestView::CreateDirectory(next));
                    if let Step::Done(_, log) = unit_reply(
                        log,
                        RequestView::CreateDirectory(next),
                    ) {
                        steady_directories(log, more, next, words.drop_first(), created.push(next));
                    }
                },
            }
        }
    }
}

pub proof fn steady_place_link(
    log: Log,
    more: Log,
    root: SourceRootView,
    from: Seq<u8>,
    to: Seq<u8>,
    destination: Seq<u8>,
    disposable: bool,
)
    ensures
        extends(
            place_link_protocol(log, root, from, to, destination, disposable),
            place_link_protocol(log + more, root, from, to, destination, disposable),
            more,
        ),
{
    broadcast use crate::session::group_steady_replies;

    if let Step::Done(Ok(link), log) = path_reply(log, RequestView::ReadLink(from)) {
        steady_link(log, more, link@, root, destination);
    }
}

pub proof fn steady_place_file(log: Log, more: Log, from: Seq<u8>, to: Seq<u8>, disposable: bool)
    ensures
        extends(
            place_file_protocol(log, from, to, disposable),
            place_file_protocol(log + more, from, to, disposable),
            more,
        ),
{
    broadcast use crate::session::steady_metadata;

    steady_clone_file(log, more, from, to);
}

pub proof fn steady_place(
    log: Log,
    more: Log,
    root: SourceRootView,
    source: Seq<u8>,
    destination: Seq<u8>,
    entry: EntryView,
)
    ensures
        extends(
            place_protocol(log, root, source, destination, entry),
            place_protocol(log + more, root, source, destination, entry),
            more,
        ),
{
    let from = join_path(source, entry.relative);
    let to = join_path(destination, entry.relative);
    let words = if entry.kind == FileKind::Directory {
        components(entry.relative)
    } else {
        components(directory_of(entry.relative))
    };
    steady_directories(log, more, destination, words, Seq::empty());
    if let Step::Done(_, log) = directories_protocol(log, destination, words, Seq::empty()) {
        crate::session::steady_metadata(log, more, RequestView::SymlinkMetadata(to));
        if let Step::Done(_, log) = metadata_reply(log, RequestView::SymlinkMetadata(to)) {
            steady_place_link(log, more, root, from, to, destination, entry.disposable);
            steady_place_file(log, more, from, to, entry.disposable);
            crate::session::steady_unit(log, more, RequestView::Report(special_notice(from)));
        }
    }
}

pub proof fn steady_restore(
    log: Log,
    more: Log,
    source: Seq<u8>,
    destination: Seq<u8>,
    entries: Seq<EntryView>,
    directory: Seq<u8>,
)
    ensures
        extends(
            restore_protocol(log, source, destination, entries, directory),
            restore_protocol(log + more, source, destination, entries, directory),
            more,
        ),
{
    broadcast use crate::session::group_steady_replies;

}

proof fn lemma_directories_are_performable(
    log: Log,
    current: Seq<u8>,
    words: Seq<Seq<u8>>,
    created: Seq<Seq<u8>>,
)
    ensures
        directories_protocol(log, current, words, created) matches Step::Ask(request)
            ==> request.performable(),
    decreases words.len(),
{
    if words.len() > 0 {
        let next = join_path(current, words[0]);
        if let Step::Done(outcome, log) = metadata_reply(log, RequestView::SymlinkMetadata(next)) {
            lemma_directories_are_performable(log, next, words.drop_first(), created);
            if let Step::Done(_, log) = unit_reply(log, RequestView::CreateDirectory(next)) {
                lemma_directories_are_performable(
                    log,
                    next,
                    words.drop_first(),
                    created.push(next),
                );
            }
        }
    }
}

/// No step asks for a plan or another population.
pub proof fn lemma_task_is_performable(log: Log, job: JobView, state: WorkState)
    ensures
        task_protocol(log, job, state) matches Step::Ask(request) ==> request.performable(),
{
    if let Some(root) = state.root {
        if state.placed < job.entries.len() {
            let entry = job.entries[state.placed];
            let words = if entry.kind == FileKind::Directory {
                components(entry.relative)
            } else {
                components(directory_of(entry.relative))
            };
            lemma_directories_are_performable(log, job.destination, words, Seq::empty());
            let from = join_path(job.source, entry.relative);
            let to = join_path(job.destination, entry.relative);
            if let Step::Done(_, log) = directories_protocol(
                log,
                job.destination,
                words,
                Seq::empty(),
            ) {
                if let Step::Done(_, log) = metadata_reply(log, RequestView::SymlinkMetadata(to)) {
                    if let Step::Done(Ok(link), log) = path_reply(
                        log,
                        RequestView::ReadLink(from),
                    ) {
                        lemma_link_is_performable(log, link@, root, job.destination);
                    }
                }
            }
        }
    }
}

/// A step of the work that is done stays done, whatever is answered later.
pub proof fn steady_task(log: Log, more: Log, job: JobView, state: WorkState)
    ensures
        extends(task_protocol(log, job, state), task_protocol(log + more, job, state), more),
{
    match state.root {
        None => {
            steady_source_root(log, more, job.source);
        },
        Some(root) => {
            steady_place(
                log,
                more,
                root,
                job.source,
                job.destination,
                job.entries[state.placed],
            );
            steady_restore(
                log,
                more,
                job.source,
                job.destination,
                job.entries,
                state.next_directory(),
            );
        },
    }
}

/// How the work goes on: what the next step asks for is to be performed; a step that
/// is done is behind it, with the answers that it used.
pub open spec fn work_advances(before: Populator, r: Progress<Stats>, after: Populator) -> bool {
    let state = before.state();
    if complete(before.job(), state) {
        r matches Progress::Finished(Ok(stats)) && stats.files == state.files && stats.logical_bytes
            == state.logical_bytes && stats.symlinks == state.symlinks
    } else {
        match task_protocol(before.log(), before.job(), state) {
            Step::Ask(request) => {
                &&& r matches Progress::Perform(asked) && asked.deep_view() == request
                &&& after.state() == state
                &&& after.log() == before.log()
            },
            Step::Stray => r is Stray,
            Step::Fail(error, _) => r matches Progress::Finished(Err(failed)) && failed.deep_view()
                == error,
            Step::Done(next, rest) => if rest.len() > 0 {
                r is Stray
            } else {
                &&& r is Working
                &&& after.state() == next
                &&& after.log() == Log::empty()
            },
        }
    }
}

/// What work that was done with these answers comes to: what it asks for, the failure
/// that ended it, or what was done.
pub open spec fn work_comes_to(answers: Log, job: JobView, r: Progress<Stats>) -> bool {
    let step = work_protocol(answers, job, WorkState::start());
    match r {
        Progress::Perform(request) => step == Step::<(int, int, int)>::Ask(request.deep_view()),
        Progress::Finished(Ok(stats)) => step matches Step::Done(done, _) && done == (
            stats.files as int,
            stats.logical_bytes as int,
            stats.symlinks as int,
        ),
        Progress::Finished(Err(error)) => step matches Step::Fail(failed, _) && failed
            == error.deep_view(),
        _ => true,
    }
}

/// The work of carrying over what was planned.
pub struct Populator {
    source: Vec<u8>,
    destination: Vec<u8>,
    entries: Vec<Entry>,
    root: Option<SourceRoot>,
    placed: usize,
    directories: Vec<Vec<u8>>,
    restored: usize,
    stats: Stats,
    log: Vec<Reply>,
    answers: Ghost<Log>,
}

impl Populator {
    /// What is carried over.
    pub closed spec fn job(&self) -> JobView {
        JobView {
            source: self.source@,
            destination: self.destination@,
            entries: self.entries.deep_view(),
        }
    }

    /// How far the work has come.
    pub closed spec fn state(&self) -> WorkState {
        WorkState {
            root: self.root.deep_view(),
            placed: self.placed as int,
            directories: self.directories.deep_view(),
            restored: self.restored as int,
            files: self.stats.files as int,
            logical_bytes: self.stats.logical_bytes as int,
            symlinks: self.stats.symlinks as int,
        }
    }

    /// The answers that were not used yet.
    pub closed spec fn log(&self) -> Log {
        self.log@
    }

    /// Everything that was answered.
    pub closed spec fn answers(&self) -> Log {
        self.answers@
    }

    /// Whether the work comes out where the answers from its beginning on lead.
    pub open spec fn faithful(&self) -> bool {
        forall|more: Log| #[trigger]
            self.outcome(more) == work_protocol(
                self.answers() + more,
                self.job(),
                WorkState::start(),
            )
    }

    /// Whether the work can go on.
    pub closed spec fn valid(&self) -> bool {
        &&& self.placed <= self.entries@.len()
        &&& self.restored <= self.directories@.len()
        &&& self.stats.files + self.stats.symlinks <= self.placed
    }

    /// Where the work comes out if nothing but `more` is answered from now on.
    pub open spec fn outcome(&self, more: Log) -> Step<(int, int, int)> {
        work_protocol(self.log() + more, self.job(), self.state())
    }

    /// Work that has not begun.
    pub fn new(source: Vec<u8>, destination: Vec<u8>, entries: Vec<Entry>) -> (r: Populator)
        ensures
            r.valid(),
            r.job() == (JobView {
                source: source@,
                destination: destination@,
                entries: entries.deep_view(),
            }),
            r.state() == WorkState::start(),
            r.log() == Log::empty(),
            r.answers() == Log::empty(),
            r.faithful(),
    {
        let r = Populator {
            source,
            destination,
            entries,
            root: None,
            placed: 0,
            directories: Vec::new(),
            restored: 0,
            stats: Stats::default(),
            log: Vec::new(),
            answers: Ghost(Log::empty()),
        };
        assert(r.state() =~= WorkState::start());
        r
    }

    /// Takes the answer to the request that was made last.
    pub fn answer(&mut self, reply: Reply)
        requires
            old(self).valid(),
        ensures
            final(self).valid(),
            final(self).job() == old(self).job(),
            final(self).state() == old(self).state(),
            final(self).log() == old(self).log().push(reply),
            final(self).answers() == old(self).answers().push(reply),
            old(self).faithful() ==> final(self).faithful(),
    {
        self.log.push(reply);
        self.answers = Ghost(self.answers@.push(reply));
        proof {
            assert forall|more: Log| old(self).faithful() implies #[trigger] self.outcome(more)
                == work_protocol(self.answers() + more, self.job(), WorkState::start()) by {
                let later = seq![reply] + more;
                assert(self.log() + more =~= old(self).log() + later);
                assert(self.answers() + more =~= old(self).answers() + later);
                assert(old(self).outcome(later) == work_protocol(
                    old(self).answers() + later,
                    old(self).job(),
                    WorkState::start(),
                ));
                assert(self.state() =~= old(self).state());
            }
        }
    }

    fn try_root(&self) -> (r: (Result<SourceRoot, Stop>, bool))
        ensures
            exists|rest: Log| #[trigger]
                follows(r.0, rest, source_root_protocol(self.log@, self.source@)) && r.1 == (
                rest.len() == 0),
    {
        let mut io = Session::new(self.log.as_slice());
        let root = SourceRoot::new(&mut io, self.source.as_slice());
        let over = io.is_over();
        let r = (root, over);
        assert(follows(r.0, io@, source_root_protocol(self.log@, self.source@)));
        r
    }

    fn try_place(&self, root: &SourceRoot) -> (r: (Result<(Vec<Vec<u8>>, Deed), Stop>, bool))
        requires
            self.placed < self.entries@.len(),
        ensures
            exists|rest: Log| #[trigger]
                follows(
                    r.0,
                    rest,
                    place_protocol(
                        self.log@,
                        root.deep_view(),
                        self.source@,
                        self.destination@,
                        self.entries.deep_view()[self.placed as int],
                    ),
                ) && r.1 == (rest.len() == 0),
    {
        let mut io = Session::new(self.log.as_slice());
        let done = place(
            &mut io,
            root,
            self.source.as_slice(),
            self.destination.as_slice(),
            &self.entries[self.placed],
        );
        let over = io.is_over();
        let r = (done, over);
        assert(follows(
            r.0,
            io@,
            place_protocol(
                self.log@,
                root.deep_view(),
                self.source@,
                self.destination@,
                self.entries.deep_view()[self.placed as int],
            ),
        ));
        r
    }

    fn try_restore(&self) -> (r: (Result<(), Stop>, bool))
        requires
            self.restored < self.directories@.len(),
        ensures
            exists|rest: Log| #[trigger]
                follows(
                    r.0,
                    rest,
                    restore_protocol(
                        self.log@,
                        self.source@,
                        self.destination@,
                        self.entries.deep_view(),
                        self.state().next_directory(),
                    ),
                ) && r.1 == (rest.len() == 0),
    {
        let mut io = Session::new(self.log.as_slice());
        let last = self.directories.len() - 1 - self.restored;
        let directory = self.directories[last].as_slice();
        assert(directory@ == self.state().next_directory());
        let done = restore_directory_permissions(
            &mut io,
            self.source.as_slice(),
            self.destination.as_slice(),
            &self.entries,
            directory,
        );
        let over = io.is_over();
        let r = (done, over);
        assert(follows(
            r.0,
            io@,
            restore_protocol(
                self.log@,
                self.source@,
                self.destination@,
                self.entries.deep_view(),
                self.state().next_directory(),
            ),
        ));
        r
    }

    /// Whether nothing is left to do.
    fn is_complete(&self) -> (r: bool)
        requires
            self.valid(),
        ensures
            r == complete(self.job(), self.state()),
    {
        self.root.is_some() && self.placed >= self.entries.len() && self.restored
            >= self.directories.len()
    }

    /// Notes what was done for an entry, unless there are more bytes than can be
    /// counted.
    fn commit(&mut self, created: Vec<Vec<u8>>, deed: Deed) -> (r: bool)
        requires
            old(self).valid(),
            old(self).placed < old(self).entries@.len(),
        ensures
            final(self).valid(),
            final(self).job() == old(self).job(),
            final(self).log == old(self).log,
            final(self).answers == old(self).answers,
            r == (old(self).state().after(created.deep_view(), deed).logical_bytes <= u64::MAX),
            r ==> final(self).state() == old(self).state().after(created.deep_view(), deed),
    {
        let _count = self.entries.len();
        if let Deed::Cloned(size) = deed {
            match self.stats.logical_bytes.checked_add(size) {
                None => {
                    return false;
                },
                Some(sum) => {
                    self.stats.logical_bytes = sum;
                    self.stats.files = self.stats.files + 1;
                },
            }
        }
        if let Deed::Linked = deed {
            self.stats.symlinks = self.stats.symlinks + 1;
        }
        let ghost before = self.directories.deep_view();
        let ghost fresh = created.deep_view();
        let mut created = created;
        self.directories.append(&mut created);
        assert(self.directories.deep_view() =~= before + fresh);
        self.placed = self.placed + 1;
        assert(self.state() =~= old(self).state().after(fresh, deed));
        true
    }

    /// Goes one step, if the answers suffice.
    pub fn advance(&mut self) -> (r: Progress<Stats>)
        requires
            old(self).valid(),
        ensures
            final(self).valid(),
            final(self).job() == old(self).job(),
            work_advances(*old(self), r, *final(self)),
            r is Working ==> forall|more: Log| #[trigger]
                final(self).outcome(more) == old(self).outcome(more),
            final(self).answers() == old(self).answers(),
            old(self).faithful() ==> work_comes_to(old(self).answers(), old(self).job(), r),
            old(self).faithful() && (r is Perform || r is Working) ==> final(self).faithful(),
    {
        proof {
            let none = Log::empty();
            assert(self.log() + none =~= self.log());
            assert(self.answers() + none =~= self.answers());
            if self.faithful() {
                assert(self.outcome(none) == work_protocol(
                    self.answers(),
                    self.job(),
                    WorkState::start(),
                ));
            }
        }
        let ghost log = self.log();
        let ghost job = self.job();
        let ghost state = self.state();
        assert(log + Log::empty() =~= log);
        if self.is_complete() {
            return Progress::Finished(Ok(self.stats));
        }
        if self.root.is_none() {
            let (root, over) = self.try_root();
            match root {
                Err(Stop::Ask(request)) => {
                    return Progress::Perform(request);
                },
                Err(Stop::Stray) => {
                    return Progress::Stray;
                },
                Err(Stop::Fail(error)) => {
                    return Progress::Finished(Err(error));
                },
                Ok(root) => {
                    if !over {
                        return Progress::Stray;
                    }
                    self.root = Some(root);
                },
            }
        } else if self.placed < self.entries.len() {
            let attempt = match &self.root {
                Some(root) => self.try_place(root),
                None => {
                    return Progress::Stray;
                },
            };
            match attempt.0 {
                Err(Stop::Ask(request)) => {
                    return Progress::Perform(request);
                },
                Err(Stop::Stray) => {
                    return Progress::Stray;
                },
                Err(Stop::Fail(error)) => {
                    return Progress::Finished(Err(error));
                },
                Ok((created, deed)) => {
                    if !self.commit(created, deed) {
                        return Progress::Finished(
                            Err(failure("cloned size exceeds what can be counted")),
                        );
                    }
                    if !attempt.1 {
                        return Progress::Stray;
                    }
                },
            }
        } else {
            let count = self.directories.len();
            assert(self.restored < count);
            let (done, over) = self.try_restore();
            match done {
                Err(Stop::Ask(request)) => {
                    return Progress::Perform(request);
                },
                Err(Stop::Stray) => {
                    return Progress::Stray;
                },
                Err(Stop::Fail(error)) => {
                    return Progress::Finished(Err(error));
                },
                Ok(_) => {
                    if !over {
                        return Progress::Stray;
                    }
                    self.restored = self.restored + 1;
                },
            }
        }
        self.log = Vec::new();
        proof {
            let next = self.state();
            assert(task_protocol(log, job, state) matches Step::Done(s, rest) && s =~= next
                && rest.len() == 0);
            assert forall|more: Log| #[trigger] self.outcome(more) == old(self).outcome(more) by {
                steady_task(log, more, job, state);
                lemma_used_up(more);
                assert(self.log() + more =~= more);
            }
        }
        Progress::Working
    }
}

} // verus!
