//! What of the local environment is carried over, and how.

use vstd::prelude::*;

use vstd::slice::slice_to_vec;
use vstd::utf8::encode_utf8;

use crate::encoding::bytes_of;
use crate::errors::{failure, plain, system, Error, ErrorView};
use crate::git;
use crate::git::{listed_paths, run_protocol};
use crate::native::{clone_file, clone_file_protocol};
use crate::paths;
use crate::paths::{absolute_path, components, join_path, parent_word, tidy};
use crate::sequences::split;
use crate::session::{
    ask_metadata, ask_plan, ask_populate, ask_scratch, ask_unit, follows, lemma_bytes,
    metadata_reply, plan_reply, populate_reply, scratch_reply, stop, stop_system, unit_reply,
    ErrorKind, FileKind, GitContext, IoError, IoErrorView, Log, Metadata, Request, RequestView,
    Scratch, Session, Step, Stop,
};

verus! {

broadcast use lemma_bytes;

/// One entry to carry over.
#[derive(Debug)]
pub struct Entry {
    pub relative: Vec<u8>,
    pub kind: FileKind,
    /// Only ignored entries without indexed or nonignored contents may disappear.
    pub disposable: bool,
    /// Kept only for directories: a source that disappears must not leave its
    /// contents under a more permissive mode.
    pub directory_permissions: Option<u32>,
}

/// What an [`Entry`] says.
#[verifier::ext_equal]
pub struct EntryView {
    pub relative: Seq<u8>,
    pub kind: FileKind,
    pub disposable: bool,
    pub directory_permissions: Option<u32>,
}

impl DeepView for Entry {
    type V = EntryView;

    open spec fn deep_view(&self) -> EntryView {
        EntryView {
            relative: self.relative@,
            kind: self.kind,
            disposable: self.disposable,
            directory_permissions: self.directory_permissions,
        }
    }
}

/// What was carried over.
#[derive(Debug, Clone, Copy, PartialEq, Eq, Structural)]
pub struct Stats {
    pub files: u64,
    pub logical_bytes: u64,
    pub symlinks: u64,
}

impl Default for Stats {
    fn default() -> (r: Stats)
        ensures
            r == (Stats { files: 0, logical_bytes: 0, symlinks: 0 }),
    {
        Stats { files: 0, logical_bytes: 0, symlinks: 0 }
    }
}

impl DeepView for Stats {
    type V = Stats;

    open spec fn deep_view(&self) -> Stats {
        *self
    }
}

/// What a plan is made from.
#[derive(Debug)]
pub struct Survey {
    pub source: Vec<u8>,
    pub destination: Vec<u8>,
    pub dirty: bool,
    pub indexed: Vec<Vec<u8>>,
    pub protected: Vec<Vec<u8>>,
    pub ignored: Vec<Vec<u8>>,
    pub exclude: Vec<Vec<u8>>,
    pub nested: Vec<Vec<u8>>,
}

/// What a [`Survey`] says.
#[verifier::ext_equal]
pub struct SurveyView {
    pub source: Seq<u8>,
    pub destination: Seq<u8>,
    pub dirty: bool,
    pub indexed: Seq<Seq<u8>>,
    pub protected: Seq<Seq<u8>>,
    pub ignored: Seq<Seq<u8>>,
    pub exclude: Seq<Seq<u8>>,
    pub nested: Seq<Seq<u8>>,
}

impl DeepView for Survey {
    type V = SurveyView;

    open spec fn deep_view(&self) -> SurveyView {
        SurveyView {
            source: self.source@,
            destination: self.destination@,
            dirty: self.dirty,
            indexed: self.indexed.deep_view(),
            protected: self.protected.deep_view(),
            ignored: self.ignored.deep_view(),
            exclude: self.exclude.deep_view(),
            nested: self.nested.deep_view(),
        }
    }
}

impl Entry {
    /// A copy of the entry.
    pub fn duplicate(&self) -> (r: Entry)
        ensures
            r.deep_view() == self.deep_view(),
    {
        Entry {
            relative: slice_to_vec(self.relative.as_slice()),
            kind: self.kind,
            disposable: self.disposable,
            directory_permissions: self.directory_permissions,
        }
    }
}

/// Copies of the entries.
pub fn copied_entries(entries: &Vec<Entry>) -> (r: Vec<Entry>)
    ensures
        r.deep_view() == entries.deep_view(),
{
    let mut r: Vec<Entry> = Vec::new();
    let mut i: usize = 0;
    while i < entries.len()
        invariant
            i <= entries@.len(),
            r@.len() == i,
            forall|j: int|
                0 <= j < i ==> (#[trigger] r@[j]).deep_view() == entries@[j].deep_view(),
        decreases entries@.len() - i,
    {
        r.push(entries[i].duplicate());
        i = i + 1;
    }
    assert(r.deep_view() =~= entries.deep_view());
    r
}

/// Tries whether a file in one directory can be cloned into another.
pub open spec fn probe_protocol(log: Log, source_directory: Seq<u8>, destination_parent: Seq<u8>) -> Step<
    (),
> {
    scratch_reply(log, source_directory, destination_parent).bind(
        |outcome: Result<Scratch, IoError>, log: Log|
            match outcome {
                Err(error) => Step::Fail(system(error), log),
                Ok(scratch) => clone_file_protocol(
                    log,
                    scratch.file@,
                    join_path(scratch.directory@, encode_utf8("clone"@)),
                ).bind(
                    |cloned: Result<u64, IoErrorView>, log: Log|
                        unit_reply(log, RequestView::DropScratch).bind(
                            |_dropped: Result<(), IoError>, log: Log|
                                match cloned {
                                    Ok(_) => Step::Done((), log),
                                    Err(error) => Step::Fail(plain(error.text), log),
                                },
                        ),
                ),
            },
    )
}

/// Tries whether a file in one directory can be cloned into another.
pub fn probe<'a>(io: &mut Session<'a>, source_directory: &[u8], destination_parent: &[u8]) -> (r: Result<
    (),
    Stop,
>)
    ensures
        follows(
            r,
            final(io)@,
            probe_protocol(old(io)@, source_directory@, destination_parent@),
        ),
{
    match ask_scratch(io, source_directory, destination_parent)? {
        Err(error) => Err(stop_system(error)),
        Ok(scratch) => {
            let target = paths::join(scratch.directory.as_slice(), bytes_of("clone").as_slice());
            let cloned = clone_file(io, scratch.file.as_slice(), target.as_slice())?;
            let _ = ask_unit(io, Request::DropScratch)?;
            match cloned {
                Ok(_) => Ok(()),
                Err(error) => Err(stop(error.text.as_str())),
            }
        },
    }
}

/// The path that an exclusion stands for.
pub open spec fn exclusion(value: Seq<char>) -> Result<Seq<u8>, ErrorView> {
    let path = encode_utf8(value);
    if absolute_path(path) || components(path).contains(parent_word()) {
        Err(plain("exclusions must be source-relative paths without parent traversal"@))
    } else if tidy(path).len() == 0 {
        Err(plain("exclusion cannot be empty or the source root"@))
    } else {
        Ok(tidy(path))
    }
}

/// The paths that exclusions stand for. The first that stands for none spoils all.
pub open spec fn exclusion_paths(values: Seq<Seq<char>>) -> Result<Seq<Seq<u8>>, ErrorView>
    decreases values.len(),
{
    if values.len() == 0 {
        Ok(Seq::empty())
    } else {
        match exclusion_paths(values.drop_last()) {
            Err(error) => Err(error),
            Ok(paths) => match exclusion(values.last()) {
                Err(error) => Err(error),
                Ok(path) => Ok(paths.push(path)),
            },
        }
    }
}

proof fn lemma_exclusions_spoiled(values: Seq<Seq<char>>, k: int)
    requires
        0 <= k <= values.len(),
        exclusion_paths(values.take(k)) is Err,
    ensures
        exclusion_paths(values) == exclusion_paths(values.take(k)),
    decreases values.len(),
{
    if k == values.len() {
        assert(values.take(k) =~= values);
    } else {
        assert(values.drop_last().take(k) =~= values.take(k));
        lemma_exclusions_spoiled(values.drop_last(), k);
    }
}

fn exclusion_path(value: &str) -> (r: Result<Vec<u8>, Error>)
    ensures
        match exclusion(value@) {
            Ok(path) => r matches Ok(p) && p@ == path,
            Err(error) => r matches Err(e) && e.deep_view() == error,
        },
{
    let path = bytes_of(value);
    if paths::is_absolute(path.as_slice()) || paths::goes_up(path.as_slice()) {
        return Err(
            failure("exclusions must be source-relative paths without parent traversal"),
        );
    }
    let path = paths::without_current(path.as_slice());
    if path.len() == 0 {
        return Err(failure("exclusion cannot be empty or the source root"));
    }
    Ok(path)
}

/// The paths that exclusions stand for.
pub fn exclusions(values: Vec<String>) -> (r: Result<Vec<Vec<u8>>, Error>)
    ensures
        match exclusion_paths(values.deep_view()) {
            Ok(paths) => r matches Ok(v) && v.deep_view() == paths,
            Err(error) => r matches Err(e) && e.deep_view() == error,
        },
{
    let ghost all = values.deep_view();
    let mut out: Vec<Vec<u8>> = Vec::new();
    let mut i: usize = 0;
    assert(all.take(0) =~= Seq::<Seq<char>>::empty());
    assert(out.deep_view() =~= Seq::<Seq<u8>>::empty());
    while i < values.len()
        invariant
            i <= values@.len(),
            all == values.deep_view(),
            exclusion_paths(all.take(i as int)) == Ok::<Seq<Seq<u8>>, ErrorView>(out.deep_view()),
        decreases values@.len() - i,
    {
        assert(all.take(i + 1).drop_last() =~= all.take(i as int));
        assert(all.take(i + 1).last() == values@[i as int]@);
        match exclusion_path(values[i].as_str()) {
            Ok(path) => {
                let ghost before = out.deep_view();
                out.push(path);
                assert(out.deep_view() =~= before.push(path@));
            },
            Err(error) => {
                proof {
                    lemma_exclusions_spoiled(all, i + 1);
                }
                return Err(error);
            },
        }
        i = i + 1;
    }
    assert(all.take(i as int) =~= all);
    Ok(out)
}

/// Whether a source that could not be found is gone, and may be. A missing parent
/// of the destination is reported alike, so the source itself is looked for; a
/// dangling symbolic link is not absent.
pub open spec fn disappeared_protocol(
    log: Log,
    kind: ErrorKind,
    source: Seq<u8>,
    disposable: bool,
) -> Step<bool> {
    if disposable && kind == ErrorKind::NotFound {
        metadata_reply(log, RequestView::SymlinkMetadata(source)).bind(
            |outcome: Result<Metadata, IoError>, log: Log|
                Step::Done(outcome matches Err(error) && error.kind == ErrorKind::NotFound, log),
        )
    } else {
        Step::Done(false, log)
    }
}

/// Whether a source that could not be found is gone, and may be.
pub fn disappeared<'a>(io: &mut Session<'a>, kind: ErrorKind, source: &[u8], disposable: bool) -> (r:
    Result<bool, Stop>)
    ensures
        follows(r, final(io)@, disappeared_protocol(old(io)@, kind, source@, disposable)),
{
    if disposable && kind == ErrorKind::NotFound {
        match ask_metadata(io, Request::SymlinkMetadata(slice_to_vec(source)))? {
            Ok(_) => Ok(false),
            Err(error) => Ok(error.kind == ErrorKind::NotFound),
        }
    } else {
        Ok(false)
    }
}

pub open spec fn indexed_args() -> Seq<Seq<char>> {
    seq!["ls-files"@, "--cached"@, "--full-name"@, "-z"@, "--"@, ":/"@]
}

pub open spec fn others_args() -> Seq<Seq<char>> {
    seq![
        "ls-files"@,
        "--others"@,
        "--exclude-standard"@,
        "--full-name"@,
        "-z"@,
        "--"@,
        ":/"@,
    ]
}

pub open spec fn ignored_args() -> Seq<Seq<char>> {
    seq![
        "ls-files"@,
        "--others"@,
        "--ignored"@,
        "--exclude-standard"@,
        "--directory"@,
        "--full-name"@,
        "-z"@,
        "--"@,
        ":/"@,
    ]
}

/// The paths that Git lists.
pub open spec fn listing_protocol(log: Log, cwd: Seq<u8>, args: Seq<Seq<char>>) -> Step<
    Seq<Seq<u8>>,
> {
    run_protocol(log, GitContext::Source, cwd, args).bind(
        |bytes: Seq<u8>, log: Log|
            match listed_paths(split(bytes, 0u8)) {
                Ok(paths) => Step::Done(paths, log),
                Err(error) => Step::Fail(error, log),
            },
    )
}

fn listing<'a>(io: &mut Session<'a>, cwd: &[u8], args: &Vec<String>) -> (r: Result<
    Vec<Vec<u8>>,
    Stop,
>)
    ensures
        follows(r, final(io)@, listing_protocol(old(io)@, cwd@, args.deep_view())),
{
    let bytes = git::run(io, cwd, args)?;
    match git::nul_paths(bytes.as_slice()) {
        Ok(paths) => Ok(paths),
        Err(error) => Err(Stop::Fail(error)),
    }
}

/// What Git lists of the source: what is in the index, what must not be lost, and
/// what is ignored.
pub open spec fn lists_protocol(log: Log, cwd: Seq<u8>, dirty: bool) -> Step<
    (Seq<Seq<u8>>, Seq<Seq<u8>>, Seq<Seq<u8>>),
> {
    listing_protocol(log, cwd, indexed_args()).bind(
        |indexed: Seq<Seq<u8>>, log: Log|
            (if dirty {
                listing_protocol(log, cwd, others_args())
            } else {
                Step::Done(Seq::empty(), log)
            }).bind(
                |others: Seq<Seq<u8>>, log: Log|
                    listing_protocol(log, cwd, ignored_args()).bind(
                        |ignored: Seq<Seq<u8>>, log: Log|
                            Step::Done((indexed, indexed + others, ignored), log),
                    ),
            ),
    )
}

/// Copies of paths.
pub fn copied_paths(paths: &Vec<Vec<u8>>) -> (r: Vec<Vec<u8>>)
    ensures
        r.deep_view() == paths.deep_view(),
{
    let mut r: Vec<Vec<u8>> = Vec::new();
    let mut i: usize = 0;
    while i < paths.len()
        invariant
            i <= paths@.len(),
            r@.len() == i,
            forall|j: int| 0 <= j < i ==> (#[trigger] r@[j])@ == paths@[j]@,
        decreases paths@.len() - i,
    {
        r.push(slice_to_vec(paths[i].as_slice()));
        i = i + 1;
    }
    assert(r.deep_view() =~= paths.deep_view());
    r
}

fn lists<'a>(io: &mut Session<'a>, cwd: &[u8], dirty: bool) -> (r: Result<
    (Vec<Vec<u8>>, Vec<Vec<u8>>, Vec<Vec<u8>>),
    Stop,
>)
    ensures
        follows(r, final(io)@, lists_protocol(old(io)@, cwd@, dirty)),
{
    let question = vec![
        "ls-files".to_owned(),
        "--cached".to_owned(),
        "--full-name".to_owned(),
        "-z".to_owned(),
        "--".to_owned(),
        ":/".to_owned(),
    ];
    assert(question.deep_view() =~= indexed_args());
    let indexed = listing(io, cwd, &question)?;
    let mut protected = copied_paths(&indexed);
    let ghost kept = protected.deep_view();
    let mut others: Vec<Vec<u8>> = Vec::new();
    assert(others.deep_view() =~= Seq::<Seq<u8>>::empty());
    if dirty {
        let question = vec![
            "ls-files".to_owned(),
            "--others".to_owned(),
            "--exclude-standard".to_owned(),
            "--full-name".to_owned(),
            "-z".to_owned(),
            "--".to_owned(),
            ":/".to_owned(),
        ];
        assert(question.deep_view() =~= others_args());
        others = listing(io, cwd, &question)?;
    }
    let ghost loose = others.deep_view();
    protected.append(&mut others);
    assert(protected.deep_view() =~= kept + loose);
    let question = vec![
        "ls-files".to_owned(),
        "--others".to_owned(),
        "--ignored".to_owned(),
        "--exclude-standard".to_owned(),
        "--directory".to_owned(),
        "--full-name".to_owned(),
        "-z".to_owned(),
        "--".to_owned(),
        ":/".to_owned(),
    ];
    assert(question.deep_view() =~= ignored_args());
    let ignored = listing(io, cwd, &question)?;
    Ok((indexed, protected, ignored))
}

pub open spec fn plan_protocol(
    log: Log,
    git_cwd: Seq<u8>,
    source: Seq<u8>,
    dirty: bool,
    exclude: Seq<Seq<u8>>,
    nested: Seq<Seq<u8>>,
    destination: Seq<u8>,
) -> Step<Seq<EntryView>> {
    lists_protocol(log, git_cwd, dirty).bind(
        |lists: (Seq<Seq<u8>>, Seq<Seq<u8>>, Seq<Seq<u8>>), log: Log|
            plan_reply(
                log,
                SurveyView {
                    source,
                    destination,
                    dirty,
                    indexed: lists.0,
                    protected: lists.1,
                    ignored: lists.2,
                    exclude,
                    nested,
                },
            ).bind(
                |outcome: Result<Vec<Entry>, Error>, log: Log|
                    match outcome {
                        Ok(entries) => Step::Done(entries.deep_view(), log),
                        Err(error) => Step::Fail(error.deep_view(), log),
                    },
            ),
    )
}

/// Plans what to carry over. Git is asked in the directory that the program was
/// started in: a relative selection of a repository is read from there.
pub fn plan<'a>(
    io: &mut Session<'a>,
    git_cwd: &[u8],
    source: &[u8],
    dirty: bool,
    exclude: &Vec<Vec<u8>>,
    nested: &Vec<Vec<u8>>,
    destination: &[u8],
) -> (r: Result<Vec<Entry>, Stop>)
    ensures
        follows(
            r,
            final(io)@,
            plan_protocol(
                old(io)@,
                git_cwd@,
                source@,
                dirty,
                exclude.deep_view(),
                nested.deep_view(),
                destination@,
            ),
        ),
{
    let (indexed, protected, ignored) = lists(io, git_cwd, dirty)?;
    let survey = Survey {
        source: slice_to_vec(source),
        destination: slice_to_vec(destination),
        dirty,
        indexed,
        protected,
        ignored,
        exclude: copied_paths(exclude),
        nested: copied_paths(nested),
    };
    match ask_plan(io, survey)? {
        Ok(entries) => Ok(copied_entries(entries)),
        Err(error) => Err(Stop::Fail(error.duplicate())),
    }
}

pub open spec fn populate_protocol(
    log: Log,
    source: Seq<u8>,
    destination: Seq<u8>,
    entries: Seq<EntryView>,
) -> Step<Stats> {
    populate_reply(log, source, destination, entries).bind(
        |outcome: Result<Stats, Error>, log: Log|
            match outcome {
                Ok(stats) => Step::Done(stats, log),
                Err(error) => Step::Fail(error.deep_view(), log),
            },
    )
}

/// Carries over what was planned.
pub fn populate<'a>(
    io: &mut Session<'a>,
    source: &[u8],
    destination: &[u8],
    entries: &Vec<Entry>,
) -> (r: Result<Stats, Stop>)
    ensures
        follows(
            r,
            final(io)@,
            populate_protocol(old(io)@, source@, destination@, entries.deep_view()),
        ),
{
    match ask_populate(io, source, destination, entries)? {
        Ok(stats) => Ok(*stats),
        Err(error) => Err(Stop::Fail(error.duplicate())),
    }
}

} // verus!
