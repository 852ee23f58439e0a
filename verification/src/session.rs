//! What the procedures ask of the system, and what it answered so far.
//!
//! A procedure runs against a log of answers. As long as the log lasts, it goes
//! on with what stands there; where the log ends, it stops with the request
//! whose answer it needs next. Whoever runs the procedure performs the request,
//! appends the answer to the log, and runs the procedure again.

use vstd::prelude::*;

use vstd::slice::{slice_subrange, slice_to_vec};

use crate::clone::{Entry, EntryView, Stats, Survey, SurveyView};
use crate::errors::{failure, misuse, plain, system, system_failure, usage, Error, ErrorView};
use crate::text::{cat, copied};

verus! {

/// Which repository selection a Git command inherits.
#[derive(Debug, Clone, Copy, PartialEq, Eq, Structural)]
pub enum GitContext {
    /// The caller's own selection.
    Source,
    /// The caller's selection, but not the caller's index.
    WorktreeMutation,
    /// No selection but the directory that the command runs in.
    Destination,
}

/// The kinds of system failure that are told apart.
#[derive(Debug, Clone, Copy, PartialEq, Eq, Structural)]
pub enum ErrorKind {
    NotFound,
    AlreadyExists,
    InvalidInput,
    Unsupported,
    BrokenPipe,
    Other,
}

/// A failure reported by the system.
#[derive(Debug)]
pub struct IoError {
    pub kind: ErrorKind,
    pub text: String,
}

/// What an [`IoError`] says.
#[verifier::ext_equal]
pub struct IoErrorView {
    pub kind: ErrorKind,
    pub text: Seq<char>,
}

impl DeepView for IoError {
    type V = IoErrorView;

    open spec fn deep_view(&self) -> IoErrorView {
        IoErrorView { kind: self.kind, text: self.text@ }
    }
}

/// The error numbers that cloning a file tells apart.
#[derive(Debug, Clone, Copy, PartialEq, Eq, Structural)]
pub enum Errno {
    NotSupported,
    OperationNotSupported,
    NotTerminal,
    CrossDevice,
    InvalidArgument,
    NotPermitted,
    NotImplemented,
    Other,
}

/// A failure of the cloning primitive.
#[derive(Debug)]
pub struct OsError {
    pub errno: Errno,
    pub kind: ErrorKind,
    pub text: String,
}

/// How a command ended and what it wrote.
#[derive(Debug)]
pub struct Output {
    pub success: bool,
    pub code: Option<i32>,
    pub status: String,
    pub stdout: Vec<u8>,
    pub stderr: Vec<u8>,
}

/// What kind of entry a directory holds.
#[derive(Debug, Clone, Copy, PartialEq, Eq, Structural)]
pub enum FileKind {
    File,
    Directory,
    Symlink,
    Special,
}

/// What the file system records of an entry.
#[derive(Debug, Clone, Copy, PartialEq, Eq, Structural)]
pub struct Metadata {
    pub kind: FileKind,
    pub device: u64,
    pub inode: u64,
    pub length: u64,
    pub mode: u32,
}

/// A file and a directory made for a trial.
#[derive(Debug)]
pub struct Scratch {
    pub file: Vec<u8>,
    pub directory: Vec<u8>,
}

/// An entry met on a walk through a directory tree.
#[derive(Debug)]
pub struct WalkEntry {
    pub path: Vec<u8>,
    pub kind: FileKind,
}

/// A failure met on a walk, with the texts of its causes.
#[derive(Debug)]
pub struct WalkFailure {
    pub path: Option<Vec<u8>>,
    pub kind: Option<ErrorKind>,
    pub causes: Vec<String>,
}

/// Something to be done outside.
#[derive(Debug)]
pub enum Request {
    /// Run Git.
    Git { context: GitContext, cwd: Vec<u8>, args: Vec<String> },
    /// Write to the diagnostic stream.
    Report(Vec<u8>),
    /// Resolve a path physically.
    Canonicalize(Vec<u8>),
    /// Describe what a path leads to.
    Metadata(Vec<u8>),
    /// Describe the entry itself, also where it is a symbolic link.
    SymlinkMetadata(Vec<u8>),
    /// The directory that the program was started in.
    CurrentDirectory,
    /// The home directory of the environment.
    Home,
    /// Create one directory.
    CreateDirectory(Vec<u8>),
    /// Create a directory and what is missing above it.
    CreateDirectories(Vec<u8>),
    /// Remove one empty directory.
    RemoveDirectory(Vec<u8>),
    /// Clone one file, without following links.
    Clone { source: Vec<u8>, destination: Vec<u8> },
    /// Read the text of a symbolic link.
    ReadLink(Vec<u8>),
    /// Create a symbolic link.
    Link { target: Vec<u8>, path: Vec<u8> },
    /// Set the mode of an entry.
    SetPermissions { path: Vec<u8>, mode: u32 },
    /// Make a file in one directory and a directory in another for a trial.
    Scratch { source_directory: Vec<u8>, destination_parent: Vec<u8> },
    /// Remove what was made for the trial.
    DropScratch,
    /// Begin a walk at a path.
    OpenWalk(Vec<u8>),
    /// The next entry of the walk.
    NextEntry,
    /// Do not descend into the directory that was met last.
    SkipDirectory,
    /// Plan what to carry over.
    Plan(Survey),
    /// Carry over what was planned.
    Populate { source: Vec<u8>, destination: Vec<u8>, entries: Vec<Entry> },
}

/// What a [`Request`] asks for.
pub enum RequestView {
    Git { context: GitContext, cwd: Seq<u8>, args: Seq<Seq<char>> },
    Report(Seq<u8>),
    Canonicalize(Seq<u8>),
    Metadata(Seq<u8>),
    SymlinkMetadata(Seq<u8>),
    CurrentDirectory,
    Home,
    CreateDirectory(Seq<u8>),
    CreateDirectories(Seq<u8>),
    RemoveDirectory(Seq<u8>),
    Clone { source: Seq<u8>, destination: Seq<u8> },
    ReadLink(Seq<u8>),
    Link { target: Seq<u8>, path: Seq<u8> },
    SetPermissions { path: Seq<u8>, mode: u32 },
    Scratch { source_directory: Seq<u8>, destination_parent: Seq<u8> },
    DropScratch,
    OpenWalk(Seq<u8>),
    NextEntry,
    SkipDirectory,
    Plan(SurveyView),
    Populate { source: Seq<u8>, destination: Seq<u8>, entries: Seq<EntryView> },
}

impl RequestView {
    /// Whether the request is for whoever runs the procedures. Plans and populations
    /// are made by the library itself.
    pub open spec fn performable(self) -> bool {
        !(self is Plan) && !(self is Populate)
    }
}

impl DeepView for Request {
    type V = RequestView;

    open spec fn deep_view(&self) -> RequestView {
        match self {
            Request::Git { context, cwd, args } => RequestView::Git {
                context: *context,
                cwd: cwd@,
                args: args.deep_view(),
            },
            Request::Report(bytes) => RequestView::Report(bytes@),
            Request::Canonicalize(path) => RequestView::Canonicalize(path@),
            Request::Metadata(path) => RequestView::Metadata(path@),
            Request::SymlinkMetadata(path) => RequestView::SymlinkMetadata(path@),
            Request::CurrentDirectory => RequestView::CurrentDirectory,
            Request::Home => RequestView::Home,
            Request::CreateDirectory(path) => RequestView::CreateDirectory(path@),
            Request::CreateDirectories(path) => RequestView::CreateDirectories(path@),
            Request::RemoveDirectory(path) => RequestView::RemoveDirectory(path@),
            Request::Clone { source, destination } => RequestView::Clone {
                source: source@,
                destination: destination@,
            },
            Request::ReadLink(path) => RequestView::ReadLink(path@),
            Request::Link { target, path } => RequestView::Link { target: target@, path: path@ },
            Request::SetPermissions { path, mode } => RequestView::SetPermissions {
                path: path@,
                mode: *mode,
            },
            Request::Scratch { source_directory, destination_parent } => RequestView::Scratch {
                source_directory: source_directory@,
                destination_parent: destination_parent@,
            },
            Request::DropScratch => RequestView::DropScratch,
            Request::OpenWalk(path) => RequestView::OpenWalk(path@),
            Request::NextEntry => RequestView::NextEntry,
            Request::SkipDirectory => RequestView::SkipDirectory,
            Request::Plan(survey) => RequestView::Plan(survey.deep_view()),
            Request::Populate { source, destination, entries } => RequestView::Populate {
                source: source@,
                destination: destination@,
                entries: entries.deep_view(),
            },
        }
    }
}

/// An answer to a [`Request`].
#[derive(Debug)]
pub enum Reply {
    /// To `Git`.
    Git(Result<Output, IoError>),
    /// To a request that has no other result than success or failure.
    Unit(Result<(), IoError>),
    /// To `Canonicalize`, `CurrentDirectory` and `ReadLink`.
    Path(Result<Vec<u8>, IoError>),
    /// To `Metadata` and `SymlinkMetadata`.
    Metadata(Result<Metadata, IoError>),
    /// To `Home`.
    Home(Option<Vec<u8>>),
    /// To `Clone`.
    Cloned(Result<(), OsError>),
    /// To `Scratch`.
    Scratch(Result<Scratch, IoError>),
    /// To `NextEntry`: nothing where the walk is over.
    Walked(Option<Result<WalkEntry, WalkFailure>>),
    /// To `Plan`.
    Planned(Result<Vec<Entry>, Error>),
    /// To `Populate`.
    Populated(Result<Stats, Error>),
}

/// The answers that a procedure has not used yet.
pub type Log = Seq<Reply>;

/// Where a procedure stands when the log is used up, or how it ended.
pub enum Step<T> {
    /// The answer to this request is needed next.
    Ask(RequestView),
    /// The next answer in the log is not one to the request that was made.
    Stray,
    /// It failed, with these answers left.
    Fail(ErrorView, Log),
    /// It ended with a result, and with these answers left.
    Done(T, Log),
}

impl<T> Step<T> {
    /// What follows once there is a result.
    pub open spec fn bind<U>(self, next: spec_fn(T, Log) -> Step<U>) -> Step<U> {
        match self {
            Step::Ask(request) => Step::Ask(request),
            Step::Stray => Step::Stray,
            Step::Fail(error, log) => Step::Fail(error, log),
            Step::Done(value, log) => next(value, log),
        }
    }

    /// The same, with a context around a failure.
    pub open spec fn context(self, text: Seq<char>) -> Step<T> {
        match self {
            Step::Fail(error, log) => Step::Fail(error.wrap(text), log),
            other => other,
        }
    }

    /// The same, with a failure of usage in place of a failure: what `note` says,
    /// and the outermost message.
    pub open spec fn blame(self, note: Seq<char>) -> Step<T> {
        match self {
            Step::Fail(error, log) => Step::Fail(misuse(note + error.headline()), log),
            other => other,
        }
    }

    /// The same, with a failure as a result.
    pub open spec fn attempt(self) -> Step<Result<T, ErrorView>> {
        match self {
            Step::Ask(request) => Step::Ask(request),
            Step::Stray => Step::Stray,
            Step::Fail(error, log) => Step::Done(Err(error), log),
            Step::Done(value, log) => Step::Done(Ok(value), log),
        }
    }
}

/// A failure with one message.
pub open spec fn fails<T>(text: Seq<char>, log: Log) -> Step<T> {
    Step::Fail(plain(text), log)
}

/// A result that needs no answer, or a failure.
pub open spec fn settled<T>(outcome: Result<T, ErrorView>, log: Log) -> Step<T> {
    match outcome {
        Ok(value) => Step::Done(value, log),
        Err(error) => Step::Fail(error, log),
    }
}

/// Why a procedure did not come to a result.
#[derive(Debug)]
pub enum Stop {
    Ask(Request),
    Stray,
    Fail(Error),
}

/// How far a long piece of work has come.
#[derive(Debug)]
pub enum Progress<T> {
    /// This is to be done outside next.
    Perform(Request),
    /// A step is done, and nothing is needed for the next one yet.
    Working,
    /// All is done.
    Finished(Result<T, Error>),
    /// The last answer was not one to the request that was made.
    Stray,
}

/// Whether a procedure came out where `step` says, with `rest` left of the log.
pub open spec fn follows<T: DeepView>(ret: Result<T, Stop>, rest: Log, step: Step<T::V>) -> bool {
    match step {
        Step::Ask(request) => ret matches Err(Stop::Ask(asked)) && asked.deep_view() == request,
        Step::Stray => ret matches Err(Stop::Stray),
        Step::Fail(error, log) => ret matches Err(Stop::Fail(failed)) && failed.deep_view() == error
            && rest == log,
        Step::Done(value, log) => ret matches Ok(result) && result.deep_view() == value && rest
            == log,
    }
}

/// Whether a procedure that reports failures of the system as a result came out
/// where `step` says, with `rest` left of the log.
pub open spec fn reports<T: DeepView>(
    ret: Result<Result<T, IoError>, Stop>,
    rest: Log,
    step: Step<Result<T::V, IoErrorView>>,
) -> bool {
    match step {
        Step::Ask(request) => ret matches Err(Stop::Ask(asked)) && asked.deep_view() == request,
        Step::Stray => ret matches Err(Stop::Stray),
        Step::Fail(error, log) => ret matches Err(Stop::Fail(failed)) && failed.deep_view() == error
            && rest == log,
        Step::Done(Ok(value), log) => ret matches Ok(Ok(result)) && result.deep_view() == value
            && rest == log,
        Step::Done(Err(error), log) => ret matches Ok(Err(failed)) && failed.deep_view() == error
            && rest == log,
    }
}

/// Whether a request was answered as `step` says, with `rest` left of the log.
pub open spec fn answers<T>(ret: Result<&T, Stop>, rest: Log, step: Step<T>) -> bool {
    match step {
        Step::Ask(request) => ret matches Err(Stop::Ask(asked)) && asked.deep_view() == request,
        Step::Stray => ret matches Err(Stop::Stray),
        Step::Fail(error, log) => ret matches Err(Stop::Fail(failed)) && failed.deep_view() == error
            && rest == log,
        Step::Done(value, log) => ret matches Ok(result) && *result == value && rest == log,
    }
}

/// The text of a byte string is the byte string.
pub broadcast proof fn lemma_bytes(v: Vec<u8>)
    ensures
        #[trigger] v.deep_view() == v@,
{
    assert(v.deep_view() =~= v@);
}

/// A log of answers being read.
pub struct Session<'a> {
    rest: &'a [Reply],
}

impl<'a> View for Session<'a> {
    type V = Log;

    closed spec fn view(&self) -> Log {
        self.rest@
    }
}

impl<'a> Session<'a> {
    /// A session at the beginning of `log`.
    pub fn new(log: &'a [Reply]) -> (r: Session<'a>)
        ensures
            r@ == log@,
    {
        Session { rest: log }
    }

    /// The next answer.
    pub fn next(&mut self) -> (r: Option<&'a Reply>)
        ensures
            match r {
                None => old(self)@.len() == 0 && final(self)@ == old(self)@,
                Some(reply) => {
                    &&& old(self)@.len() > 0
                    &&& *reply == old(self)@[0]
                    &&& final(self)@ == old(self)@.drop_first()
                },
            },
    {
        let n = self.rest.len();
        if n == 0 {
            return None;
        }
        let reply = &self.rest[0];
        self.rest = slice_subrange(self.rest, 1, n);
        assert(self.rest@ =~= old(self).rest@.drop_first());
        Some(reply)
    }
}

impl<'a> Session<'a> {
    /// Whether all answers were used.
    pub fn is_over(&self) -> (r: bool)
        ensures
            r == (self@.len() == 0),
    {
        self.rest.len() == 0
    }
}

/// A failure with one message.
pub fn stop(text: &str) -> (r: Stop)
    ensures
        r matches Stop::Fail(error) && error.deep_view() == plain(text@),
{
    Stop::Fail(failure(text))
}

/// The failure that an operation of the system reported.
pub fn stop_system(error: &IoError) -> (r: Stop)
    ensures
        r matches Stop::Fail(failed) && failed.deep_view() == system(*error),
{
    Stop::Fail(system_failure(error))
}

/// The same outcome, with a context around a failure.
pub fn context<T: DeepView>(outcome: Result<T, Stop>, text: &str) -> (r: Result<T, Stop>)
    ensures
        forall|rest: Log, step: Step<T::V>| #[trigger]
            follows(outcome, rest, step) ==> follows(r, rest, step.context(text@)),
{
    match outcome {
        Err(Stop::Fail(error)) => Err(Stop::Fail(error.context(text))),
        other => other,
    }
}

/// The same outcome, with a failure of usage in place of a failure.
pub fn blame<T: DeepView>(outcome: Result<T, Stop>, note: &str) -> (r: Result<T, Stop>)
    ensures
        forall|rest: Log, step: Step<T::V>| #[trigger]
            follows(outcome, rest, step) ==> follows(r, rest, step.blame(note@)),
{
    match outcome {
        Err(Stop::Fail(error)) => Err(
            Stop::Fail(usage(cat(note, error.headline().as_str()).as_str())),
        ),
        other => other,
    }
}

/// The same outcome, with a failure as a result.
pub fn attempt<T: DeepView>(outcome: Result<T, Stop>) -> (r: Result<Result<T, Error>, Stop>)
    ensures
        r == match outcome {
            Ok(value) => Ok::<Result<T, Error>, Stop>(Ok(value)),
            Err(Stop::Fail(error)) => Ok(Err(error)),
            Err(other) => Err(other),
        },
{
    match outcome {
        Ok(value) => Ok(Ok(value)),
        Err(Stop::Fail(error)) => Ok(Err(error)),
        Err(other) => Err(other),
    }
}

pub open spec fn git_reply(log: Log, context: GitContext, cwd: Seq<u8>, args: Seq<Seq<char>>) -> Step<
    Result<Output, IoError>,
> {
    if log.len() == 0 {
        Step::Ask(RequestView::Git { context, cwd, args })
    } else if let Reply::Git(outcome) = log[0] {
        Step::Done(outcome, log.drop_first())
    } else {
        Step::Stray
    }
}

/// Runs Git.
pub fn ask_git<'a>(
    io: &mut Session<'a>,
    context: GitContext,
    cwd: &[u8],
    args: &Vec<String>,
) -> (r: Result<&'a Result<Output, IoError>, Stop>)
    ensures
        answers(r, final(io)@, git_reply(old(io)@, context, cwd@, args.deep_view())),
{
    match io.next() {
        None => Err(Stop::Ask(Request::Git { context, cwd: slice_to_vec(cwd), args: copied(args) })),
        Some(Reply::Git(outcome)) => Ok(outcome),
        Some(_) => Err(Stop::Stray),
    }
}

/// A request without a result, answered or not.
pub open spec fn unit_reply(log: Log, request: RequestView) -> Step<Result<(), IoError>> {
    if log.len() == 0 {
        Step::Ask(request)
    } else if let Reply::Unit(outcome) = log[0] {
        Step::Done(outcome, log.drop_first())
    } else {
        Step::Stray
    }
}

/// Has something done that has no result.
pub fn ask_unit<'a>(io: &mut Session<'a>, request: Request) -> (r: Result<
    &'a Result<(), IoError>,
    Stop,
>)
    ensures
        answers(r, final(io)@, unit_reply(old(io)@, request.deep_view())),
{
    match io.next() {
        None => Err(Stop::Ask(request)),
        Some(Reply::Unit(outcome)) => Ok(outcome),
        Some(_) => Err(Stop::Stray),
    }
}

/// A request for a path, answered or not.
pub open spec fn path_reply(log: Log, request: RequestView) -> Step<Result<Vec<u8>, IoError>> {
    if log.len() == 0 {
        Step::Ask(request)
    } else if let Reply::Path(outcome) = log[0] {
        Step::Done(outcome, log.drop_first())
    } else {
        Step::Stray
    }
}

/// Asks for a path.
pub fn ask_path<'a>(io: &mut Session<'a>, request: Request) -> (r: Result<
    &'a Result<Vec<u8>, IoError>,
    Stop,
>)
    ensures
        answers(r, final(io)@, path_reply(old(io)@, request.deep_view())),
{
    match io.next() {
        None => Err(Stop::Ask(request)),
        Some(Reply::Path(outcome)) => Ok(outcome),
        Some(_) => Err(Stop::Stray),
    }
}

/// Resolves a path physically.
pub open spec fn canonicalize_protocol(log: Log, path: Seq<u8>) -> Step<Seq<u8>> {
    path_reply(log, RequestView::Canonicalize(path)).bind(
        |outcome: Result<Vec<u8>, IoError>, log: Log|
            match outcome {
                Ok(resolved) => Step::Done(resolved@, log),
                Err(error) => Step::Fail(system(error), log),
            },
    )
}

/// Resolves a path physically.
pub fn canonicalize<'a>(io: &mut Session<'a>, path: &[u8]) -> (r: Result<Vec<u8>, Stop>)
    ensures
        follows(r, final(io)@, canonicalize_protocol(old(io)@, path@)),
{
    broadcast use lemma_bytes;

    match ask_path(io, Request::Canonicalize(slice_to_vec(path)))? {
        Ok(resolved) => Ok(slice_to_vec(resolved.as_slice())),
        Err(error) => Err(stop_system(error)),
    }
}

/// A request for a description of an entry, answered or not.
pub open spec fn metadata_reply(log: Log, request: RequestView) -> Step<Result<Metadata, IoError>> {
    if log.len() == 0 {
        Step::Ask(request)
    } else if let Reply::Metadata(outcome) = log[0] {
        Step::Done(outcome, log.drop_first())
    } else {
        Step::Stray
    }
}

/// Asks for a description of an entry.
pub fn ask_metadata<'a>(io: &mut Session<'a>, request: Request) -> (r: Result<
    &'a Result<Metadata, IoError>,
    Stop,
>)
    ensures
        answers(r, final(io)@, metadata_reply(old(io)@, request.deep_view())),
{
    match io.next() {
        None => Err(Stop::Ask(request)),
        Some(Reply::Metadata(outcome)) => Ok(outcome),
        Some(_) => Err(Stop::Stray),
    }
}

/// The home directory, answered or not.
pub open spec fn home_reply(log: Log) -> Step<Option<Vec<u8>>> {
    if log.len() == 0 {
        Step::Ask(RequestView::Home)
    } else if let Reply::Home(home) = log[0] {
        Step::Done(home, log.drop_first())
    } else {
        Step::Stray
    }
}

/// Asks for the home directory.
pub fn ask_home<'a>(io: &mut Session<'a>) -> (r: Result<&'a Option<Vec<u8>>, Stop>)
    ensures
        answers(r, final(io)@, home_reply(old(io)@)),
{
    match io.next() {
        None => Err(Stop::Ask(Request::Home)),
        Some(Reply::Home(home)) => Ok(home),
        Some(_) => Err(Stop::Stray),
    }
}

/// A clone, answered or not.
pub open spec fn clone_reply(log: Log, source: Seq<u8>, destination: Seq<u8>) -> Step<
    Result<(), OsError>,
> {
    if log.len() == 0 {
        Step::Ask(RequestView::Clone { source, destination })
    } else if let Reply::Cloned(outcome) = log[0] {
        Step::Done(outcome, log.drop_first())
    } else {
        Step::Stray
    }
}

/// Has one file cloned.
pub fn ask_clone<'a>(io: &mut Session<'a>, source: &[u8], destination: &[u8]) -> (r: Result<
    &'a Result<(), OsError>,
    Stop,
>)
    ensures
        answers(r, final(io)@, clone_reply(old(io)@, source@, destination@)),
{
    match io.next() {
        None => Err(
            Stop::Ask(
                Request::Clone {
                    source: slice_to_vec(source),
                    destination: slice_to_vec(destination),
                },
            ),
        ),
        Some(Reply::Cloned(outcome)) => Ok(outcome),
        Some(_) => Err(Stop::Stray),
    }
}

/// A trial file and directory, answered or not.
pub open spec fn scratch_reply(log: Log, source_directory: Seq<u8>, destination_parent: Seq<u8>) -> Step<
    Result<Scratch, IoError>,
> {
    if log.len() == 0 {
        Step::Ask(RequestView::Scratch { source_directory, destination_parent })
    } else if let Reply::Scratch(outcome) = log[0] {
        Step::Done(outcome, log.drop_first())
    } else {
        Step::Stray
    }
}

/// Has a trial file and directory made.
pub fn ask_scratch<'a>(
    io: &mut Session<'a>,
    source_directory: &[u8],
    destination_parent: &[u8],
) -> (r: Result<&'a Result<Scratch, IoError>, Stop>)
    ensures
        answers(
            r,
            final(io)@,
            scratch_reply(old(io)@, source_directory@, destination_parent@),
        ),
{
    match io.next() {
        None => Err(
            Stop::Ask(
                Request::Scratch {
                    source_directory: slice_to_vec(source_directory),
                    destination_parent: slice_to_vec(destination_parent),
                },
            ),
        ),
        Some(Reply::Scratch(outcome)) => Ok(outcome),
        Some(_) => Err(Stop::Stray),
    }
}

/// The next entry of a walk, answered or not.
pub open spec fn walk_reply(log: Log) -> Step<Option<Result<WalkEntry, WalkFailure>>> {
    if log.len() == 0 {
        Step::Ask(RequestView::NextEntry)
    } else if let Reply::Walked(met) = log[0] {
        Step::Done(met, log.drop_first())
    } else {
        Step::Stray
    }
}

/// Asks for the next entry of a walk.
pub fn ask_walk<'a>(io: &mut Session<'a>) -> (r: Result<
    &'a Option<Result<WalkEntry, WalkFailure>>,
    Stop,
>)
    ensures
        answers(r, final(io)@, walk_reply(old(io)@)),
{
    match io.next() {
        None => Err(Stop::Ask(Request::NextEntry)),
        Some(Reply::Walked(met)) => Ok(met),
        Some(_) => Err(Stop::Stray),
    }
}

/// A plan, answered or not.
pub open spec fn plan_reply(log: Log, survey: SurveyView) -> Step<Result<Vec<Entry>, Error>> {
    if log.len() == 0 {
        Step::Ask(RequestView::Plan(survey))
    } else if let Reply::Planned(outcome) = log[0] {
        Step::Done(outcome, log.drop_first())
    } else {
        Step::Stray
    }
}

/// Has a plan made.
pub fn ask_plan<'a>(io: &mut Session<'a>, survey: Survey) -> (r: Result<
    &'a Result<Vec<Entry>, Error>,
    Stop,
>)
    ensures
        answers(r, final(io)@, plan_reply(old(io)@, survey.deep_view())),
{
    match io.next() {
        None => Err(Stop::Ask(Request::Plan(survey))),
        Some(Reply::Planned(outcome)) => Ok(outcome),
        Some(_) => Err(Stop::Stray),
    }
}

/// What was carried over, answered or not.
pub open spec fn populate_reply(
    log: Log,
    source: Seq<u8>,
    destination: Seq<u8>,
    entries: Seq<EntryView>,
) -> Step<Result<Stats, Error>> {
    if log.len() == 0 {
        Step::Ask(RequestView::Populate { source, destination, entries })
    } else if let Reply::Populated(outcome) = log[0] {
        Step::Done(outcome, log.drop_first())
    } else {
        Step::Stray
    }
}

/// Has carried over what was planned.
pub fn ask_populate<'a>(
    io: &mut Session<'a>,
    source: &[u8],
    destination: &[u8],
    entries: &Vec<Entry>,
) -> (r: Result<&'a Result<Stats, Error>, Stop>)
    ensures
        answers(
            r,
            final(io)@,
            populate_reply(old(io)@, source@, destination@, entries.deep_view()),
        ),
{
    match io.next() {
        None => Err(
            Stop::Ask(
                Request::Populate {
                    source: slice_to_vec(source),
                    destination: slice_to_vec(destination),
                    entries: crate::clone::copied_entries(entries),
                },
            ),
        ),
        Some(Reply::Populated(outcome)) => Ok(outcome),
        Some(_) => Err(Stop::Stray),
    }
}

/// Whether `b`, with more answers at the end of the log, comes out where `a` does:
/// once nothing more is asked, further answers are not looked at.
pub open spec fn extends<T>(a: Step<T>, b: Step<T>, more: Log) -> bool {
    match a {
        Step::Ask(_) => true,
        Step::Stray => b is Stray,
        Step::Fail(error, rest) => b == Step::<T>::Fail(error, rest + more),
        Step::Done(value, rest) => b == Step::<T>::Done(value, rest + more),
    }
}

/// Nothing before `more` is `more`.
pub proof fn lemma_used_up(more: Log)
    ensures
        forall|rest: Log| rest.len() == 0 ==> #[trigger] (rest + more) == more,
{
    assert forall|rest: Log| rest.len() == 0 implies #[trigger] (rest + more) == more by {
        assert(rest + more =~= more);
    }
}

proof fn lemma_longer(log: Log, more: Log)
    ensures
        log.len() > 0 ==> (log + more).len() > 0 && (log + more)[0] == log[0],
        log.len() > 0 ==> (log + more).drop_first() == log.drop_first() + more,
{
    if log.len() > 0 {
        assert((log + more).drop_first() =~= log.drop_first() + more);
    }
}

pub broadcast proof fn steady_git(
    log: Log,
    more: Log,
    context: GitContext,
    cwd: Seq<u8>,
    args: Seq<Seq<char>>,
)
    ensures
        extends(
            git_reply(log, context, cwd, args),
            #[trigger] git_reply(log + more, context, cwd, args),
            more,
        ),
{
    lemma_longer(log, more);
}

pub broadcast proof fn steady_unit(log: Log, more: Log, request: RequestView)
    ensures
        extends(unit_reply(log, request), #[trigger] unit_reply(log + more, request), more),
{
    lemma_longer(log, more);
}

pub broadcast proof fn steady_path(log: Log, more: Log, request: RequestView)
    ensures
        extends(path_reply(log, request), #[trigger] path_reply(log + more, request), more),
{
    lemma_longer(log, more);
}

pub broadcast proof fn steady_metadata(log: Log, more: Log, request: RequestView)
    ensures
        extends(metadata_reply(log, request), #[trigger] metadata_reply(log + more, request), more),
{
    lemma_longer(log, more);
}

pub broadcast proof fn steady_home(log: Log, more: Log)
    ensures
        extends(home_reply(log), #[trigger] home_reply(log + more), more),
{
    lemma_longer(log, more);
}

pub broadcast proof fn steady_clone(log: Log, more: Log, source: Seq<u8>, destination: Seq<u8>)
    ensures
        extends(
            clone_reply(log, source, destination),
            #[trigger] clone_reply(log + more, source, destination),
            more,
        ),
{
    lemma_longer(log, more);
}

pub broadcast proof fn steady_scratch(log: Log, more: Log, source: Seq<u8>, parent: Seq<u8>)
    ensures
        extends(
            scratch_reply(log, source, parent),
            #[trigger] scratch_reply(log + more, source, parent),
            more,
        ),
{
    lemma_longer(log, more);
}

pub broadcast proof fn steady_walk(log: Log, more: Log)
    ensures
        extends(walk_reply(log), #[trigger] walk_reply(log + more), more),
{
    lemma_longer(log, more);
}

pub broadcast proof fn steady_plan(log: Log, more: Log, survey: SurveyView)
    ensures
        extends(plan_reply(log, survey), #[trigger] plan_reply(log + more, survey), more),
{
    lemma_longer(log, more);
}

pub broadcast proof fn steady_populate(
    log: Log,
    more: Log,
    source: Seq<u8>,
    destination: Seq<u8>,
    entries: Seq<EntryView>,
)
    ensures
        extends(
            populate_reply(log, source, destination, entries),
            #[trigger] populate_reply(log + more, source, destination, entries),
            more,
        ),
{
    lemma_longer(log, more);
}

pub broadcast proof fn steady_canonicalize(log: Log, more: Log, path: Seq<u8>)
    ensures
        extends(
            canonicalize_protocol(log, path),
            #[trigger] canonicalize_protocol(log + more, path),
            more,
        ),
{
    broadcast use steady_path;

}

pub broadcast group group_steady_replies {
    steady_git,
    steady_unit,
    steady_path,
    steady_metadata,
    steady_home,
    steady_clone,
    steady_scratch,
    steady_walk,
    steady_plan,
    steady_populate,
    steady_canonicalize,
}

} // verus!
