//! Where worktrees go: from a remote to a directory, and from a path to the entry
//! that it names.

use vstd::prelude::*;

use vstd::slice::slice_to_vec;
use vstd::utf8::{decode_utf8, encode_utf8, valid_utf8};

use crate::encoding::{bytes_of, lossy, read_lossy, read_utf8, utf8_error};
use crate::errors::{failure, plain, system, system_failure, Error, ErrorView};
use crate::git;
use crate::git::{optional_protocol, path_str, path_text, text_protocol};
use crate::paths;
use crate::paths::{
    absolute_path, components, is_name, join_path, lemma_parent_shorter, name_of, parent_of,
};
use crate::session::{
    ask_home, ask_metadata, ask_path, context, fails, follows, home_reply, lemma_bytes,
    metadata_reply, path_reply, stop, stop_system, ErrorKind, FileKind, GitContext, IoError, Log,
    Metadata, Request, RequestView, Session, Step, Stop,
};
use crate::text;
use crate::text::{cat, cat3, cut_suffix, halves, holds_word, no_leading_slash, no_outer_slash};

verus! {

broadcast use lemma_bytes;

/// The address of a remote as a URL: `host:path` stands for a path on a host
/// reached over SSH.
pub open spec fn remote_url(raw: Seq<char>) -> Result<Seq<char>, ErrorView> {
    if holds_word(raw, "://"@) {
        Ok(raw)
    } else {
        match halves(raw, ':') {
            Some((host, path)) => if holds_word(host, "/"@) || host.len() == 0 {
                Err(plain("local remote needs --path"@))
            } else {
                Ok("ssh://"@ + host + "/"@ + no_leading_slash(path))
            },
            None => Err(plain("remote has no hostname; supply --path"@)),
        }
    }
}

/// The parts of a URL that tell repositories apart.
#[derive(Debug)]
pub struct UrlParts {
    pub scheme: String,
    pub host: Option<String>,
    pub path: String,
}

/// What `url` reads in a text: the scheme, the host where there is one, and the
/// path, or why it is no URL.
pub uninterp spec fn url_parts(text: Seq<char>) -> Result<
    (Seq<char>, Option<Seq<char>>, Seq<char>),
    Seq<char>,
>;

/// Calls `url::Url::parse` and takes the scheme, the host and the path of what was
/// parsed, or the wording of the error. All of it depends on the text alone; how a
/// URL is read stays open.
#[verifier::external_body]
fn parse_url(text: &str) -> (r: Result<UrlParts, String>)
    ensures
        match r {
            Ok(parts) => url_parts(text@) == Ok::<
                (Seq<char>, Option<Seq<char>>, Seq<char>),
                Seq<char>,
            >((parts.scheme@, parts.host.deep_view(), parts.path@)),
            Err(error) => url_parts(text@) == Err::<
                (Seq<char>, Option<Seq<char>>, Seq<char>),
                Seq<char>,
            >(error@),
        },
{
    match url::Url::parse(text) {
        Ok(url) => Ok(
            UrlParts {
                scheme: url.scheme().to_owned(),
                host: url.host_str().map(str::to_owned),
                path: url.path().to_owned(),
            },
        ),
        Err(error) => Err(error.to_string()),
    }
}

/// The value of a hexadecimal digit.
pub open spec fn hex_value(b: u8) -> Option<int> {
    if 48 <= b <= 57 {
        Some(b - 48)
    } else if 65 <= b <= 70 {
        Some(b - 55)
    } else if 97 <= b <= 102 {
        Some(b - 87)
    } else {
        None
    }
}

/// The bytes with each percent sign and two hexadecimal digits read as one byte.
pub open spec fn percent_decoded(bytes: Seq<u8>) -> Seq<u8>
    decreases bytes.len(),
{
    if bytes.len() == 0 {
        bytes
    } else if bytes.len() >= 3 && bytes[0] == 37 && hex_value(bytes[1]) is Some && hex_value(
        bytes[2],
    ) is Some {
        seq![(16 * hex_value(bytes[1])->0 + hex_value(bytes[2])->0) as u8] + percent_decoded(
            bytes.skip(3),
        )
    } else {
        seq![bytes[0]] + percent_decoded(bytes.skip(1))
    }
}

/// Calls `percent_encoding::percent_decode_str` and collects the bytes it gives:
/// each percent sign that two hexadecimal digits follow stands for one byte, and
/// every other byte for itself.
#[verifier::external_body]
fn percent_decode(text: &str) -> (r: Vec<u8>)
    ensures
        r@ == percent_decoded(encode_utf8(text@)),
{
    percent_encoding::percent_decode_str(text).collect()
}

/// Whether every component of a path is a name.
pub open spec fn names_only(path: Seq<u8>) -> bool {
    forall|k: int| 0 <= k < components(path).len() ==> is_name(#[trigger] components(path)[k])
}

/// The directory for a repository, from the parts of its URL.
pub open spec fn repository_of(
    scheme: Seq<char>,
    host: Option<Seq<char>>,
    path: Seq<char>,
) -> Result<Seq<u8>, ErrorView> {
    let decoded = percent_decoded(encode_utf8(path));
    let shortened = cut_suffix(no_outer_slash(decode_utf8(decoded)), ".git"@);
    if scheme != "ssh"@ && scheme != "https"@ && scheme != "http"@ && scheme != "git"@ {
        Err(plain("remote URL requires --path"@))
    } else if host is None {
        Err(plain("remote has no hostname; supply --path"@))
    } else if !valid_utf8(decoded) {
        Err(plain(utf8_error(decoded)).wrap("non-UTF-8 remote path"@))
    } else if shortened.len() == 0 {
        Err(plain("remote has no repository path; supply --path"@))
    } else if !names_only(encode_utf8(shortened)) {
        Err(plain("invalid remote repository path"@))
    } else {
        Ok(join_path(encode_utf8(host->0), encode_utf8(shortened)))
    }
}

/// The directory for a repository, from the parts of its URL: the host, then the
/// path without the slashes around it and without one `.git` at its end.
pub fn repository_path(url: &UrlParts) -> (r: Result<Vec<u8>, Error>)
    ensures
        match repository_of(url.scheme@, url.host.deep_view(), url.path@) {
            Ok(path) => r matches Ok(p) && p@ == path,
            Err(error) => r matches Err(e) && e.deep_view() == error,
        },
{
    let scheme = url.scheme.as_str();
    if !text::same(scheme, "ssh") && !text::same(scheme, "https") && !text::same(scheme, "http")
        && !text::same(scheme, "git") {
        return Err(failure("remote URL requires --path"));
    }
    match &url.host {
        None => Err(failure("remote has no hostname; supply --path")),
        Some(host) => {
            let decoded = percent_decode(url.path.as_str());
            match read_utf8(decoded.as_slice()) {
                Err(error) => Err(failure(error.as_str()).context("non-UTF-8 remote path")),
                Ok(decoded) => {
                    let path = text::trim_slashes(decoded.as_str());
                    let path = text::strip_suffix(path.as_str(), ".git");
                    if path.as_str().unicode_len() == 0 {
                        return Err(failure("remote has no repository path; supply --path"));
                    }
                    let relative = bytes_of(path.as_str());
                    if !paths::only_names(relative.as_slice()) {
                        return Err(failure("invalid remote repository path"));
                    }
                    Ok(paths::join(bytes_of(host.as_str()).as_slice(), relative.as_slice()))
                },
            }
        },
    }
}

/// The URL that an address of a remote stands for, and the directory for the
/// repository.
pub open spec fn remote_identity(raw: Seq<char>) -> Result<(Seq<char>, Seq<u8>), ErrorView> {
    match remote_url(raw) {
        Err(error) => Err(error),
        Ok(normalized) => match url_parts(normalized) {
            Err(error) => Err(plain(error).wrap("invalid remote URL; supply --path"@)),
            Ok((scheme, host, path)) => match repository_of(scheme, host, path) {
                Err(error) => Err(error),
                Ok(repository) => Ok((normalized, repository)),
            },
        },
    }
}

/// The URL that an address of a remote stands for.
pub fn normalized_remote(raw: &str) -> (r: Result<String, Error>)
    ensures
        match remote_url(raw@) {
            Ok(url) => r matches Ok(u) && u@ == url,
            Err(error) => r matches Err(e) && e.deep_view() == error,
        },
{
    if text::contains(raw, "://") {
        return Ok(raw.to_owned());
    }
    match text::split_once(raw, ':') {
        Some((host, path)) => {
            if text::contains(host.as_str(), "/") || host.as_str().unicode_len() == 0 {
                return Err(failure("local remote needs --path"));
            }
            let rest = text::trim_start_slashes(path.as_str());
            let r = cat3(cat("ssh://", host.as_str()).as_str(), "/", rest.as_str());
            Ok(r)
        },
        None => Err(failure("remote has no hostname; supply --path")),
    }
}

/// The URL that an address of a remote stands for, and the directory for the
/// repository below the root of all worktrees.
pub fn remote_path(raw: &str) -> (r: Result<(String, Vec<u8>), Error>)
    ensures
        match remote_identity(raw@) {
            Ok((url, path)) => r matches Ok((u, p)) && u@ == url && p@ == path,
            Err(error) => r matches Err(e) && e.deep_view() == error,
        },
{
    match normalized_remote(raw) {
        Err(error) => Err(error),
        Ok(normalized) => match parse_url(normalized.as_str()) {
            Err(error) => Err(failure(error.as_str()).context("invalid remote URL; supply --path")),
            Ok(url) => match repository_path(&url) {
                Err(error) => Err(error),
                Ok(path) => Ok((normalized, path)),
            },
        },
    }
}

/// Resolves a directory physically, allowing only unambiguous missing descendants.
/// `..` is never collapsed before symbolic links are resolved: it can name another
/// directory.
pub open spec fn resolve_protocol(log: Log, path: Seq<u8>) -> Step<Seq<u8>>
    decreases path.len(),
{
    proof {
        lemma_parent_shorter(path);
    }
    match path_reply(log, RequestView::Canonicalize(path)) {
        Step::Ask(request) => Step::Ask(request),
        Step::Stray => Step::Stray,
        Step::Fail(error, log) => Step::Fail(error, log),
        Step::Done(Ok(resolved), log) => directory_protocol(log, path, resolved@),
        Step::Done(Err(error), log) => if error.kind != ErrorKind::NotFound {
            Step::Fail(system(error).wrap("resolving path ancestor"@), log)
        } else {
            match metadata_reply(log, RequestView::SymlinkMetadata(path)) {
                Step::Ask(request) => Step::Ask(request),
                Step::Stray => Step::Stray,
                Step::Fail(error, log) => Step::Fail(error, log),
                Step::Done(Ok(_), log) => Step::Fail(
                    system(error).wrap("resolving path ancestor"@),
                    log,
                ),
                Step::Done(Err(entry), log) => if entry.kind != ErrorKind::NotFound {
                    Step::Fail(system(entry).wrap("reading path ancestor"@), log)
                } else {
                    match (name_of(path), parent_of(path)) {
                        (None, _) => fails(
                            "cannot resolve parent traversal through a missing directory"@,
                            log,
                        ),
                        (Some(_), None) => fails("no accessible path ancestor"@, log),
                        (Some(name), Some(parent)) => resolve_protocol(log, parent).bind(
                            |resolved: Seq<u8>, log: Log|
                                Step::Done(join_path(resolved, name), log),
                        ),
                    }
                },
            }
        },
    }
}

/// A resolved path, once it is known to be a directory.
pub open spec fn directory_protocol(log: Log, path: Seq<u8>, resolved: Seq<u8>) -> Step<Seq<u8>> {
    metadata_reply(log, RequestView::Metadata(resolved)).bind(
        |outcome: Result<Metadata, IoError>, log: Log|
            match outcome {
                Err(error) => Step::Fail(system(error), log),
                Ok(metadata) => if metadata.kind != FileKind::Directory {
                    fails("path ancestor is not a directory: "@ + lossy(path), log)
                } else {
                    Step::Done(resolved, log)
                },
            },
    )
}

fn resolve_directory<'a>(io: &mut Session<'a>, path: &[u8]) -> (r: Result<Vec<u8>, Stop>)
    ensures
        follows(r, final(io)@, resolve_protocol(old(io)@, path@)),
    decreases path@.len(),
{
    match ask_path(io, Request::Canonicalize(slice_to_vec(path)))? {
        Ok(resolved) => match ask_metadata(
            io,
            Request::Metadata(slice_to_vec(resolved.as_slice())),
        )? {
            Err(error) => Err(stop_system(error)),
            Ok(metadata) => {
                if metadata.kind != FileKind::Directory {
                    let message = cat(
                        "path ancestor is not a directory: ",
                        read_lossy(path).as_str(),
                    );
                    return Err(stop(message.as_str()));
                }
                Ok(slice_to_vec(resolved.as_slice()))
            },
        },
        Err(error) => {
            if error.kind != ErrorKind::NotFound {
                return Err(Stop::Fail(system_failure(error).context("resolving path ancestor")));
            }
            match ask_metadata(io, Request::SymlinkMetadata(slice_to_vec(path)))? {
                Ok(_) => {
                    return Err(
                        Stop::Fail(system_failure(error).context("resolving path ancestor")),
                    );
                },
                Err(entry) => {
                    if entry.kind != ErrorKind::NotFound {
                        return Err(
                            Stop::Fail(system_failure(entry).context("reading path ancestor")),
                        );
                    }
                },
            }
            // A missing prefix followed by `..` has no identity. Refuse it rather
            // than guess by removing the missing component.
            match paths::file_name(path) {
                None => Err(
                    stop("cannot resolve parent traversal through a missing directory"),
                ),
                Some(name) => match paths::parent(path) {
                    None => Err(stop("no accessible path ancestor")),
                    Some(parent) => {
                        proof {
                            lemma_parent_shorter(path@);
                        }
                        let resolved = resolve_directory(io, parent.as_slice())?;
                        Ok(paths::join(resolved.as_slice(), name.as_slice()))
                    },
                },
            }
        },
    }
}

/// A path, once it is known to be a text.
pub open spec fn spelled(path: Seq<u8>, log: Log) -> Step<Seq<u8>> {
    match path_text(path) {
        Ok(_) => Step::Done(path, log),
        Err(error) => Step::Fail(error, log),
    }
}

fn spell(path: Vec<u8>) -> (r: Result<Vec<u8>, Stop>)
    ensures
        forall|rest: Log| #[trigger] follows(r, rest, spelled(path@, rest)),
{
    match path_str(path.as_slice()) {
        Ok(_) => Ok(path),
        Err(error) => Err(Stop::Fail(error)),
    }
}

/// A path seen from a directory.
pub open spec fn seen_from(path: Seq<u8>, cwd: Seq<u8>) -> Seq<u8> {
    if absolute_path(path) {
        path
    } else {
        join_path(cwd, path)
    }
}

pub open spec fn absolute_protocol(log: Log, path: Seq<u8>, cwd: Seq<u8>) -> Step<Seq<u8>> {
    let joined = seen_from(path, cwd);
    spelled(path, log).bind(
        |_path: Seq<u8>, log: Log|
            (match name_of(joined) {
                Some(name) => match parent_of(joined) {
                    None => fails("destination needs a parent"@, log),
                    Some(parent) => resolve_protocol(log, parent).bind(
                        |resolved: Seq<u8>, log: Log| Step::Done(join_path(resolved, name), log),
                    ),
                },
                None => resolve_protocol(log, joined),
            }).bind(|result: Seq<u8>, log: Log| spelled(result, log)),
    )
}

/// Resolves the ancestors of a path, keeping its last component as it is, so that
/// an entry of that name can be noticed.
pub fn absolute<'a>(io: &mut Session<'a>, path: &[u8], cwd: &[u8]) -> (r: Result<Vec<u8>, Stop>)
    ensures
        follows(r, final(io)@, absolute_protocol(old(io)@, path@, cwd@)),
{
    let joined = if paths::is_absolute(path) {
        slice_to_vec(path)
    } else {
        paths::join(cwd, path)
    };
    let ghost start = io@;
    let kept = spell(slice_to_vec(path));
    assert(follows(kept, start, spelled(path@, start)));
    kept?;
    let result = match paths::file_name(joined.as_slice()) {
        Some(name) => match paths::parent(joined.as_slice()) {
            None => {
                return Err(stop("destination needs a parent"));
            },
            Some(parent) => {
                let resolved = resolve_directory(io, parent.as_slice())?;
                paths::join(resolved.as_slice(), name.as_slice())
            },
        },
        None => resolve_directory(io, joined.as_slice())?,
    };
    let ghost reached = result@;
    let ghost rest = io@;
    let r = spell(result);
    assert(follows(r, rest, spelled(reached, rest)));
    r
}

pub open spec fn selector_protocol(log: Log, path: Seq<u8>, cwd: Seq<u8>) -> Step<Seq<u8>> {
    absolute_protocol(log, path, cwd).bind(
        |absolute: Seq<u8>, log: Log|
            path_reply(log, RequestView::Canonicalize(absolute)).bind(
                |outcome: Result<Vec<u8>, IoError>, log: Log|
                    match outcome {
                        Ok(resolved) => spelled(resolved@, log),
                        Err(error) => if error.kind == ErrorKind::NotFound {
                            Step::Done(absolute, log)
                        } else {
                            Step::Fail(system(error).wrap("resolving worktree selector"@), log)
                        },
                    },
            ),
    )
}

/// The path that a selector stands for. An existing one names the physical
/// worktree, also through a last component that is an alias; a missing one can
/// still name a worktree that is registered and gone.
pub fn selector_path<'a>(io: &mut Session<'a>, path: &[u8], cwd: &[u8]) -> (r: Result<Vec<u8>, Stop>)
    ensures
        follows(r, final(io)@, selector_protocol(old(io)@, path@, cwd@)),
{
    let absolute = absolute(io, path, cwd)?;
    match ask_path(io, Request::Canonicalize(slice_to_vec(absolute.as_slice())))? {
        Ok(resolved) => {
            let ghost rest = io@;
            let r = spell(slice_to_vec(resolved.as_slice()));
            assert(follows(r, rest, spelled(resolved@, rest)));
            r
        },
        Err(error) => if error.kind == ErrorKind::NotFound {
            Ok(absolute)
        } else {
            Err(Stop::Fail(system_failure(error).context("resolving worktree selector")))
        },
    }
}

pub open spec fn remote_name_args() -> Seq<Seq<char>> {
    seq!["config"@, "--get"@, "gwt.remote"@]
}

pub open spec fn remote_url_args(remote: Seq<char>) -> Seq<Seq<char>> {
    seq!["remote"@, "get-url"@, "--"@, remote]
}

pub open spec fn root_args(url: Seq<char>) -> Seq<Seq<char>> {
    seq!["config"@, "--path"@, "--get-urlmatch"@, "gwt.root"@, url]
}

/// The directory that holds all worktrees: the configured one, else `worktrees` in
/// the home directory.
pub open spec fn root_protocol(log: Log, cwd: Seq<u8>, url: Seq<char>) -> Step<Seq<u8>> {
    optional_protocol(log, cwd, root_args(url)).bind(
        |configured: Option<Seq<char>>, log: Log|
            match configured {
                Some(root) => Step::Done(encode_utf8(root), log),
                None => home_reply(log).bind(
                    |home: Option<Vec<u8>>, log: Log|
                        match home {
                            None => fails(
                                "HOME is not set; configure gwt.root or supply --path"@,
                                log,
                            ),
                            Some(home) => Step::Done(
                                join_path(home@, encode_utf8("worktrees"@)),
                                log,
                            ),
                        },
                ),
            },
    )
}

fn root<'a>(io: &mut Session<'a>, cwd: &[u8], url: &str) -> (r: Result<Vec<u8>, Stop>)
    ensures
        follows(r, final(io)@, root_protocol(old(io)@, cwd@, url@)),
{
    let question = vec![
        "config".to_owned(),
        "--path".to_owned(),
        "--get-urlmatch".to_owned(),
        "gwt.root".to_owned(),
        url.to_owned(),
    ];
    assert(question.deep_view() =~= root_args(url@));
    match git::optional(io, cwd, &question)? {
        Some(root) => Ok(bytes_of(root.as_str())),
        None => match ask_home(io)? {
            None => Err(stop("HOME is not set; configure gwt.root or supply --path")),
            Some(home) => Ok(paths::join(home.as_slice(), bytes_of("worktrees").as_slice())),
        },
    }
}

pub open spec fn parent_protocol(log: Log, cwd: Seq<u8>) -> Step<Seq<u8>> {
    optional_protocol(log, cwd, remote_name_args()).bind(
        |name: Option<Seq<char>>, log: Log|
            {
                let remote = match name {
                    Some(remote) => remote,
                    None => "origin"@,
                };
                text_protocol(log, GitContext::Source, cwd, remote_url_args(remote)).context(
                    "cannot resolve repository remote; supply --path"@,
                ).bind(|address: Seq<char>, log: Log| repository_parent_protocol(log, cwd, address))
            },
    )
}

/// The directory for the worktrees of the repository with a remote at `address`.
pub open spec fn repository_parent_protocol(log: Log, cwd: Seq<u8>, address: Seq<char>) -> Step<
    Seq<u8>,
> {
    match remote_identity(address) {
        Err(error) => Step::Fail(error, log),
        Ok((url, repository)) => root_protocol(log, cwd, url).bind(
            |root: Seq<u8>, log: Log|
                if !absolute_path(root) {
                    fails("gwt.root must be absolute (~/ is supported by Git)"@, log)
                } else {
                    resolve_protocol(log, join_path(root, repository)).bind(
                        |parent: Seq<u8>, log: Log| spelled(parent, log),
                    )
                },
        ),
    }
}

/// The directory for the worktrees of this repository. It is resolved physically,
/// its own last component too, so that what lies below it can be told by its path.
pub fn parent<'a>(io: &mut Session<'a>, cwd: &[u8]) -> (r: Result<Vec<u8>, Stop>)
    ensures
        follows(r, final(io)@, parent_protocol(old(io)@, cwd@)),
{
    let question = vec!["config".to_owned(), "--get".to_owned(), "gwt.remote".to_owned()];
    assert(question.deep_view() =~= remote_name_args());
    let remote = match git::optional(io, cwd, &question)? {
        Some(remote) => remote,
        None => "origin".to_owned(),
    };
    let question = vec![
        "remote".to_owned(),
        "get-url".to_owned(),
        "--".to_owned(),
        remote.clone(),
    ];
    assert(question.deep_view() =~= remote_url_args(remote@));
    let address = context(
        git::text(io, cwd, &question),
        "cannot resolve repository remote; supply --path",
    )?;
    match remote_path(address.as_str()) {
        Err(error) => Err(Stop::Fail(error)),
        Ok((url, repository)) => {
            let root = root(io, cwd, url.as_str())?;
            if !paths::is_absolute(root.as_slice()) {
                return Err(stop("gwt.root must be absolute (~/ is supported by Git)"));
            }
            let target = paths::join(root.as_slice(), repository.as_slice());
            let parent = resolve_directory(io, target.as_slice())?;
            let ghost reached = parent@;
            let ghost rest = io@;
            let r = spell(parent);
            assert(follows(r, rest, spelled(reached, rest)));
            r
        },
    }
}

} // verus!
