//! Where the worktrees of a repository go.

use vstd::prelude::*;

use vstd::utf8::{decode_utf8, encode_utf8, valid_utf8};

use crate::errors::ErrorView;
use crate::laws::selection::{law_lines_of_git_are_read, says};
use crate::laws::steady::steady_absolute;
use crate::naming::{
    absolute_protocol, names_only, parent_protocol, percent_decoded, remote_identity,
    remote_name_args, remote_url, remote_url_args, repository_of, repository_parent_protocol,
    resolve_protocol, root_args, root_protocol, seen_from, selector_protocol,
};
use crate::paths::{
    absolute_path, components, current_word, is_name, join_path, joinable, law_join, law_parent,
    lemma_components_well_formed, lemma_parent_shorter, name_of, parent_of, plain_word, spans_of,
    word_end, SLASH,
};
use crate::sequences::lemma_first_is;
use crate::session::{ErrorKind, FileKind, GitContext, Log, Output, Reply, RequestView, Step};
use crate::text::{cut_suffix, drop_leading, ends, holds_word, no_leading_slash, no_outer_slash};

verus! {

/// Whether the `i`th pair of answers says that nothing is at a path: neither through links
/// nor itself.
pub open spec fn nothing_there(answers: Log, i: int) -> bool {
    &&& answers[2 * i] matches Reply::Path(Err(error)) && error.kind == ErrorKind::NotFound
    &&& answers[2 * i + 1] matches Reply::Metadata(Err(error)) && error.kind
        == ErrorKind::NotFound
}

/// Whether the answers say that nothing is at a path and at those above it, `k` in all,
/// and that the next one above is the directory `found`.
pub open spec fn deepest(answers: Log, k: int, found: Vec<u8>) -> bool {
    &&& 0 <= k
    &&& answers.len() >= 2 * k + 2
    &&& forall|i: int|
        0 <= i < k ==> #[trigger] nothing_there(answers, i)
    &&& answers[2 * k] == Reply::Path(Ok(found))
    &&& answers[2 * k + 1] matches Reply::Metadata(Ok(metadata)) && metadata.kind
        == FileKind::Directory
}

/// Whether the last `k` components of a path are names.
pub open spec fn ends_in_names(path: Seq<u8>, k: int) -> bool {
    let c = components(path);
    0 <= k <= c.len() && forall|i: int| c.len() - k <= i < c.len() ==> is_name(#[trigger] c[i])
}

/// What is missing of a path is put below the directory that is there: its last names
/// stay as they are, and what is above them is what the system resolves it to.
pub proof fn law_what_is_missing_stays_as_it_is_named(
    answers: Log,
    path: Seq<u8>,
    k: int,
    found: Vec<u8>,
)
    requires
        deepest(answers, k, found),
        ends_in_names(path, k),
        found@.len() > 0,
    ensures
        resolve_protocol(answers, path) matches Step::Done(result, left) && left == answers.skip(
            2 * k + 2,
        ) && result.len() > 0 && components(result) == components(found@) + components(path).skip(
            components(path).len() - k,
        ),
    decreases k,
{
    let c = components(path);
    if k == 0 {
        assert(answers.drop_first().drop_first() =~= answers.skip(2));
        assert(components(found@) + c.skip(c.len() as int) =~= components(found@));
    } else {
        assert(nothing_there(answers, 0));
        let rest = answers.drop_first().drop_first();
        law_parent(path);
        lemma_components_well_formed(path);
        assert(is_name(c[c.len() - 1]));
        let parent = parent_of(path)->0;
        let name = name_of(path)->0;
        assert forall|i: int| 0 <= i < k - 1 implies #[trigger] nothing_there(rest, i) by {
            assert(nothing_there(answers, i + 1));
        }
        assert(deepest(rest, k - 1, found));
        assert forall|i: int|
            c.len() - 1 - (k - 1) <= i < c.len() - 1 implies is_name(
            #[trigger] components(parent)[i],
        ) by {
            assert(components(parent)[i] == c[i]);
        }
        law_what_is_missing_stays_as_it_is_named(rest, parent, k - 1, found);
        let above = resolve_protocol(rest, parent)->Done_0;
        assert(rest.skip(2 * (k - 1) + 2) =~= answers.skip(2 * k + 2));
        lemma_joined_name(above, name);
        assert(resolve_protocol(answers, path) == Step::Done(
            join_path(above, name),
            answers.skip(2 * k + 2),
        ));
        assert(components(parent).skip(components(parent).len() - (k - 1)).push(name) =~= c.skip(
            c.len() - k,
        ));
        assert(components(join_path(above, name)) =~= components(found@) + c.skip(c.len() - k));
    }
}

/// A plain word that is a name, below a path.
pub proof fn lemma_joined_name(above: Seq<u8>, name: Seq<u8>)
    requires
        above.len() > 0,
        exists|path: Seq<u8>| #[trigger] name_of(path) == Some(name),
    ensures
        join_path(above, name).len() > 0,
        components(join_path(above, name)) == components(above).push(name),
{
    let path = choose|path: Seq<u8>| #[trigger] name_of(path) == Some(name);
    lemma_components_well_formed(path);
    let c = components(path);
    assert(c[c.len() - 1] == name);
    assert(plain_word(name));
    lemma_single(name);
    law_join(above, name);
    assert(components(above) + seq![name] =~= components(above).push(name));
}

/// A plain word is a path of one component.
proof fn lemma_single(word: Seq<u8>)
    requires
        plain_word(word),
        word != current_word(),
    ensures
        components(word) == seq![word],
        joinable(word),
{
    assert forall|j: int| 0 <= j < word.len() implies word[j] != SLASH by {
        assert(word.contains(word[j]));
    }
    assert(word.skip(0) =~= word);
    lemma_first_is(word, SLASH, word.len() as int);
    assert(word_end(word, 0) == word.len());
    assert(word.subrange(0, word.len() as int) =~= word);
    reveal_with_fuel(crate::paths::spans_from, 3);
    assert(!absolute_path(word));
    assert(spans_of(word) =~= seq![(0int, word.len() as int)]);
    assert(components(word) =~= seq![word]);
}

/// A directory that was resolved lies where the answers say: at and above the path, they
/// say of some that nothing is there, and of the next one above what it resolves to.
pub proof fn law_resolving_ends_at_a_directory(answers: Log, path: Seq<u8>)
    ensures
        resolve_protocol(answers, path) is Done ==> exists|k: int, found: Vec<u8>| #[trigger]
            deepest(answers, k, found) && ends_in_names(path, k),
    decreases path.len(),
{
    if resolve_protocol(answers, path) is Done {
        match answers[0] {
            Reply::Path(Ok(found)) => {
                assert(deepest(answers, 0, found));
                assert(ends_in_names(path, 0));
            },
            _ => {
                let rest = answers.drop_first().drop_first();
                law_parent(path);
                lemma_parent_shorter(path);
                let parent = parent_of(path)->0;
                law_resolving_ends_at_a_directory(rest, parent);
                let (k, found) = choose|k: int, found: Vec<u8>| #[trigger]
                    deepest(rest, k, found) && ends_in_names(parent, k);
                assert forall|i: int| 0 <= i < k + 1 implies #[trigger] nothing_there(answers, i) by {
                    if i > 0 {
                        assert(nothing_there(rest, i - 1));
                    }
                }
                assert(rest[2 * k] == answers[2 * (k + 1)]);
                assert(rest[2 * k + 1] == answers[2 * (k + 1) + 1]);
                assert(deepest(answers, k + 1, found));
                let c = components(path);
                assert forall|i: int| c.len() - (k + 1) <= i < c.len() implies is_name(
                    #[trigger] c[i],
                ) by {
                    if i < c.len() - 1 {
                        assert(components(parent)[i] == c[i]);
                        assert(is_name(components(parent)[i]));
                    }
                }
                assert(ends_in_names(path, k + 1));
            },
        }
    }
}

/// The word for the directory of all worktrees.
pub open spec fn worktrees_word() -> Seq<u8> {
    seq![119u8, 111, 114, 107, 116, 114, 101, 101, 115]
}

proof fn lemma_worktrees_word()
    ensures
        encode_utf8("worktrees"@) == worktrees_word(),
        components(worktrees_word()) == seq![worktrees_word()],
        joinable(worktrees_word()),
        is_name(worktrees_word()),
{
    reveal_strlit("worktrees");
    vstd::utf8::is_ascii_chars_encode_utf8("worktrees"@);
    assert(encode_utf8("worktrees"@) =~= worktrees_word());
    let w = worktrees_word();
    assert(w[0] == 119u8);
    assert(!w.contains(SLASH));
    assert(w.len() == 9);
    lemma_single(w);
}

/// Where Git has no root for a URL, the worktrees go to the directory `worktrees` of the
/// home directory: its components are those of the home directory and that one. A root
/// that Git has is taken as it is.
pub proof fn law_worktrees_go_to_the_home_directory(
    cwd: Seq<u8>,
    url: Seq<char>,
    out: Output,
    configured: Seq<char>,
    home: Vec<u8>,
    rest: Log,
)
    ensures
        root_protocol(Log::empty(), cwd, url) == Step::<Seq<u8>>::Ask(
            RequestView::Git {
                context: GitContext::Source,
                cwd,
                args: seq!["config"@, "--path"@, "--get-urlmatch"@, "gwt.root"@, url],
            },
        ),
        says(out, configured) ==> root_protocol(seq![Reply::Git(Ok(out))] + rest, cwd, url)
            == Step::Done(encode_utf8(configured), rest),
        out.code == Some(1i32) ==> {
            &&& root_protocol(seq![Reply::Git(Ok(out))], cwd, url) == Step::<Seq<u8>>::Ask(
                RequestView::Home,
            )
            &&& root_protocol(
                seq![Reply::Git(Ok(out)), Reply::Home(None)] + rest,
                cwd,
                url,
            ) is Fail
            &&& root_protocol(
                seq![Reply::Git(Ok(out)), Reply::Home(Some(home))] + rest,
                cwd,
                url,
            ) matches Step::Done(root, left) && left == rest && (home@.len() > 0 ==> components(
                root,
            ) == components(home@) + seq![worktrees_word()] && absolute_path(root)
                == absolute_path(home@))
        },
{
    assert(root_args(url) =~= seq![
        "config"@,
        "--path"@,
        "--get-urlmatch"@,
        "gwt.root"@,
        url,
    ]);
    law_lines_of_git_are_read(GitContext::Source, cwd, root_args(url), out, configured, rest);
    if out.code == Some(1i32) {
        let one = seq![Reply::Git(Ok(out))];
        assert(one.drop_first() =~= Log::empty());
        let none = seq![Reply::Git(Ok(out)), Reply::Home(None)] + rest;
        assert(none.drop_first()[0] == Reply::Home(None));
        let some = seq![Reply::Git(Ok(out)), Reply::Home(Some(home))] + rest;
        assert(some.drop_first()[0] == Reply::Home(Some(home)));
        assert(some.drop_first().drop_first() =~= rest);
        lemma_worktrees_word();
        assert(root_protocol(some, cwd, url) == Step::Done(
            join_path(home@, worktrees_word()),
            rest,
        ));
        if home@.len() > 0 {
            law_join(home@, worktrees_word());
            assert(join_path(home@, worktrees_word())[0] == home@[0]);
        }
    }
}

/// Whether an answer names a remote: what Git has configured, else `origin`.
pub open spec fn names_remote(out: Output, remote: Seq<char>) -> bool {
    ||| says(out, remote)
    ||| out.code == Some(1i32) && remote == "origin"@
}

/// The components of the directory for a repository in a home directory: those of the home
/// directory, `worktrees`, and those of the repository.
pub open spec fn place_at_home(home: Seq<u8>, repository: Seq<u8>) -> Seq<Seq<u8>> {
    components(home) + seq![worktrees_word()] + components(repository)
}

/// To tell the directory for the worktrees, Git is asked for the remote that is meant, for
/// its address and for the root that is configured for its URL. Without one the home
/// directory is asked for, and the directory for the repository in there is resolved.
#[verifier::rlimit(40)]
pub proof fn law_what_is_asked_for_the_directory(
    cwd: Seq<u8>,
    name: Output,
    remote: Seq<char>,
    told: Output,
    address: Seq<char>,
    url: Seq<char>,
    repository: Seq<u8>,
    root: Output,
    home: Vec<u8>,
)
    requires
        names_remote(name, remote),
        says(told, address),
        remote_identity(address) == Ok::<(Seq<char>, Seq<u8>), ErrorView>((url, repository)),
        root.code == Some(1i32),
        absolute_path(home@),
        joinable(repository),
    ensures
        parent_protocol(Log::empty(), cwd) == Step::<Seq<u8>>::Ask(
            RequestView::Git {
                context: GitContext::Source,
                cwd,
                args: seq!["config"@, "--get"@, "gwt.remote"@],
            },
        ),
        parent_protocol(seq![Reply::Git(Ok(name))], cwd) == Step::<Seq<u8>>::Ask(
            RequestView::Git {
                context: GitContext::Source,
                cwd,
                args: seq!["remote"@, "get-url"@, "--"@, remote],
            },
        ),
        parent_protocol(seq![Reply::Git(Ok(name)), Reply::Git(Ok(told))], cwd) == Step::<
            Seq<u8>,
        >::Ask(
            RequestView::Git {
                context: GitContext::Source,
                cwd,
                args: seq!["config"@, "--path"@, "--get-urlmatch"@, "gwt.root"@, url],
            },
        ),
        parent_protocol(
            seq![Reply::Git(Ok(name)), Reply::Git(Ok(told)), Reply::Git(Ok(root))],
            cwd,
        ) == Step::<Seq<u8>>::Ask(RequestView::Home),
        parent_protocol(
            seq![
                Reply::Git(Ok(name)),
                Reply::Git(Ok(told)),
                Reply::Git(Ok(root)),
                Reply::Home(Some(home)),
            ],
            cwd,
        ) matches Step::Ask(RequestView::Canonicalize(path)) && components(path) == place_at_home(
            home@,
            repository,
        ),
{
    assert(remote_name_args() =~= seq!["config"@, "--get"@, "gwt.remote"@]);
    assert(remote_url_args(remote) =~= seq!["remote"@, "get-url"@, "--"@, remote]);
    let n = seq![Reply::Git(Ok(name))];
    let t = seq![Reply::Git(Ok(told))];
    let r = seq![Reply::Git(Ok(root))];
    let h = seq![Reply::Home(Some(home))];
    let e = Log::empty();
    law_worktrees_go_to_the_home_directory(cwd, url, root, url, home, e);
    assert(n + e =~= n);
    assert(t + e =~= t);
    assert(seq![Reply::Git(Ok(root)), Reply::Home(Some(home))] + e =~= r + h);
    assert(n + (t + e) =~= seq![Reply::Git(Ok(name)), Reply::Git(Ok(told))]);
    assert(n + (t + r) =~= seq![
        Reply::Git(Ok(name)),
        Reply::Git(Ok(told)),
        Reply::Git(Ok(root)),
    ]);
    assert(n + (t + (r + h)) =~= seq![
        Reply::Git(Ok(name)),
        Reply::Git(Ok(told)),
        Reply::Git(Ok(root)),
        Reply::Home(Some(home)),
    ]);
    lemma_remote(cwd, name, remote, told, address, e);
    lemma_remote(cwd, name, remote, told, address, r);
    lemma_remote(cwd, name, remote, told, address, r + h);
    law_lines_of_git_are_read(GitContext::Source, cwd, remote_name_args(), name, remote, e);
    law_lines_of_git_are_read(GitContext::Source, cwd, remote_url_args(remote), told, address, e);
    let found = root_protocol(r + h, cwd, url)->Done_0;
    law_join(found, repository);
}

proof fn lemma_remote(
    cwd: Seq<u8>,
    name: Output,
    remote: Seq<char>,
    told: Output,
    address: Seq<char>,
    rest: Log,
)
    requires
        names_remote(name, remote),
        says(told, address),
    ensures
        parent_protocol(seq![Reply::Git(Ok(name))] + (seq![Reply::Git(Ok(told))] + rest), cwd)
            == repository_parent_protocol(rest, cwd, address),
{
    let t = seq![Reply::Git(Ok(told))] + rest;
    law_lines_of_git_are_read(GitContext::Source, cwd, remote_name_args(), name, remote, t);
    law_lines_of_git_are_read(
        GitContext::Source,
        cwd,
        remote_url_args(remote),
        told,
        address,
        rest,
    );
}

/// Where no root is configured, the directory for a repository with a host and a path lies
/// in the home directory: at its components, then `worktrees`, then the host and the
/// components of the path. What of it is there counts as what the system resolves it to.
/// So where there is nothing yet but the home directory, that is just where it lies.
#[verifier::rlimit(40)]
pub proof fn law_a_repository_has_its_place_in_the_home_directory(
    cwd: Seq<u8>,
    name: Output,
    remote: Seq<char>,
    told: Output,
    address: Seq<char>,
    url: Seq<char>,
    repository: Seq<u8>,
    root: Output,
    home: Vec<u8>,
    answers: Log,
    k: int,
    found: Vec<u8>,
)
    requires
        names_remote(name, remote),
        says(told, address),
        remote_identity(address) == Ok::<(Seq<char>, Seq<u8>), ErrorView>((url, repository)),
        root.code == Some(1i32),
        absolute_path(home@),
        joinable(repository),
        deepest(answers, k, found),
        found@.len() > 0,
        0 <= k <= place_at_home(home@, repository).len(),
        forall|i: int|
            place_at_home(home@, repository).len() - k <= i < place_at_home(
                home@,
                repository,
            ).len() ==> is_name(#[trigger] place_at_home(home@, repository)[i]),
    ensures
        ({
            let log = seq![
                Reply::Git(Ok(name)),
                Reply::Git(Ok(told)),
                Reply::Git(Ok(root)),
                Reply::Home(Some(home)),
            ] + answers;
            let whole = place_at_home(home@, repository);
            match parent_protocol(log, cwd) {
                Step::Done(directory, left) => {
                    &&& valid_utf8(directory)
                    &&& left == answers.skip(2 * k + 2)
                    &&& components(directory) == components(found@) + whole.skip(whole.len() - k)
                    &&& components(found@) == components(home@) && k == 1 + components(
                        repository,
                    ).len() ==> components(directory) == whole
                },
                Step::Fail(_, left) => left == answers.skip(2 * k + 2) && (k == 0 ==> !valid_utf8(
                    found@,
                )),
                _ => false,
            }
        }),
{
    let r = seq![Reply::Git(Ok(root)), Reply::Home(Some(home))] + answers;
    let whole = place_at_home(home@, repository);
    assert(seq![Reply::Git(Ok(name))] + (seq![Reply::Git(Ok(told))] + r) =~= seq![
        Reply::Git(Ok(name)),
        Reply::Git(Ok(told)),
        Reply::Git(Ok(root)),
        Reply::Home(Some(home)),
    ] + answers);
    lemma_remote(cwd, name, remote, told, address, r);
    law_worktrees_go_to_the_home_directory(cwd, url, root, url, home, answers);
    let below = root_protocol(r, cwd, url)->Done_0;
    law_join(below, repository);
    let path = join_path(below, repository);
    assert(components(path) =~= whole);
    law_what_is_missing_stays_as_it_is_named(answers, path, k, found);
    if k == 0 {
        assert(resolve_protocol(answers, path) == Step::Done(found@, answers.skip(2)));
    }
    if components(found@) == components(home@) && k == 1 + components(repository).len() {
        assert(components(home@) + whole.skip(whole.len() - k) =~= whole);
    }
}

proof fn lemma_nothing_to_decode(bytes: Seq<u8>)
    requires
        !bytes.contains(37u8),
    ensures
        percent_decoded(bytes) == bytes,
    decreases bytes.len(),
{
    if bytes.len() > 0 {
        assert(bytes.contains(bytes[0]));
        let rest = bytes.skip(1);
        assert(!rest.contains(37u8)) by {
            if rest.contains(37u8) {
                let i = choose|i: int| 0 <= i < rest.len() && rest[i] == 37u8;
                assert(bytes[i + 1] == 37u8);
            }
        }
        lemma_nothing_to_decode(rest);
        assert(seq![bytes[0]] + rest =~= bytes);
    }
}

/// The path of a repository in a URL, after a slash, and without or with `.git` and a
/// slash at its end.
pub open spec fn addresses(path: Seq<char>, repository: Seq<char>) -> bool {
    ||| path == "/"@ + repository
    ||| path == "/"@ + repository + "/"@
    ||| path == "/"@ + repository + ".git"@
    ||| path == "/"@ + repository + ".git"@ + "/"@
}

/// The directory for a repository with a host and a path is the host, then the path,
/// whether or not its URL ends in `.git`. That holds of all four schemes.
pub proof fn law_a_repository_is_told_by_host_and_path(
    scheme: Seq<char>,
    host: Seq<char>,
    path: Seq<char>,
    repository: Seq<char>,
)
    requires
        scheme == "ssh"@ || scheme == "https"@ || scheme == "http"@ || scheme == "git"@,
        addresses(path, repository),
        !encode_utf8(path).contains(37u8),
        repository.len() > 0,
        repository[0] != '/',
        repository.last() != '/',
        !ends(repository, ".git"@),
        names_only(encode_utf8(repository)),
    ensures
        repository_of(scheme, Some(host), path) == Ok::<Seq<u8>, ErrorView>(
            join_path(encode_utf8(host), encode_utf8(repository)),
        ),
        encode_utf8(host).len() > 0 ==> components(
            join_path(encode_utf8(host), encode_utf8(repository)),
        ) == components(encode_utf8(host)) + components(encode_utf8(repository)),
{
    lemma_nothing_to_decode(encode_utf8(path));
    vstd::utf8::encode_utf8_decode_utf8(path);
    vstd::utf8::encode_utf8_valid_utf8(path);
    reveal_strlit("/");
    reveal_strlit(".git");
    let f = |c: char| c == '/';
    let long = path == "/"@ + repository + ".git"@ || path == "/"@ + repository + ".git"@ + "/"@;
    let middle = if long {
        repository + ".git"@
    } else {
        repository
    };
    assert(path[0] == '/');
    let tail = path.drop_first();
    assert(tail =~= middle || tail =~= middle + "/"@);
    assert(tail[0] == repository[0]);
    reveal_with_fuel(drop_leading, 2);
    assert(no_leading_slash(path) == tail);
    assert(middle.last() != '/');
    reveal_with_fuel(crate::text::drop_trailing, 2);
    if tail != middle {
        assert(tail.drop_last() =~= middle);
    }
    assert(no_outer_slash(path) == middle);
    if long {
        assert(middle.skip(middle.len() - 4) =~= ".git"@);
        assert(middle.take(middle.len() - 4) =~= repository);
    }
    assert(cut_suffix(middle, ".git"@) == repository);
    let r = encode_utf8(repository);
    lemma_components_well_formed(r);
    if encode_utf8(host).len() > 0 {
        if components(r).len() > 0 {
            assert(is_name(components(r)[0]));
        }
        law_join(encode_utf8(host), r);
    }
}

/// An address with a scheme is a URL as it is. One without stands for a path on a host
/// that is reached over SSH, if a host is named before the first colon.
pub proof fn law_an_address_stands_for_a_url(
    raw: Seq<char>,
    host: Seq<char>,
    path: Seq<char>,
    repository: Seq<char>,
)
    ensures
        holds_word(raw, "://"@) ==> remote_url(raw) == Ok::<Seq<char>, ErrorView>(raw),
        raw == host + ":"@ + path && !holds_word(raw, "://"@) && host.len() > 0 && !host.contains(
            '/',
        ) && !host.contains(':') && (path == repository || path == "/"@ + repository) && (
        repository.len() > 0 ==> repository[0] != '/') ==> remote_url(raw) == Ok::<
            Seq<char>,
            ErrorView,
        >("ssh://"@ + host + "/"@ + repository),
        !raw.contains(':') ==> remote_url(raw) is Err,
{
    reveal_strlit("/");
    reveal_strlit(":");
    reveal_strlit("://");
    if !raw.contains(':') {
        assert forall|j: int| 0 <= j < raw.len() implies raw[j] != ':' by {
            assert(raw.contains(raw[j]));
        }
        lemma_first_is(raw, ':', raw.len() as int);
        if holds_word(raw, "://"@) {
            let i = choose|i: int| crate::text::stands_at(raw, "://"@, i);
            assert(raw.subrange(i, i + 3)[0] == ':');
            assert(raw[i] == ':');
        }
    }
    if raw == host + ":"@ + path && !holds_word(raw, "://"@) && host.len() > 0 && !host.contains(
        '/',
    ) && !host.contains(':') && (path == repository || path == "/"@ + repository) && (
    repository.len() > 0 ==> repository[0] != '/') {
        let n = host.len() as int;
        assert forall|j: int| 0 <= j < n implies raw[j] != ':' by {
            assert(host.contains(host[j]));
            assert(raw[j] == host[j]);
        }
        assert(raw[n] == ':');
        lemma_first_is(raw, ':', n);
        assert(raw.take(n) =~= host);
        assert(raw.skip(n + 1) =~= path);
        assert(!holds_word(host, "/"@)) by {
            if holds_word(host, "/"@) {
                let i = choose|i: int| crate::text::stands_at(host, "/"@, i);
                assert(host.subrange(i, i + 1)[0] == '/');
                assert(host.contains(host[i]));
            }
        }
        reveal_with_fuel(drop_leading, 2);
        if path != repository {
            assert(path.drop_first() =~= repository);
        }
        assert(no_leading_slash(path) == repository);
    }
}

/// A URL of another scheme, without a host, or without names in its path leads to no
/// repository.
pub proof fn law_what_names_no_repository(
    scheme: Seq<char>,
    host: Option<Seq<char>>,
    path: Seq<char>,
)
    ensures
        scheme != "ssh"@ && scheme != "https"@ && scheme != "http"@ && scheme != "git"@
            ==> repository_of(scheme, host, path) is Err,
        host is None ==> repository_of(scheme, host, path) is Err,
        path.len() == 0 ==> repository_of(scheme, host, path) is Err,
        path == "/"@ ==> repository_of(scheme, host, path) is Err,
{
    reveal_strlit("/");
    reveal_strlit(".git");
    vstd::utf8::encode_utf8_decode_utf8(path);
    if path.len() == 0 {
        let decoded = percent_decoded(encode_utf8(path));
        lemma_nothing_encoded(path);
        assert(decode_utf8(decoded).len() == 0);
    }
    if path == "/"@ {
        vstd::utf8::is_ascii_chars_encode_utf8(path);
        assert(encode_utf8(path) =~= seq![47u8]);
        assert(!seq![47u8].contains(37u8));
        lemma_nothing_to_decode(encode_utf8(path));
        reveal_with_fuel(drop_leading, 2);
        assert(path.drop_first() =~= Seq::<char>::empty());
    }
}

proof fn lemma_nothing_encoded(text: Seq<char>)
    requires
        text.len() == 0,
    ensures
        encode_utf8(text) == Seq::<u8>::empty(),
        percent_decoded(encode_utf8(text)) == Seq::<u8>::empty(),
{
    assert(encode_utf8(text) =~= Seq::<u8>::empty());
}

/// A selector stands for what its absolute form leads to. One that leads nowhere still
/// stands for its absolute form, and any other failure is one.
pub proof fn law_what_a_selector_stands_for(
    before: Log,
    path: Seq<u8>,
    cwd: Seq<u8>,
    absolute: Seq<u8>,
    reply: Reply,
    rest: Log,
)
    requires
        absolute_protocol(before, path, cwd) == Step::Done(absolute, Log::empty()),
    ensures
        selector_protocol(before, path, cwd) == Step::<Seq<u8>>::Ask(
            RequestView::Canonicalize(absolute),
        ),
        reply matches Reply::Path(Ok(found)) ==> (valid_utf8(found@) ==> selector_protocol(
            before + (seq![reply] + rest),
            path,
            cwd,
        ) == Step::Done(found@, rest)),
        reply matches Reply::Path(Err(error)) ==> if error.kind == ErrorKind::NotFound {
            selector_protocol(before + (seq![reply] + rest), path, cwd) == Step::Done(
                absolute,
                rest,
            )
        } else {
            selector_protocol(before + (seq![reply] + rest), path, cwd) is Fail
        },
{
    let one = seq![reply] + rest;
    steady_absolute(before, one, path, cwd);
    assert(Log::empty() + one =~= one);
    assert(one.drop_first() =~= rest);
}

/// A path that does not end in a name is resolved as a whole: what `..` leads to is told by
/// the system alone.
pub proof fn law_paths_without_a_name_are_resolved(
    before: Log,
    path: Seq<u8>,
    cwd: Seq<u8>,
    found: Seq<u8>,
    rest: Log,
)
    requires
        valid_utf8(path),
        name_of(seen_from(path, cwd)) is None,
        resolve_protocol(before, seen_from(path, cwd)) == Step::Done(found, rest),
    ensures
        valid_utf8(found) ==> absolute_protocol(before, path, cwd) == Step::Done(found, rest),
        !valid_utf8(found) ==> absolute_protocol(before, path, cwd) is Fail,
        absolute_path(path) ==> seen_from(path, cwd) == path,
        !absolute_path(path) && cwd.len() > 0 && joinable(path) ==> components(
            seen_from(path, cwd),
        ) == components(cwd) + components(path),
{
    if !absolute_path(path) && cwd.len() > 0 && joinable(path) {
        law_join(cwd, path);
    }
}

} // verus!
