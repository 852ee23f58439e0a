use git_wt::clone::{exclusions, Entry, Stats};
use git_wt::errors::{failure, printing_failure, usage, Error};
use git_wt::git::{nul_paths, parse_worktrees, path_str, Worktree};
use git_wt::json;
use git_wt::listing::{can_cut_heads, list};
use git_wt::naming::{normalized_remote, remote_path, repository_path, UrlParts};
use git_wt::native::{retarget, root_spellings, SourceRoot};
use git_wt::order::{precedes, sorted};
use git_wt::paths;
use git_wt::pathset::PathSet;
use git_wt::session::{
    ErrorKind, FileKind, GitContext, IoError, Output, Reply, Request, Session, Stop,
};
use git_wt::text;
use git_wt::worktrees::formatted_path;
use git_wt::UsageError;

fn io_error(kind: ErrorKind, text: &str) -> IoError {
    IoError { kind, text: text.to_owned() }
}

fn tree(path: &str, branch: Option<&str>) -> Worktree {
    Worktree {
        path: path.as_bytes().to_vec(),
        branch: branch.map(str::to_owned),
        head: Some("0123456789abcdef".to_owned()),
        current: false,
        primary: false,
        detached: branch.is_none(),
        locked: false,
        lock_reason: None,
        prunable: false,
        prune_reason: None,
        bare: false,
    }
}

fn message<T: std::fmt::Debug>(outcome: Result<T, Error>) -> String {
    outcome.unwrap_err().message()
}

#[test]
fn failures_carry_their_contexts() {
    let error = failure("first").context("middle").context("outer");
    assert_eq!(error.headline(), "outer");
    assert_eq!(error.message(), "outer: middle: first");
    assert_eq!(error.complaint(), "git-wt: outer: middle: first\n");
    assert_eq!(error.exit_status(), 1);
    assert_eq!(error.duplicate().message(), "outer: middle: first");

    let error = usage("misuse").context("outer");
    assert_eq!(error.exit_status(), 2);
    assert_eq!(error.message(), "outer: misuse");
    assert_eq!(UsageError("wrong".to_owned()).into_error().exit_status(), 2);
}

#[test]
fn a_reader_that_went_away_is_no_failure() {
    let gone = io_error(ErrorKind::BrokenPipe, "Broken pipe (os error 32)");
    assert!(printing_failure(&gone).is_none());

    let full = io_error(ErrorKind::Other, "No space left on device (os error 28)");
    let error = printing_failure(&full).unwrap();
    assert_eq!(
        error.complaint(),
        "git-wt: writing stdout: No space left on device (os error 28)\n"
    );
    assert_eq!(error.exit_status(), 1);
}

#[test]
fn remotes_without_an_identity_say_why() {
    for (raw, why) in [
        ("../repo", "remote has no hostname; supply --path"),
        ("./a:b", "local remote needs --path"),
        (":repo", "local remote needs --path"),
        ("file:///tmp/repo", "remote URL requires --path"),
        ("https://example.com/", "remote has no repository path; supply --path"),
        ("https://example.com/.git", "remote has no repository path; supply --path"),
        ("https://example.com/a/%2e%2e%2fb", "invalid remote repository path"),
        (
            "https://",
            "invalid remote URL; supply --path: empty host",
        ),
        (
            "https://example.com/%ff",
            "non-UTF-8 remote path: invalid utf-8 sequence of 1 bytes from index 1",
        ),
    ] {
        assert_eq!(message(remote_path(raw)), why, "{raw}");
    }
    let hostless = UrlParts {
        scheme: "git".to_owned(),
        host: None,
        path: "/team/repo".to_owned(),
    };
    assert_eq!(
        message(repository_path(&hostless)),
        "remote has no hostname; supply --path"
    );
}

#[test]
fn short_addresses_stand_for_urls() {
    assert_eq!(
        normalized_remote("git@host:/team/repo").unwrap(),
        "ssh://git@host/team/repo"
    );
    assert_eq!(
        remote_path("host:team/repo.git").unwrap(),
        ("ssh://host/team/repo.git".to_owned(), b"host/team/repo".to_vec())
    );
    assert_eq!(
        remote_path("https://EXAMPLE.com/a%2Fb%zz/").unwrap().1,
        b"example.com/a/b%zz"
    );
}

#[test]
fn texts_are_quoted_for_json() {
    assert_eq!(
        json::path_object("a\"b\\c\u{8}\u{c}\r\t\n\u{1}\u{1f}\u{7f}é"),
        "{\"path\":\"a\\\"b\\\\c\\b\\f\\r\\t\\n\\u0001\\u001f\u{7f}é\"}"
    );
    let stats = Stats { files: 3, logical_bytes: u64::MAX, symlinks: 0 };
    assert_eq!(
        json::creation("/p", "b", "h", "/s", "dirty", stats),
        "{\"branch\":\"b\",\"clone\":{\"files\":3,\"logical_bytes\":18446744073709551615,\"symlinks\":0},\"head\":\"h\",\"mode\":\"dirty\",\"path\":\"/p\",\"source\":\"/s\"}"
    );
    assert_eq!(Stats::default(), Stats { files: 0, logical_bytes: 0, symlinks: 0 });
}

#[test]
fn worktrees_are_listed_as_json() {
    let mut first = tree("/main", Some("main"));
    first.primary = true;
    first.current = true;
    let mut second = tree("/other", None);
    second.locked = true;
    second.lock_reason = Some("usb \"stick\"".to_owned());
    second.prunable = true;
    second.head = None;
    assert_eq!(
        json::worktrees(&vec![first, second]).unwrap(),
        "[{\"path\":\"/main\",\"branch\":\"main\",\"head\":\"0123456789abcdef\",\"current\":true,\"primary\":true,\"detached\":false,\"locked\":false,\"lock_reason\":null,\"prunable\":false,\"prune_reason\":null,\"bare\":false},{\"path\":\"/other\",\"branch\":null,\"head\":null,\"current\":false,\"primary\":false,\"detached\":true,\"locked\":true,\"lock_reason\":\"usb \\\"stick\\\"\",\"prunable\":true,\"prune_reason\":null,\"bare\":false}]"
    );
    assert_eq!(json::worktrees(&Vec::new()).unwrap(), "[]");
    assert_eq!(list(&Vec::new(), true).unwrap(), "[]\n");

    let mut odd = tree("", None);
    odd.path = vec![b'/', 0xff];
    let odd = vec![odd];
    assert_eq!(
        message(list(&odd, true)),
        "path contains invalid UTF-8 characters"
    );
    assert_eq!(message(list(&odd, false)), "non-UTF-8 path");
}

#[test]
fn the_table_shows_every_kind_and_status() {
    let mut bare = tree("/b", None);
    bare.bare = true;
    bare.head = None;
    let mut both = tree("/é", Some("x"));
    both.locked = true;
    both.prunable = true;
    let mut gone = tree("/long", None);
    gone.prunable = true;
    gone.head = Some("abc".to_owned());
    let trees = vec![bare, both, gone];
    assert!(can_cut_heads(&trees));
    assert_eq!(
        list(&trees, false).unwrap(),
        "  /b    -------- bare     - -\n  /é    01234567 branch   x locked,prunable\n  /long abc detached - prunable\n"
    );
    assert_eq!(list(&Vec::new(), false).unwrap(), "");

    let mut odd = tree("/o", None);
    odd.head = Some("1234567é".to_owned());
    assert!(!can_cut_heads(&vec![odd]));
}

#[test]
fn records_of_git_are_read() {
    let trees = parse_worktrees(
        b"worktree /main\0HEAD 11\0branch refs/heads/a/b\0\0worktree /two\0HEAD 22\0detached\0locked\0prunable gone away\0\0worktree /three\0branch refs/remotes/x\0locked  why\0unknown field\0\0",
    )
    .unwrap();
    assert_eq!(trees.len(), 3);
    assert_eq!(trees[0].path, b"/main");
    assert_eq!(trees[0].branch.as_deref(), Some("a/b"));
    assert_eq!(trees[0].head.as_deref(), Some("11"));
    assert!(trees[0].primary && !trees[1].primary && !trees[2].primary);
    assert!(trees[1].detached && trees[1].locked && trees[1].prunable);
    assert_eq!(trees[1].lock_reason, None);
    assert_eq!(trees[1].prune_reason.as_deref(), Some("gone away"));
    assert_eq!(trees[2].branch, None);
    assert_eq!(trees[2].lock_reason.as_deref(), Some(" why"));

    let trees = parse_worktrees(b"worktree /bare\0bare\0\0worktree /t\0detached").unwrap();
    assert_eq!(trees.len(), 1);
    assert!(trees[0].bare && !trees[0].primary);

    assert_eq!(
        message(parse_worktrees(b"worktree /\xff\0\0")),
        "non-UTF-8 worktree record: invalid utf-8 sequence of 1 bytes from index 10"
    );
}

#[test]
fn records_are_read_one_by_one() {
    let records: [&[u8]; 5] = [
        b"worktree /main\0HEAD 11\0branch refs/heads/main\0\0",
        b"worktree /two\0HEAD 22\0detached\0locked why\0\0",
        b"worktree /bare\0bare\0\0",
        b"worktree /four\0branch refs/heads/x\0prunable gone\0\0",
        b"worktree /taken\0worktree \0HEAD 55\0worktree /five\0\0",
    ];
    let alone: Vec<Worktree> = records
        .iter()
        .map(|record| {
            let mut trees = parse_worktrees(record).unwrap();
            assert_eq!(trees.len(), 1);
            trees.remove(0)
        })
        .collect();
    let together = parse_worktrees(&records.concat()).unwrap();
    assert_eq!(together.len(), 5);
    assert_eq!(together[4].path, b"/five");
    for (one, other) in together.iter().zip(&alone) {
        assert_eq!(one.path, other.path);
        assert_eq!(one.branch, other.branch);
        assert_eq!(one.head, other.head);
        assert_eq!(one.detached, other.detached);
        assert_eq!(one.bare, other.bare);
        assert_eq!((one.locked, &one.lock_reason), (other.locked, &other.lock_reason));
        assert_eq!((one.prunable, &one.prune_reason), (other.prunable, &other.prune_reason));
    }
    assert!(together[0].primary && !together[1].primary && !together[3].primary);
}

#[test]
fn paths_of_git_are_read() {
    assert_eq!(
        nul_paths(b"a\0\0b/c\0").unwrap(),
        [b"a".to_vec(), b"b/c".to_vec()]
    );
    assert_eq!(
        message(nul_paths(b"a\0\xc3\0")),
        "non-UTF-8 Git path: incomplete utf-8 byte sequence from index 0"
    );
    assert_eq!(path_str("/é".as_bytes()).unwrap(), "/é");
    assert_eq!(message(path_str(b"\xff")), "non-UTF-8 path");
    assert_eq!(formatted_path(b"/a b", false).unwrap(), "/a b\n");
    assert_eq!(formatted_path(b"/a b", true).unwrap(), "{\"path\":\"/a b\"}\n");
}

#[test]
fn exclusions_are_tidied_or_refused() {
    let texts = |values: &[&str]| values.iter().map(|v| (*v).to_owned()).collect::<Vec<_>>();
    assert_eq!(
        exclusions(texts(&["./cache/", "a//./b", "..c"])).unwrap(),
        [b"cache".to_vec(), b"a/b".to_vec(), b"..c".to_vec()]
    );
    for value in ["/a", "a/../b", ".."] {
        assert_eq!(
            message(exclusions(texts(&["ok", value]))),
            "exclusions must be source-relative paths without parent traversal",
            "{value}"
        );
    }
    for value in ["", ".", "./."] {
        assert_eq!(
            message(exclusions(texts(&[value]))),
            "exclusion cannot be empty or the source root",
            "{value}"
        );
    }
}

#[test]
fn links_are_retargeted_by_whole_components() {
    let roots = vec![b"/src".to_vec(), b"/private/src".to_vec()];
    let to = |link: &[u8]| retarget(link, &roots, b"/dst");
    assert_eq!(to(b"/src/a/b"), Some(b"/dst/a/b".to_vec()));
    assert_eq!(to(b"/private/src/a"), Some(b"/dst/a".to_vec()));
    assert_eq!(to(b"//src//a"), Some(b"/dst/a".to_vec()));
    assert_eq!(to(b"/src"), Some(b"/dst/".to_vec()));
    assert_eq!(to(b"/srcs/a"), None);
    assert_eq!(to(b"src/a"), None);
    assert_eq!(to(b"/src/a/../b"), None);
}

#[test]
fn retargeting_can_be_undone() {
    let there = |link: &[u8]| retarget(link, &vec![b"/src/tree".to_vec()], b"/dst");
    let back = |link: &[u8]| retarget(link, &vec![b"/dst".to_vec()], b"/src/tree");
    for link in ["/src/tree/a", "/src/tree//a/./b", "/src/tree", "//src/tree/.env"] {
        let moved = there(link.as_bytes()).unwrap();
        assert!(paths::starts_with(&moved, b"/dst"), "{link}");
        let again = back(&moved).unwrap();
        assert!(paths::same(&again, link.as_bytes()), "{link}");
    }
}

fn answered<T>(replies: Vec<Reply>, run: impl Fn(&mut Session) -> Result<T, Stop>) -> Result<T, Stop> {
    let mut io = Session::new(&replies);
    let outcome = run(&mut io);
    assert!(io.is_over());
    outcome
}

#[test]
fn roots_are_known_by_their_short_spelling_too() {
    let resolved = |path: &str| Reply::Path(Ok(path.as_bytes().to_vec()));
    let spelled = |replies| answered(replies, |io| root_spellings(io, b"/var/x")).unwrap();
    assert_eq!(
        spelled(vec![resolved("/private/var/x")]),
        [b"/var/x".to_vec(), b"/private/var/x".to_vec()]
    );
    assert_eq!(spelled(vec![resolved("/var/x")]), [b"/var/x".to_vec()]);
    assert_eq!(
        spelled(vec![resolved("/private/tmp/x"), resolved("/private/tmp/x")]),
        [
            b"/var/x".to_vec(),
            b"/private/tmp/x".to_vec(),
            b"/tmp/x".to_vec()
        ]
    );
    assert_eq!(
        spelled(vec![resolved("/private/tmp/x"), resolved("/elsewhere")]),
        [b"/var/x".to_vec(), b"/private/tmp/x".to_vec()]
    );

    let failed = answered(
        vec![Reply::Path(Err(io_error(ErrorKind::NotFound, "missing")))],
        |io| SourceRoot::new(io, b"/gone"),
    );
    match failed {
        Err(Stop::Fail(error)) => assert_eq!(error.message(), "missing"),
        other => panic!("{other:?}"),
    }
}

fn git_answer(success: bool, code: i32, stdout: &[u8], stderr: &[u8]) -> Reply {
    Reply::Git(Ok(Output {
        success,
        code: Some(code),
        status: format!("exit status: {code}"),
        stdout: stdout.to_vec(),
        stderr: stderr.to_vec(),
    }))
}

fn stopped<T: std::fmt::Debug>(outcome: Result<T, Stop>) -> String {
    match outcome {
        Err(Stop::Fail(error)) => error.message(),
        other => panic!("{other:?}"),
    }
}

#[test]
fn refusals_of_git_are_quoted() {
    let args = vec!["status".to_owned(), "-s".to_owned()];
    let run = |reply| answered(vec![reply], |io| git_wt::git::run(io, b"/", &args));
    assert_eq!(
        stopped(run(git_answer(false, 128, b"out", b" fatal: no\n"))),
        "git status: fatal: no"
    );
    assert_eq!(stopped(run(git_answer(false, 1, b"out\n", b" \n"))), "git status: out");
    assert_eq!(
        stopped(run(git_answer(false, 3, b"", b""))),
        "git status: exit status: 3"
    );
    assert_eq!(
        stopped(run(git_answer(false, 1, b"", b"a\xffb"))),
        "git status: a\u{fffd}b"
    );
    assert_eq!(
        stopped(run(Reply::Git(Err(io_error(ErrorKind::NotFound, "no git"))))),
        "could not execute git: no git"
    );
    assert_eq!(run(git_answer(true, 0, b"out\n", b"")).unwrap(), b"out\n");
}

#[test]
fn diagnostics_of_git_are_passed_on() {
    let args = vec!["status".to_owned()];
    let replies = vec![git_answer(true, 0, b"out", b"warning\n")];
    let mut io = Session::new(&replies);
    match git_wt::git::run(&mut io, b"/", &args) {
        Err(Stop::Ask(Request::Report(text))) => assert_eq!(text, b"warning\n"),
        other => panic!("{other:?}"),
    }
    let replies = vec![
        git_answer(true, 0, b"out", b"warning\n"),
        Reply::Unit(Err(io_error(ErrorKind::BrokenPipe, "closed"))),
    ];
    assert_eq!(
        stopped(answered(replies, |io| git_wt::git::run(io, b"/", &args))),
        "writing Git diagnostics: closed"
    );
}

#[test]
fn texts_and_lookups_of_git() {
    let args = vec!["config".to_owned()];
    let text = |reply| answered(vec![reply], |io| git_wt::git::text(io, b"/", &args));
    let optional = |reply| answered(vec![reply], |io| git_wt::git::optional(io, b"/", &args));
    assert_eq!(text(git_answer(true, 0, b"a\n\n", b"")).unwrap(), "a\n");
    assert_eq!(text(git_answer(true, 0, b"a", b"")).unwrap(), "a");
    assert_eq!(
        stopped(text(git_answer(true, 0, b"\xff", b""))),
        "Git returned non-UTF-8 data: invalid utf-8 sequence of 1 bytes from index 0"
    );
    assert_eq!(optional(git_answer(false, 1, b"", b"")).unwrap(), None);
    assert_eq!(
        optional(git_answer(true, 0, b"v\n", b"")).unwrap(),
        Some("v".to_owned())
    );
    assert_eq!(
        stopped(optional(git_answer(false, 128, b"", b"bad\n"))),
        "git lookup failed: bad\n"
    );
}

#[test]
fn commands_are_asked_in_their_context() {
    let args = vec!["worktree".to_owned(), "add".to_owned()];
    let mut io = Session::new(&[]);
    match git_wt::git::run_worktree_mutation(&mut io, b"/src", &args) {
        Err(Stop::Ask(Request::Git { context, cwd, args })) => {
            assert_eq!(context, GitContext::WorktreeMutation);
            assert_eq!(cwd, b"/src");
            assert_eq!(args, ["worktree", "add"]);
        }
        other => panic!("{other:?}"),
    }
    assert_eq!(
        GitContext::Destination.removed_environment(),
        [
            "GIT_ALTERNATE_OBJECT_DIRECTORIES",
            "GIT_OBJECT_DIRECTORY",
            "GIT_DIR",
            "GIT_WORK_TREE",
            "GIT_IMPLICIT_WORK_TREE",
            "GIT_GRAFT_FILE",
            "GIT_INDEX_FILE",
            "GIT_NO_REPLACE_OBJECTS",
            "GIT_REPLACE_REF_BASE",
            "GIT_PREFIX",
            "GIT_INTERNAL_SUPER_PREFIX",
            "GIT_SHALLOW_FILE",
            "GIT_COMMON_DIR",
            "GIT_NAMESPACE",
        ]
    );
}

#[test]
fn paths_are_ordered_by_components() {
    assert!(precedes(b"a/b", b"a-b"));
    assert!(!precedes(b"a-b", b"a/b"));
    assert!(precedes(b"a", b"a/b"));
    assert!(precedes(b"a/b", b"a/c"));

    let entry = |relative: &str, disposable: bool| Entry {
        relative: relative.as_bytes().to_vec(),
        kind: FileKind::File,
        disposable,
        directory_permissions: None,
    };
    let order = sorted(vec![
        entry("b", true),
        entry("a-b", false),
        entry("a/b", false),
        entry("b", false),
        entry("a", false),
    ]);
    let order: Vec<(&[u8], bool)> = order
        .iter()
        .map(|entry| (entry.relative.as_slice(), entry.disposable))
        .collect();
    assert_eq!(
        order,
        [
            (&b"a"[..], false),
            (&b"a/b"[..], false),
            (&b"a-b"[..], false),
            (&b"b"[..], true),
            (&b"b"[..], false),
        ]
    );
}

#[test]
fn paths_are_taken_apart_and_put_together() {
    assert_eq!(paths::join(b"/a", b"b"), b"/a/b");
    assert_eq!(paths::join(b"/a/", b"b"), b"/a/b");
    assert_eq!(paths::join(b"/a", b"/b"), b"/b");
    assert_eq!(paths::join(b"", b"b"), b"b");
    assert_eq!(paths::parent(b"/a/b"), Some(b"/a".to_vec()));
    assert_eq!(paths::parent(b"a"), Some(Vec::new()));
    assert_eq!(paths::parent(b"/"), None);
    assert_eq!(paths::file_name(b"/a/b/"), Some(b"b".to_vec()));
    assert_eq!(paths::file_name(b"/a/.."), None);
    assert_eq!(paths::strip_prefix(b"/a/b/c", b"/a"), Some(b"b/c".to_vec()));
    assert_eq!(paths::strip_prefix(b"/a/b", b"/a/b/"), Some(Vec::new()));
    assert_eq!(paths::strip_prefix(b"/ab", b"/a"), None);
    assert!(paths::same(b"/a//b/.", b"/a/b"));
    assert!(!paths::same(b"/a/../b", b"/b"));
    assert_eq!(
        paths::ancestors(b"/a/b"),
        [b"/a/b".to_vec(), b"/a".to_vec(), b"/".to_vec()]
    );
    assert_eq!(
        paths::ancestors(b"a/b"),
        [b"a/b".to_vec(), b"a".to_vec(), Vec::new()]
    );
}

#[test]
fn sets_find_a_path_under_each_spelling() {
    let mut set = PathSet::of(&vec![b"cache/".to_vec(), b"\xff".to_vec()]);
    assert!(set.contains(b"cache"));
    assert!(set.contains(b"\xff/"));
    assert!(!set.contains(b"cache/a"));
    assert!(set.holds_above(b"cache/a/b"));
    assert!(!set.holds_above(b"caches"));
    assert!(set.insert(b"a//b"));
    assert!(!set.insert(b"a/b"));
}

#[test]
fn texts_are_cut_and_filled() {
    assert_eq!(text::trim(" \t\u{a0}a b\n"), "a b");
    assert_eq!(text::decimal(0), "0");
    assert_eq!(text::decimal(1203), "1203");
    assert_eq!(text::pad("é", 3), "é  ");
    assert_eq!(text::lines("a\r\nb\n\nc"), ["a", "b", "", "c"]);
    assert_eq!(
        text::split_once("a:b:c", ':'),
        Some(("a".to_owned(), "b:c".to_owned()))
    );
    assert_eq!(text::strip_suffix("repo.git.git", ".git"), "repo.git");
}
