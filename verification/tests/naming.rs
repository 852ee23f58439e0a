use git_wt::naming::remote_path;

#[test]
fn ghq_compatible_forge_paths() {
    let url = "git@gitlab.com:group/subgroup/repo.git";
    assert_eq!(
        remote_path(url).unwrap().1,
        b"gitlab.com/group/subgroup/repo",
        "{url}"
    );

    let url = "ssh://git@stash.example:7999/TEAM/repo.git";
    assert_eq!(
        remote_path(url).unwrap().1,
        b"stash.example/TEAM/repo",
        "{url}"
    );

    let url = "git@git.sr.ht:~alice/repo";
    assert_eq!(
        remote_path(url).unwrap().1,
        b"git.sr.ht/~alice/repo",
        "{url}"
    );

    let url = "https://dev.azure.com/org/project/_git/repo";
    assert_eq!(
        remote_path(url).unwrap().1,
        b"dev.azure.com/org/project/_git/repo",
        "{url}"
    );

    let url = "git@ssh.dev.azure.com:v3/org/project/repo";
    assert_eq!(
        remote_path(url).unwrap().1,
        b"ssh.dev.azure.com/v3/org/project/repo",
        "{url}"
    );

    let url = "https://bitbucket.local:8888/motemen/ghq.git";
    assert_eq!(
        remote_path(url).unwrap().1,
        b"bitbucket.local/motemen/ghq",
        "{url}"
    );

    let url = "https://git.code.sf.net/p/ghq/code";
    assert_eq!(
        remote_path(url).unwrap().1,
        b"git.code.sf.net/p/ghq/code",
        "{url}"
    );

    let url = "ssh://git@stash.com/scm/motemen/ghq.git";
    assert_eq!(
        remote_path(url).unwrap().1,
        b"stash.com/scm/motemen/ghq",
        "{url}"
    );

    let url = "https://example.com/team/repo.git.git";
    assert_eq!(
        remote_path(url).unwrap().1,
        b"example.com/team/repo.git",
        "{url}"
    );

    let url = "https://example.com/team/hello%20world.git";
    assert_eq!(
        remote_path(url).unwrap().1,
        b"example.com/team/hello world",
        "{url}"
    );
}

#[test]
fn unsupported_identity_needs_explicit_path() {
    for url in ["../repo", "/home/me/repo", "file:///tmp/repo"] {
        assert!(remote_path(url).is_err(), "{url}");
    }

    let url = "https://example.com";
    assert!(remote_path(url).is_err(), "{url}");

    let url = "codecommit::region://profile@repo";
    assert!(remote_path(url).is_err(), "{url}");
}
