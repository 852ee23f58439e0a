//! The course of a creation, step by step: what is asked, and what follows from the
//! answers.

use vstd::prelude::*;

use vstd::utf8::{encode_utf8, valid_utf8};

use crate::clone::EntryView;
use crate::construct::{
    branch_off_protocol, build_protocol, check_branch_protocol, format_args, furnish_protocol,
    ground_protocol, new_protocol, selection_protocol, start_protocol, target_protocol, StartView,
};
use crate::create::{
    auto_name_protocol, branch_args, branch_protocol, branches_args, collides, collides_any,
    commit_args, commit_protocol, exists_protocol, head_args, name_free_protocol, numbered,
    place_of, site_protocol, stem_protocol, NewOptionsView, SiteView,
};
use crate::git::{optional_protocol, text_protocol};
use crate::laws::commands::{
    steady_branch, steady_check_branch, steady_ground, steady_selection, steady_site, steady_start,
    steady_target,
};
use crate::laws::placement::{
    deepest, ends_in_names, law_what_is_missing_stays_as_it_is_named, lemma_joined_name,
};
use crate::laws::selection::{law_lines_of_git_are_read, quiet, says};
use crate::laws::steady::steady_absolute;
use crate::naming::{absolute_protocol, parent_protocol, resolve_protocol, seen_from};
use crate::paths::{
    components, join_path, joinable, law_join, law_parent, name_of, parent_of, within,
};
use crate::sequences::{joined, lemma_first_is, split};
use crate::session::{ErrorKind, GitContext, Log, Output, Reply, RequestView, Step};
use crate::text::{begins, decimal_text, holds_word, text_lines, without_return};
use crate::worktrees::source_args;

verus! {

/// What Git answered.
pub open spec fn git(out: Output) -> Reply {
    Reply::Git(Ok(out))
}

/// A question to Git about the repository that the program was started in.
pub open spec fn question(cwd: Seq<u8>, args: Seq<Seq<char>>) -> RequestView {
    RequestView::Git { context: GitContext::Source, cwd, args }
}

/// Whether Git has nothing to what was looked up.
pub open spec fn lacks(out: Output) -> bool {
    out.code == Some(1i32)
}

proof fn lemma_text(cwd: Seq<u8>, args: Seq<Seq<char>>, out: Output, text: Seq<char>, rest: Log)
    requires
        says(out, text),
    ensures
        text_protocol(Log::empty(), GitContext::Source, cwd, args) == Step::<Seq<char>>::Ask(
            question(cwd, args),
        ),
        text_protocol(seq![git(out)] + rest, GitContext::Source, cwd, args) == Step::Done(
            text,
            rest,
        ),
        optional_protocol(seq![git(out)] + rest, cwd, args) == Step::Done(Some(text), rest),
{
    law_lines_of_git_are_read(GitContext::Source, cwd, args, out, text, rest);
}

/// A commit is told by Git, from whatever names one.
proof fn lemma_commit(cwd: Seq<u8>, reference: Seq<char>, out: Output, commit: Seq<char>, rest: Log)
    requires
        says(out, commit),
    ensures
        commit_args(reference) == seq![
            "rev-parse"@,
            "--verify"@,
            "--end-of-options"@,
            reference + "^{commit}"@,
        ],
        commit_protocol(Log::empty(), cwd, reference) == Step::<Seq<char>>::Ask(
            question(cwd, commit_args(reference)),
        ),
        commit_protocol(seq![git(out)] + rest, cwd, reference) == Step::Done(commit, rest),
{
    lemma_text(cwd, commit_args(reference), out, commit, rest);
    assert(commit_args(reference) =~= seq![
        "rev-parse"@,
        "--verify"@,
        "--end-of-options"@,
        reference + "^{commit}"@,
    ]);
}

/// A creation starts from the worktree that the program was started in, and from the
/// commit that is checked out there. The directory for the repository is told only where
/// no path was given.
pub proof fn law_a_creation_starts_where_it_was_called(
    cwd: Seq<u8>,
    path: Option<Seq<u8>>,
    top: Output,
    root: Seq<char>,
    head: Output,
    commit: Seq<char>,
    rest: Log,
)
    requires
        says(top, root),
    ensures
        site_protocol(Log::empty(), cwd, path) == Step::<SiteView>::Ask(
            question(cwd, seq!["rev-parse"@, "--path-format=absolute"@, "--show-toplevel"@]),
        ),
        site_protocol(seq![git(top)], cwd, path) == Step::<SiteView>::Ask(
            question(
                cwd,
                seq!["rev-parse"@, "--verify"@, "--end-of-options"@, "HEAD"@ + "^{commit}"@],
            ),
        ),
        !head.success ==> site_protocol(seq![git(top), git(head)] + rest, cwd, path) is Fail,
        says(head, commit) ==> match path {
            Some(_) => site_protocol(seq![git(top), git(head)] + rest, cwd, path) == Step::Done(
                SiteView { cwd, src: encode_utf8(root), head: commit, parent: None },
                rest,
            ),
            None => match parent_protocol(rest, cwd) {
                Step::Done(parent, left) => site_protocol(
                    seq![git(top), git(head)] + rest,
                    cwd,
                    path,
                ) == Step::Done(
                    SiteView { cwd, src: encode_utf8(root), head: commit, parent: Some(parent) },
                    left,
                ),
                Step::Fail(error, left) => site_protocol(
                    seq![git(top), git(head)] + rest,
                    cwd,
                    path,
                ) == Step::<SiteView>::Fail(error, left),
                Step::Ask(request) => site_protocol(
                    seq![git(top), git(head)] + rest,
                    cwd,
                    path,
                ) == Step::<SiteView>::Ask(request),
                Step::Stray => true,
            },
        },
{
    assert(source_args() =~= seq!["rev-parse"@, "--path-format=absolute"@, "--show-toplevel"@]);
    let one = seq![git(top)];
    assert(one + Log::empty() =~= one);
    let after = seq![git(head)] + rest;
    assert(seq![git(top), git(head)] + rest =~= one + after);
    lemma_text(cwd, source_args(), top, root, Log::empty());
    lemma_text(cwd, source_args(), top, root, after);
    assert(commit_args("HEAD"@) =~= seq![
        "rev-parse"@,
        "--verify"@,
        "--end-of-options"@,
        "HEAD"@ + "^{commit}"@,
    ]);
    law_lines_of_git_are_read(GitContext::Source, cwd, commit_args("HEAD"@), head, commit, rest);
}

/// Before anything else Git is asked whether the name can be one of a branch, and whether
/// there is such a branch. A name that Git refuses is misuse, and so is one that begins
/// with a hyphen or stands for an earlier checkout.
pub proof fn law_branch_names_are_checked(
    cwd: Seq<u8>,
    branch: Seq<char>,
    valid: Output,
    known: Output,
    text: Seq<char>,
    rest: Log,
)
    ensures
        check_branch_protocol(Log::empty(), cwd, branch) == Step::<bool>::Ask(
            question(cwd, seq!["check-ref-format"@, "--branch"@, branch]),
        ),
        !valid.success ==> (check_branch_protocol(
            seq![git(valid)] + rest,
            cwd,
            branch,
        ) matches Step::Fail(error, _) && error.usage),
        quiet(valid) && (begins(branch, "-"@) || holds_word(branch, "@{"@)) ==> (
        check_branch_protocol(seq![git(valid)] + rest, cwd, branch) matches Step::Fail(error, _)
            && error.usage),
        quiet(valid) && !begins(branch, "-"@) && !holds_word(branch, "@{"@) ==> {
            &&& check_branch_protocol(seq![git(valid)], cwd, branch) == Step::<bool>::Ask(
                question(
                    cwd,
                    seq!["show-ref"@, "--verify"@, "--quiet"@, "refs/heads/"@ + branch],
                ),
            )
            &&& lacks(known) ==> check_branch_protocol(
                seq![git(valid), git(known)] + rest,
                cwd,
                branch,
            ) == Step::Done(false, rest)
            &&& says(known, text) ==> check_branch_protocol(
                seq![git(valid), git(known)] + rest,
                cwd,
                branch,
            ) == Step::Done(true, rest)
        },
{
    assert(format_args(branch) =~= seq!["check-ref-format"@, "--branch"@, branch]);
    assert(branch_args(branch) =~= seq![
        "show-ref"@,
        "--verify"@,
        "--quiet"@,
        "refs/heads/"@ + branch,
    ]);
    let one = seq![git(valid)];
    let after = seq![git(known)] + rest;
    assert(one + Log::empty() =~= one);
    assert(seq![git(valid), git(known)] + rest =~= one + after);
    let source = GitContext::Source;
    law_lines_of_git_are_read(source, cwd, format_args(branch), valid, text, rest);
    law_lines_of_git_are_read(source, cwd, format_args(branch), valid, text, Log::empty());
    law_lines_of_git_are_read(source, cwd, format_args(branch), valid, text, after);
    law_lines_of_git_are_read(source, cwd, branch_args(branch), known, text, rest);
}

/// Whether a start is refused because working changes were made on another commit.
pub open spec fn start_or_refusal(
    step: Step<StartView>,
    dirty: bool,
    head: Seq<char>,
    start: StartView,
    rest: Log,
) -> bool {
    if dirty && start.commit != head {
        step matches Step::Fail(error, left) && error.usage && left == rest
    } else {
        step == Step::Done(start, rest)
    }
}

/// What a worktree starts from. A branch that is there is checked out as it stands, and a
/// base must lead to the same commit. A new branch starts at its base as it was written,
/// else at the commit that is checked out. With working changes it can only be that one.
#[verifier::rlimit(40)]
pub proof fn law_what_a_worktree_starts_from(
    before: Log,
    site: SiteView,
    branch: Seq<char>,
    base: Option<Seq<char>>,
    dirty: bool,
    existing: bool,
    first: Output,
    tip: Seq<char>,
    second: Output,
    named: Seq<char>,
    rest: Log,
)
    requires
        check_branch_protocol(before, site.cwd, branch) == Step::Done(existing, Log::empty()),
        says(first, tip),
        says(second, named),
    ensures
        !existing && base is None ==> start_or_refusal(
            start_protocol(before + rest, site, branch, base, dirty),
            dirty,
            site.head,
            StartView { existing: false, commit: site.head, point: site.head },
            rest,
        ),
        !existing ==> (base matches Some(b) ==> {
            &&& start_protocol(before, site, branch, base, dirty) == Step::<StartView>::Ask(
                question(
                    site.cwd,
                    seq!["rev-parse"@, "--verify"@, "--end-of-options"@, b + "^{commit}"@],
                ),
            )
            &&& start_or_refusal(
                start_protocol(before + (seq![git(first)] + rest), site, branch, base, dirty),
                dirty,
                site.head,
                StartView { existing: false, commit: tip, point: b },
                rest,
            )
        }),
        existing ==> start_protocol(before, site, branch, base, dirty) == Step::<StartView>::Ask(
            question(
                site.cwd,
                seq![
                    "rev-parse"@,
                    "--verify"@,
                    "--end-of-options"@,
                    "refs/heads/"@ + branch + "^{commit}"@,
                ],
            ),
        ),
        existing && base is None ==> start_or_refusal(
            start_protocol(before + (seq![git(first)] + rest), site, branch, base, dirty),
            dirty,
            site.head,
            StartView { existing: true, commit: tip, point: branch },
            rest,
        ),
        existing ==> (base matches Some(b) ==> {
            let step = start_protocol(
                before + (seq![git(first)] + (seq![git(second)] + rest)),
                site,
                branch,
                base,
                dirty,
            );
            if named != tip {
                step matches Step::Fail(error, left) && error.usage && left == rest
            } else {
                start_or_refusal(
                    step,
                    dirty,
                    site.head,
                    StartView { existing: true, commit: tip, point: branch },
                    rest,
                )
            }
        }),
{
    let cwd = site.cwd;
    let e = Log::empty();
    let one = seq![git(first)] + rest;
    let two = seq![git(second)] + rest;
    let both = seq![git(first)] + two;
    steady_check_branch(before, rest, cwd, branch);
    steady_check_branch(before, one, cwd, branch);
    steady_check_branch(before, both, cwd, branch);
    assert(e + rest =~= rest);
    assert(e + one =~= one);
    assert(e + both =~= both);
    lemma_commit(cwd, "refs/heads/"@ + branch, first, tip, rest);
    lemma_commit(cwd, "refs/heads/"@ + branch, first, tip, two);
    if let Some(b) = base {
        lemma_commit(cwd, b, first, tip, rest);
        lemma_commit(cwd, b, second, named, rest);
    }
}

/// A place is free where nothing is found, and taken where something is. Any other failure
/// is one.
pub proof fn law_what_is_taken(path: Seq<u8>, reply: Reply, rest: Log)
    ensures
        exists_protocol(Log::empty(), path) == Step::<bool>::Ask(
            RequestView::SymlinkMetadata(path),
        ),
        match reply {
            Reply::Metadata(Ok(_)) => exists_protocol(seq![reply] + rest, path) == Step::Done(
                true,
                rest,
            ),
            Reply::Metadata(Err(error)) => if error.kind == ErrorKind::NotFound {
                exists_protocol(seq![reply] + rest, path) == Step::Done(false, rest)
            } else {
                exists_protocol(seq![reply] + rest, path) is Fail
            },
            _ => true,
        },
{
    assert((seq![reply] + rest).drop_first() =~= rest);
}

/// Where the worktree of a branch is to go: to the path that was given, else to the
/// components of the directory for the repository and those of the branch.
pub proof fn law_where_a_branch_goes(site: SiteView, path: Option<Seq<u8>>, branch: Seq<char>)
    ensures
        path matches Some(p) ==> place_of(site, path, branch) == p,
        path is None ==> (site.parent matches Some(parent) ==> (parent.len() > 0 && joinable(
            encode_utf8(branch),
        ) ==> components(place_of(site, path, branch)) == components(parent) + components(
            encode_utf8(branch),
        ))),
{
    if path is None {
        if let Some(parent) = site.parent {
            if parent.len() > 0 && joinable(encode_utf8(branch)) {
                law_join(parent, encode_utf8(branch));
            }
        }
    }
}

/// The absolute form of a path keeps its last name; what is above it is resolved. What is
/// missing of that stays as it is named.
pub proof fn law_the_last_name_stays(
    answers: Log,
    path: Seq<u8>,
    cwd: Seq<u8>,
    k: int,
    found: Vec<u8>,
)
    requires
        valid_utf8(path),
        name_of(seen_from(path, cwd)) is Some,
        parent_of(seen_from(path, cwd)) is Some,
        deepest(answers, k, found),
        found@.len() > 0,
        ends_in_names(parent_of(seen_from(path, cwd))->0, k),
    ensures
        ({
            let whole = components(seen_from(path, cwd));
            match absolute_protocol(answers, path, cwd) {
                Step::Done(result, left) => {
                    &&& left == answers.skip(2 * k + 2)
                    &&& components(result) == components(found@) + whole.skip(whole.len() - k - 1)
                    &&& valid_utf8(result)
                },
                Step::Fail(_, left) => left == answers.skip(2 * k + 2),
                _ => false,
            }
        }),
{
    let seen = seen_from(path, cwd);
    let parent = parent_of(seen)->0;
    let name = name_of(seen)->0;
    let whole = components(seen);
    law_parent(seen);
    law_what_is_missing_stays_as_it_is_named(answers, parent, k, found);
    let above = resolve_protocol(answers, parent)->Done_0;
    lemma_joined_name(above, name);
    assert(components(parent).skip(components(parent).len() - k).push(name) =~= whole.skip(
        whole.len() - k - 1,
    ));
    assert(components(join_path(above, name)) =~= components(found@) + whole.skip(
        whole.len() - k - 1,
    ));
}

/// A place must be free, and below the directory for the repository where no path was
/// given. It is looked at before anything is done there.
pub proof fn law_a_worktree_needs_a_free_place(
    before: Log,
    site: SiteView,
    path: Option<Seq<u8>>,
    branch: Seq<char>,
    dst: Seq<u8>,
    reply: Reply,
    rest: Log,
)
    requires
        absolute_protocol(before, place_of(site, path, branch), site.cwd) == Step::Done(
            dst,
            Log::empty(),
        ),
        reply is Metadata,
    ensures
        ({
            let step = target_protocol(before + (seq![reply] + rest), site, path, branch);
            if site.parent matches Some(parent) && !within(dst, parent) {
                step is Fail
            } else {
                &&& target_protocol(before, site, path, branch) == Step::<Seq<u8>>::Ask(
                    RequestView::SymlinkMetadata(dst),
                )
                &&& if reply matches Reply::Metadata(Err(error)) && error.kind
                    == ErrorKind::NotFound {
                    step == Step::Done(dst, rest)
                } else {
                    step is Fail
                }
            }
        }),
{
    let one = seq![reply] + rest;
    steady_absolute(before, one, place_of(site, path, branch), site.cwd);
    assert(Log::empty() + one =~= one);
    law_what_is_taken(dst, reply, rest);
}

/// Two branch names stand in each other's way where they are the same, or where one of them
/// goes on after the other with a slash.
pub proof fn law_which_names_collide(name: Seq<char>, branch: Seq<char>)
    ensures
        collides(name, branch) <==> {
            ||| name == branch
            ||| exists|more: Seq<char>| branch == name + "/"@ + more
            ||| exists|more: Seq<char>| name == branch + "/"@ + more
        },
{
    if begins(branch, name + "/"@) {
        let n = (name + "/"@).len() as int;
        assert(branch =~= name + "/"@ + branch.skip(n)) by {
            assert(branch =~= branch.take(n) + branch.skip(n));
        }
    }
    if begins(name, branch + "/"@) {
        let n = (branch + "/"@).len() as int;
        assert(name =~= branch + "/"@ + name.skip(n)) by {
            assert(name =~= name.take(n) + name.skip(n));
        }
    }
    if exists|more: Seq<char>| branch == name + "/"@ + more {
        let more = choose|more: Seq<char>| branch == name + "/"@ + more;
        assert(branch.take((name + "/"@).len() as int) =~= name + "/"@);
    }
    if exists|more: Seq<char>| name == branch + "/"@ + more {
        let more = choose|more: Seq<char>| name == branch + "/"@ + more;
        assert(name.take((branch + "/"@).len() as int) =~= branch + "/"@);
    }
}

/// Whether a name is free is told by the branches and by its place. A path that was given
/// must be free in any case.
pub proof fn law_which_names_are_free(
    before: Log,
    site: SiteView,
    path: Option<Seq<u8>>,
    name: Seq<char>,
    branches: Seq<Seq<char>>,
    dst: Seq<u8>,
    reply: Reply,
    rest: Log,
)
    requires
        absolute_protocol(before, place_of(site, path, name), site.cwd) == Step::Done(
            dst,
            Log::empty(),
        ),
        reply is Metadata,
    ensures
        path is None && collides_any(name, branches) ==> name_free_protocol(
            before,
            site,
            path,
            name,
            branches,
        ) == Step::Done(false, Log::empty()),
        path is None && !collides_any(name, branches) ==> {
            let step = name_free_protocol(before + (seq![reply] + rest), site, path, name, branches);
            &&& name_free_protocol(before, site, path, name, branches) == Step::<bool>::Ask(
                RequestView::SymlinkMetadata(dst),
            )
            &&& reply matches Reply::Metadata(Ok(_)) ==> step == Step::Done(false, rest)
            &&& reply matches Reply::Metadata(Err(error)) ==> if error.kind == ErrorKind::NotFound {
                step == Step::Done(true, rest)
            } else {
                step is Fail
            }
        },
        path is Some ==> {
            let step = name_free_protocol(before + (seq![reply] + rest), site, path, name, branches);
            &&& name_free_protocol(before, site, path, name, branches) == Step::<bool>::Ask(
                RequestView::SymlinkMetadata(dst),
            )
            &&& reply matches Reply::Metadata(Ok(_)) ==> step is Fail
        },
{
    let one = seq![reply] + rest;
    steady_absolute(before, one, place_of(site, path, name), site.cwd);
    assert(Log::empty() + one =~= one);
    law_what_is_taken(dst, reply, rest);
}

proof fn lemma_one()
    ensures
        decimal_text(1) == "1"@,
{
    reveal_strlit("1");
    reveal_with_fuel(decimal_text, 2);
    assert(decimal_text(1) =~= "1"@);
}

/// Whether a branch name that was not given begins with the branch that the program was
/// started on, or with `detached` where there is none.
pub open spec fn continues(head: Output, stem: Seq<char>) -> bool {
    ||| says(head, "refs/heads/"@ + stem)
    ||| lacks(head) && stem == "detached"@
}

/// A branch name that was given is taken. Without one Git is asked for the branch that the
/// program was started on and for all branches, and numbers are tried from one on.
pub proof fn law_how_a_branch_is_named(
    site: SiteView,
    path: Option<Seq<u8>>,
    given: Seq<char>,
    head: Output,
    stem: Seq<char>,
    list: Output,
    listed: Seq<char>,
    answers: Log,
)
    requires
        continues(head, stem),
        says(list, listed),
    ensures
        branch_protocol(answers, site, path, Some(given)) == Step::Done(given, answers),
        branch_protocol(Log::empty(), site, path, None) == Step::<Seq<char>>::Ask(
            question(site.cwd, seq!["symbolic-ref"@, "--quiet"@, "HEAD"@]),
        ),
        branch_protocol(seq![git(head)], site, path, None) == Step::<Seq<char>>::Ask(
            question(
                site.cwd,
                seq!["for-each-ref"@, "--format=%(refname:strip=2)"@, "refs/heads/"@],
            ),
        ),
        branch_protocol(seq![git(head), git(list)] + answers, site, path, None)
            == auto_name_protocol(answers, site, path, stem, text_lines(listed), 1),
        name_free_protocol(
            answers,
            site,
            path,
            stem + "-"@ + "1"@,
            text_lines(listed),
        ) matches Step::Done(free, left) ==> (free ==> branch_protocol(
            seq![git(head), git(list)] + answers,
            site,
            path,
            None,
        ) == Step::Done(stem + "-"@ + "1"@, left)),
{
    let cwd = site.cwd;
    assert(head_args() =~= seq!["symbolic-ref"@, "--quiet"@, "HEAD"@]);
    assert(branches_args() =~= seq![
        "for-each-ref"@,
        "--format=%(refname:strip=2)"@,
        "refs/heads/"@,
    ]);
    let one = seq![git(head)];
    let after = seq![git(list)] + answers;
    assert(one + Log::empty() =~= one);
    assert(seq![git(head), git(list)] + answers =~= one + after);
    lemma_stem(cwd, head, stem, Log::empty());
    lemma_stem(cwd, head, stem, after);
    law_lines_of_git_are_read(
        GitContext::Source,
        cwd,
        head_args(),
        head,
        "refs/heads/"@ + stem,
        Log::empty(),
    );
    lemma_text(cwd, branches_args(), list, listed, answers);
    lemma_one();
}

proof fn lemma_stem(cwd: Seq<u8>, head: Output, stem: Seq<char>, rest: Log)
    requires
        continues(head, stem),
    ensures
        stem_protocol(seq![git(head)] + rest, cwd) == Step::Done(stem, rest),
{
    let prefix = "refs/heads/"@;
    law_lines_of_git_are_read(GitContext::Source, cwd, head_args(), head, prefix + stem, rest);
    assert((prefix + stem).take(prefix.len() as int) =~= prefix);
    assert((prefix + stem).skip(prefix.len() as int) =~= stem);
}

/// The branches that Git lists are its lines.
pub proof fn law_each_line_names_a_branch(names: Seq<Seq<char>>)
    requires
        names.len() > 0,
        forall|k: int|
            0 <= k < names.len() ==> (#[trigger] names[k]).len() > 0 && !names[k].contains('\n')
                && names[k].last() != '\r',
    ensures
        text_lines(joined(names, '\n')) == names,
{
    lemma_split_joined(names);
    let text = joined(names, '\n');
    let pieces = split(text, '\n');
    assert(pieces == names);
    let broken = pieces.drop_last().map_values(
        |l: Seq<char>| without_return(l),
    );
    assert(broken =~= names.drop_last()) by {
        assert forall|k: int| 0 <= k < names.len() - 1 implies broken[k] == #[trigger]
            names.drop_last()[k] by {
            assert(names[k].len() > 0);
        }
    }
    assert(names[names.len() - 1].len() > 0);
    assert(broken.push(names.last()) =~= names);
}

proof fn lemma_split_joined(names: Seq<Seq<char>>)
    requires
        names.len() > 0,
        forall|k: int| 0 <= k < names.len() ==> !(#[trigger] names[k]).contains('\n'),
    ensures
        split(joined(names, '\n'), '\n') == names,
    decreases names.len(),
{
    let head = names[0];
    assert forall|j: int| 0 <= j < head.len() implies head[j] != '\n' by {
        assert(head.contains(head[j]));
    }
    if names.len() == 1 {
        lemma_first_is(head, '\n', head.len() as int);
        assert(split(head, '\n') =~= names);
    } else {
        let rest = names.drop_first();
        assert forall|k: int| 0 <= k < rest.len() implies !(#[trigger] rest[k]).contains(
            '\n',
        ) by {
            assert(rest[k] == names[k + 1]);
        }
        lemma_split_joined(rest);
        let tail = joined(rest, '\n');
        let text = head + seq!['\n'] + tail;
        let n = head.len() as int;
        assert forall|j: int| 0 <= j < n implies text[j] != '\n' by {
            assert(text[j] == head[j]);
        }
        lemma_first_is(text, '\n', n);
        assert(text.take(n) =~= head);
        assert(text.skip(n + 1) =~= tail);
        assert(seq![head] + rest =~= names);
    }
}

/// A creation goes through its steps: where it starts, the branch, the starting point, the
/// place, what is carried over, the ground that it needs, and the worktree itself. Each
/// step goes by what the steps before it found.
pub proof fn law_a_creation_takes_its_steps(
    cwd: Seq<u8>,
    o: NewOptionsView,
    sited: Log,
    site: SiteView,
    named: Log,
    branch: Seq<char>,
    started: Log,
    start: StartView,
    placed: Log,
    dst: Seq<u8>,
    selected: Log,
    entries: Seq<EntryView>,
    grounded: Log,
    built: Log,
)
    requires
        site_protocol(sited, cwd, o.path) == Step::Done(site, Log::empty()),
        branch_protocol(named, site, o.path, o.branch) == Step::Done(branch, Log::empty()),
        start_protocol(started, site, branch, o.base, o.dirty) == Step::Done(start, Log::empty()),
        target_protocol(placed, site, o.path, branch) == Step::Done(dst, Log::empty()),
        selection_protocol(selected, site, o, dst) == Step::Done(entries, Log::empty()),
        ground_protocol(grounded, site, o.no_clone, dst) matches Step::Done(_, left) && left
            == Log::empty(),
    ensures
        new_protocol(
            sited + (named + (started + (placed + (selected + (grounded + built))))),
            cwd,
            o,
        ) == build_protocol(built, site, o, branch, start, dst, entries),
{
    let f = grounded + built;
    let e = selected + f;
    let d = placed + e;
    let c = started + d;
    let b = named + c;
    steady_site(sited, b, cwd, o.path);
    steady_branch(named, c, site, o.path, o.branch);
    steady_start(started, d, site, branch, o.base, o.dirty);
    steady_target(placed, e, site, o.path, branch);
    steady_selection(selected, f, site, o, dst);
    steady_ground(grounded, built, site, o.no_clone, dst);
    assert(Log::empty() + b =~= b);
    assert(Log::empty() + c =~= c);
    assert(Log::empty() + d =~= d);
    assert(Log::empty() + e =~= e);
    assert(Log::empty() + f =~= f);
    assert(Log::empty() + built =~= built);
    assert(furnish_protocol(e, site, o, branch, start, dst) == build_protocol(
        built,
        site,
        o,
        branch,
        start,
        dst,
        entries,
    ));
    assert(branch_off_protocol(c, site, o, branch) == furnish_protocol(
        e,
        site,
        o,
        branch,
        start,
        dst,
    ));
}

/// A name that is tried is what names begin with, a hyphen, and its number.
pub proof fn law_numbers_follow_a_hyphen(stem: Seq<char>, n: int)
    ensures
        numbered(stem, n) == stem + "-"@ + decimal_text(n),
{
}

} // verus!
