//! What each command line comes down to.

use vstd::prelude::*;

use vstd::utf8::valid_utf8;

use crate::commands::{command_protocol, execute_protocol, CommandsView};
use crate::construct::new_protocol;
use crate::create::NewOptionsView;
use crate::errors::ErrorView;
use crate::git::WorktreeView;
use crate::laws::furnishing::{heard, lemma_heard};
use crate::laws::validation::found_at;
use crate::listing::{can_cut, list_answer};
use crate::session::{Log, Reply, RequestView, Step};
use crate::worktrees::{marked_inventory_protocol, path_protocol, remove_protocol};

verus! {

/// Before anything else the directory that the program was started in is asked for and
/// resolved. What cannot be told, or is no text, ends the program.
pub proof fn law_commands_know_where_they_were_started(
    command: CommandsView,
    directory: Vec<u8>,
    cwd: Vec<u8>,
    failed: Reply,
    rest: Log,
)
    ensures
        execute_protocol(Log::empty(), command) == Step::<Seq<char>>::Ask(
            RequestView::CurrentDirectory,
        ),
        execute_protocol(heard(found_at(directory), Log::empty()), command) == Step::<
            Seq<char>,
        >::Ask(RequestView::Canonicalize(directory@)),
        failed matches Reply::Path(Err(_)) ==> execute_protocol(heard(failed, rest), command) is Fail
            && execute_protocol(heard(found_at(directory), heard(failed, rest)), command) is Fail,
        !valid_utf8(cwd@) ==> execute_protocol(
            heard(found_at(directory), heard(found_at(cwd), rest)),
            command,
        ) is Fail,
        valid_utf8(cwd@) ==> execute_protocol(
            heard(found_at(directory), heard(found_at(cwd), rest)),
            command,
        ) == command_protocol(rest, cwd@, command),
{
    broadcast use lemma_heard;

}

/// Each command does what it is for, in the directory that the program was started in: one
/// creates a worktree, and the others go by all worktrees, with the current one marked.
pub proof fn law_each_command_does_its_own(
    before: Log,
    cwd: Seq<u8>,
    o: NewOptionsView,
    trees: Seq<WorktreeView>,
    left: Log,
    selector: Option<Seq<char>>,
    main: bool,
    named: Seq<char>,
    force: bool,
    json: bool,
)
    requires
        marked_inventory_protocol(before, cwd) == Step::Done(trees, left),
    ensures
        command_protocol(before, cwd, CommandsView::New(o)) == new_protocol(before, cwd, o),
        command_protocol(
            before,
            cwd,
            CommandsView::Path { worktree: selector, main_worktree: main, json },
        ) == path_protocol(left, cwd, trees, selector, main, json),
        command_protocol(before, cwd, CommandsView::Remove { worktree: named, force })
            == remove_protocol(left, cwd, trees, named, force),
        json || (forall|k: int|
            0 <= k < trees.len() ==> ((#[trigger] trees[k]).head matches Some(head) ==> can_cut(
                head,
            ))) ==> match list_answer(trees, json) {
            Ok(answer) => command_protocol(before, cwd, CommandsView::List { json }) == Step::Done(
                answer,
                left,
            ),
            Err(error) => command_protocol(before, cwd, CommandsView::List { json }) == Step::<
                Seq<char>,
            >::Fail(error, left),
        },
{
}

/// Where the worktrees cannot be told, neither are they listed, nor is one answered or
/// removed.
pub proof fn law_commands_need_the_worktrees(
    before: Log,
    cwd: Seq<u8>,
    error: ErrorView,
    left: Log,
    selector: Option<Seq<char>>,
    main: bool,
    named: Seq<char>,
    force: bool,
    json: bool,
)
    requires
        marked_inventory_protocol(before, cwd) == Step::<Seq<WorktreeView>>::Fail(error, left),
    ensures
        command_protocol(before, cwd, CommandsView::List { json }) == Step::<Seq<char>>::Fail(
            error,
            left,
        ),
        command_protocol(
            before,
            cwd,
            CommandsView::Path { worktree: selector, main_worktree: main, json },
        ) == Step::<Seq<char>>::Fail(error, left),
        command_protocol(before, cwd, CommandsView::Remove { worktree: named, force }) == Step::<
            Seq<char>,
        >::Fail(error, left),
{
}

} // verus!
