//! The commands of the program.

use vstd::prelude::*;


use crate::construct;
use crate::construct::new_protocol;
use crate::create::{NewOptions, NewOptionsView};
use crate::errors::system;
use crate::git::{path_str, path_text, WorktreeView};
use crate::listing;
use crate::listing::{can_cut_heads, heads_can_be_cut, list_answer};
use crate::session::{
    ask_path, canonicalize, canonicalize_protocol, context, fails, follows, lemma_bytes, path_reply,
    settled, stop, stop_system, IoError, Log, Request, RequestView, Session, Step, Stop,
};
use crate::worktrees;
use crate::worktrees::{marked_inventory_protocol, path_protocol, remove_protocol};

verus! {

broadcast use lemma_bytes;

/// A command line.
#[derive(Debug)]
pub struct Cli {
    pub command: Commands,
}

/// What is to be done.
#[allow(inconsistent_fields)]
#[derive(Debug)]
pub enum Commands {
    /// Create a worktree and clone ignored environment files.
    New(NewOptions),
    /// List the worktrees that are registered with Git.
    List { json: bool },
    /// Print the absolute path of a worktree.
    Path { worktree: Option<String>, main_worktree: bool, json: bool },
    /// Remove a worktree through Git; its branch stays.
    Remove { worktree: String, force: bool },
}

/// What [`Commands`] say.
#[allow(inconsistent_fields)]
pub enum CommandsView {
    New(NewOptionsView),
    List { json: bool },
    Path { worktree: Option<Seq<char>>, main_worktree: bool, json: bool },
    Remove { worktree: Seq<char>, force: bool },
}

impl DeepView for Commands {
    type V = CommandsView;

    open spec fn deep_view(&self) -> CommandsView {
        match self {
            Commands::New(options) => CommandsView::New(options.deep_view()),
            Commands::List { json } => CommandsView::List { json: *json },
            Commands::Path { worktree, main_worktree, json } => CommandsView::Path {
                worktree: worktree.deep_view(),
                main_worktree: *main_worktree,
                json: *json,
            },
            Commands::Remove { worktree, force } => CommandsView::Remove {
                worktree: worktree@,
                force: *force,
            },
        }
    }
}

/// The worktrees as an answer. A commit name that cannot be cut is none.
pub open spec fn list_protocol(log: Log, cwd: Seq<u8>, json: bool) -> Step<Seq<char>> {
    marked_inventory_protocol(log, cwd).bind(
        |trees: Seq<WorktreeView>, log: Log|
            if !json && !heads_can_be_cut(trees) {
                fails("Git reported a malformed commit name"@, log)
            } else {
                settled(list_answer(trees, json), log)
            },
    )
}

fn list<'a>(io: &mut Session<'a>, cwd: &[u8], json: bool) -> (r: Result<String, Stop>)
    ensures
        follows(r, final(io)@, list_protocol(old(io)@, cwd@, json)),
{
    let trees = worktrees::inventory(io, cwd)?;
    if !json && !can_cut_heads(&trees) {
        return Err(stop("Git reported a malformed commit name"));
    }
    match listing::list(&trees, json) {
        Ok(answer) => Ok(answer),
        Err(error) => Err(Stop::Fail(error)),
    }
}

pub open spec fn command_protocol(log: Log, cwd: Seq<u8>, command: CommandsView) -> Step<Seq<char>> {
    match command {
        CommandsView::New(options) => new_protocol(log, cwd, options),
        CommandsView::List { json } => list_protocol(log, cwd, json),
        CommandsView::Path { worktree, main_worktree, json } => marked_inventory_protocol(
            log,
            cwd,
        ).bind(
            |trees: Seq<WorktreeView>, log: Log|
                path_protocol(log, cwd, trees, worktree, main_worktree, json),
        ),
        CommandsView::Remove { worktree, force } => marked_inventory_protocol(log, cwd).bind(
            |trees: Seq<WorktreeView>, log: Log| remove_protocol(log, cwd, trees, worktree, force),
        ),
    }
}

fn perform<'a>(io: &mut Session<'a>, cwd: &[u8], command: &Commands) -> (r: Result<String, Stop>)
    ensures
        follows(r, final(io)@, command_protocol(old(io)@, cwd@, command.deep_view())),
{
    match command {
        Commands::New(options) => construct::new(io, cwd, options),
        Commands::List { json } => list(io, cwd, *json),
        Commands::Path { worktree, main_worktree, json } => {
            let trees = worktrees::inventory(io, cwd)?;
            let selector = match worktree {
                Some(selector) => Some(selector.as_str()),
                None => None,
            };
            worktrees::path(io, cwd, &trees, selector, *main_worktree, *json)
        },
        Commands::Remove { worktree, force } => {
            let trees = worktrees::inventory(io, cwd)?;
            worktrees::remove(io, cwd, &trees, worktree.as_str(), *force)
        },
    }
}

/// The directory that the program was started in, resolved.
pub open spec fn cwd_protocol(log: Log) -> Step<Seq<u8>> {
    path_reply(log, RequestView::CurrentDirectory).bind(
        |outcome: Result<Vec<u8>, IoError>, log: Log|
            match outcome {
                Err(error) => Step::Fail(system(error), log),
                Ok(directory) => canonicalize_protocol(log, directory@).context(
                    "invalid working directory"@,
                ).bind(
                    |cwd: Seq<u8>, log: Log|
                        match path_text(cwd) {
                            Ok(_) => Step::Done(cwd, log),
                            Err(error) => Step::Fail(error, log),
                        },
                ),
            },
    )
}

fn find_cwd<'a>(io: &mut Session<'a>) -> (r: Result<Vec<u8>, Stop>)
    ensures
        follows(r, final(io)@, cwd_protocol(old(io)@)),
{
    match ask_path(io, Request::CurrentDirectory)? {
        Err(error) => Err(stop_system(error)),
        Ok(directory) => {
            let cwd = context(
                canonicalize(io, directory.as_slice()),
                "invalid working directory",
            )?;
            match path_str(cwd.as_slice()) {
                Ok(_) => Ok(cwd),
                Err(error) => Err(Stop::Fail(error)),
            }
        },
    }
}

pub open spec fn execute_protocol(log: Log, command: CommandsView) -> Step<Seq<char>> {
    cwd_protocol(log).bind(|cwd: Seq<u8>, log: Log| command_protocol(log, cwd, command))
}

/// Does what a command line says; what is to be printed.
pub fn execute<'a>(io: &mut Session<'a>, cli: &Cli) -> (r: Result<String, Stop>)
    ensures
        follows(r, final(io)@, execute_protocol(old(io)@, cli.command.deep_view())),
{
    let cwd = find_cwd(io)?;
    perform(io, cwd.as_slice(), &cli.command)
}

} // verus!
