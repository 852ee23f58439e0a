//! Answers are final: a procedure that needs no more of them comes out the same
//! whatever is answered later. So a command can be run again from its beginning
//! after each answer, and goes on where it stopped.

use vstd::prelude::*;

use vstd::utf8::encode_utf8;

use crate::clone::{
    ignored_args, indexed_args, listing_protocol, lists_protocol, others_args, plan_protocol,
    populate_protocol, probe_protocol, EntryView, SurveyView,
};
use crate::git::{optional_protocol, steady_optional, steady_run, steady_text, text_protocol};
use crate::naming::{
    absolute_protocol, directory_protocol, parent_protocol, remote_identity, remote_name_args,
    remote_url_args, repository_parent_protocol, resolve_protocol, root_args, root_protocol,
    seen_from, selector_protocol,
};
use crate::native::{clone_file_protocol, steady_clone_file};
use crate::paths::{join_path, lemma_parent_shorter, parent_of};
use crate::session::{
    extends, metadata_reply, path_reply, scratch_reply, steady_home, steady_metadata, steady_path,
    steady_plan, steady_populate, steady_scratch, steady_unit, GitContext, Log, RequestView, Step,
};

verus! {

proof fn steady_directory(log: Log, more: Log, path: Seq<u8>, resolved: Seq<u8>)
    ensures
        extends(
            directory_protocol(log, path, resolved),
            directory_protocol(log + more, path, resolved),
            more,
        ),
{
    steady_metadata(log, more, RequestView::Metadata(resolved));
}

pub proof fn steady_resolve(log: Log, more: Log, path: Seq<u8>)
    ensures
        extends(resolve_protocol(log, path), resolve_protocol(log + more, path), more),
    decreases path.len(),
{
    let first = RequestView::Canonicalize(path);
    let second = RequestView::SymlinkMetadata(path);
    steady_path(log, more, first);
    if let Step::Done(outcome, log) = path_reply(log, first) {
        match outcome {
            Ok(resolved) => {
                steady_directory(log, more, path, resolved@);
            },
            Err(_) => {
                steady_metadata(log, more, second);
                if let Step::Done(_, log) = metadata_reply(log, second) {
                    if let Some(parent) = parent_of(path) {
                        lemma_parent_shorter(path);
                        steady_resolve(log, more, parent);
                    }
                }
            },
        }
    }
}

pub proof fn steady_absolute(log: Log, more: Log, path: Seq<u8>, cwd: Seq<u8>)
    ensures
        extends(absolute_protocol(log, path, cwd), absolute_protocol(log + more, path, cwd), more),
{
    let joined = seen_from(path, cwd);
    steady_resolve(log, more, joined);
    if let Some(parent) = parent_of(joined) {
        steady_resolve(log, more, parent);
    }
}

pub proof fn steady_selector(log: Log, more: Log, path: Seq<u8>, cwd: Seq<u8>)
    ensures
        extends(selector_protocol(log, path, cwd), selector_protocol(log + more, path, cwd), more),
{
    steady_absolute(log, more, path, cwd);
    if let Step::Done(absolute, log) = absolute_protocol(log, path, cwd) {
        steady_path(log, more, RequestView::Canonicalize(absolute));
    }
}

proof fn steady_root(log: Log, more: Log, cwd: Seq<u8>, url: Seq<char>)
    ensures
        extends(root_protocol(log, cwd, url), root_protocol(log + more, cwd, url), more),
{
    steady_optional(log, more, cwd, root_args(url));
    if let Step::Done(_, log) = optional_protocol(log, cwd, root_args(url)) {
        steady_home(log, more);
    }
}

proof fn steady_repository_parent(log: Log, more: Log, cwd: Seq<u8>, address: Seq<char>)
    ensures
        extends(
            repository_parent_protocol(log, cwd, address),
            repository_parent_protocol(log + more, cwd, address),
            more,
        ),
{
    if let Ok((url, repository)) = remote_identity(address) {
        steady_root(log, more, cwd, url);
        if let Step::Done(root, log) = root_protocol(log, cwd, url) {
            steady_resolve(log, more, join_path(root, repository));
        }
    }
}

pub proof fn steady_parent(log: Log, more: Log, cwd: Seq<u8>)
    ensures
        extends(parent_protocol(log, cwd), parent_protocol(log + more, cwd), more),
{
    steady_optional(log, more, cwd, remote_name_args());
    if let Step::Done(name, log) = optional_protocol(log, cwd, remote_name_args()) {
        let remote = match name {
            Some(remote) => remote,
            None => "origin"@,
        };
        steady_text(log, more, GitContext::Source, cwd, remote_url_args(remote));
        if let Step::Done(address, log) = text_protocol(
            log,
            GitContext::Source,
            cwd,
            remote_url_args(remote),
        ) {
            steady_repository_parent(log, more, cwd, address);
        }
    }
}

pub proof fn steady_probe(log: Log, more: Log, source: Seq<u8>, parent: Seq<u8>)
    ensures
        extends(
            probe_protocol(log, source, parent),
            probe_protocol(log + more, source, parent),
            more,
        ),
{
    steady_scratch(log, more, source, parent);
    if let Step::Done(Ok(scratch), log) = scratch_reply(log, source, parent) {
        let to = join_path(scratch.directory@, encode_utf8("clone"@));
        steady_clone_file(log, more, scratch.file@, to);
        if let Step::Done(_, log) = clone_file_protocol(log, scratch.file@, to) {
            steady_unit(log, more, RequestView::DropScratch);
        }
    }
}

proof fn steady_listing(log: Log, more: Log, cwd: Seq<u8>, args: Seq<Seq<char>>)
    ensures
        extends(listing_protocol(log, cwd, args), listing_protocol(log + more, cwd, args), more),
{
    steady_run(log, more, GitContext::Source, cwd, args);
}

pub proof fn steady_lists(log: Log, more: Log, cwd: Seq<u8>, dirty: bool)
    ensures
        extends(lists_protocol(log, cwd, dirty), lists_protocol(log + more, cwd, dirty), more),
{
    steady_listing(log, more, cwd, indexed_args());
    if let Step::Done(_, log) = listing_protocol(log, cwd, indexed_args()) {
        if dirty {
            steady_listing(log, more, cwd, others_args());
            if let Step::Done(_, log) = listing_protocol(log, cwd, others_args()) {
                steady_listing(log, more, cwd, ignored_args());
            }
        } else {
            steady_listing(log, more, cwd, ignored_args());
        }
    }
}

pub proof fn steady_whole_plan(
    log: Log,
    more: Log,
    cwd: Seq<u8>,
    source: Seq<u8>,
    dirty: bool,
    exclude: Seq<Seq<u8>>,
    nested: Seq<Seq<u8>>,
    destination: Seq<u8>,
)
    ensures
        extends(
            plan_protocol(log, cwd, source, dirty, exclude, nested, destination),
            plan_protocol(log + more, cwd, source, dirty, exclude, nested, destination),
            more,
        ),
{
    steady_lists(log, more, cwd, dirty);
    if let Step::Done(lists, log) = lists_protocol(log, cwd, dirty) {
        steady_plan(
            log,
            more,
            SurveyView {
                source,
                destination,
                dirty,
                indexed: lists.0,
                protected: lists.1,
                ignored: lists.2,
                exclude,
                nested,
            },
        );
    }
}

pub proof fn steady_whole_population(
    log: Log,
    more: Log,
    source: Seq<u8>,
    destination: Seq<u8>,
    entries: Seq<EntryView>,
)
    ensures
        extends(
            populate_protocol(log, source, destination, entries),
            populate_protocol(log + more, source, destination, entries),
            more,
        ),
{
    steady_populate(log, more, source, destination, entries);
}

} // verus!
